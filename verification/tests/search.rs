use lib::zopfli::{
    HqZopfliTwoPassStep, TwoPassAction, TwoPassEvent, TwoPassState,
    BrotliCreateHqZopfliBackwardReferencesStep, BrotliZopfliComputeShortestPathStep, GatherAction,
    GatherEvent, GatherState, IterateAction, IterateEvent, IterateState, NewPathSearch, PathAction,
    PathEvent, PathState, ZopfliIterateStep,
};

fn m(dist: u64, len: u64) -> u64 {
    dist | ((len << 5) << 32)
}

#[test]
fn iteration_updates_then_evaluates_after_a_long_result() {
    let num_matches = [1u32, 0, 2, 0, 0, 0, 0, 0, 0, 0];
    let matches = [m(1, 4), m(2, 3), m(5, 6)];
    let mut s = IterateState { i: 0, cur_match_pos: 0, skip: 0 };
    let step = |s: &mut IterateState, e: IterateEvent| ZopfliIterateStep(10, &num_matches, &matches, 325, s, e);
    assert_eq!(step(&mut s, IterateEvent::Start), IterateAction::UpdateNodes { pos: 0, num_matches: 1, matches_start: 0 });
    assert_eq!(step(&mut s, IterateEvent::Updated { result: 4 }), IterateAction::UpdateNodes { pos: 1, num_matches: 0, matches_start: 1 });
    assert_eq!(step(&mut s, IterateEvent::Updated { result: 0 }), IterateAction::UpdateNodes { pos: 2, num_matches: 2, matches_start: 1 });
    assert_eq!(step(&mut s, IterateEvent::Updated { result: 20000 }), IterateAction::EvaluateNode { pos: 3 });
    assert_eq!(s.cur_match_pos, 3);
    assert_eq!(s.skip, 19999);
    assert_eq!(step(&mut s, IterateEvent::Evaluated), IterateAction::EvaluateNode { pos: 4 });
    assert_eq!(step(&mut s, IterateEvent::Evaluated), IterateAction::EvaluateNode { pos: 5 });
    assert_eq!(step(&mut s, IterateEvent::Evaluated), IterateAction::EvaluateNode { pos: 6 });
    assert_eq!(step(&mut s, IterateEvent::Evaluated), IterateAction::TraceBack);
}

#[test]
fn iteration_skips_over_a_single_long_match() {
    let mut num_matches = [0u32; 600];
    num_matches[0] = 1;
    num_matches[5] = 1;
    let matches = [m(1, 4), m(7, 3)];
    let mut s = IterateState { i: 0, cur_match_pos: 0, skip: 0 };
    // max_zopfli_len 3: the single match of length 4 counts as long
    let step = |s: &mut IterateState, e: IterateEvent| ZopfliIterateStep(600, &num_matches, &matches, 3, s, e);
    step(&mut s, IterateEvent::Start);
    assert_eq!(step(&mut s, IterateEvent::Updated { result: 0 }), IterateAction::EvaluateNode { pos: 1 });
    assert_eq!(step(&mut s, IterateEvent::Evaluated), IterateAction::EvaluateNode { pos: 2 });
    assert_eq!(step(&mut s, IterateEvent::Evaluated), IterateAction::EvaluateNode { pos: 3 });
    assert_eq!(step(&mut s, IterateEvent::Evaluated), IterateAction::UpdateNodes { pos: 4, num_matches: 0, matches_start: 1 });
    // result below the threshold and a short single match: no skip
    assert_eq!(step(&mut s, IterateEvent::Updated { result: 100 }), IterateAction::UpdateNodes { pos: 5, num_matches: 1, matches_start: 1 });
    assert_eq!(step(&mut s, IterateEvent::Updated { result: 0 }), IterateAction::UpdateNodes { pos: 6, num_matches: 0, matches_start: 2 });
}

#[test]
fn short_block_has_nothing_to_iterate() {
    let num_matches = [0u32; 3];
    let mut s = IterateState { i: 0, cur_match_pos: 0, skip: 0 };
    assert_eq!(ZopfliIterateStep(3, &num_matches, &[], 325, &mut s, IterateEvent::Start), IterateAction::TraceBack);
}

#[test]
fn path_search_finds_updates_and_skips() {
    let p = NewPathSearch(200, 100, 50, 325, 4);
    assert_eq!(p.store_end, 173);
    let mut matches = vec![0u64; 8];
    let mut s = PathState { i: 0, num_matches: 0, skip: 0 };
    let a = BrotliZopfliComputeShortestPathStep(&p, &mut matches, &mut s, PathEvent::Start);
    assert_eq!(a, PathAction::FindMatches { pos: 100, max_length: 200, max_distance: 50 });
    matches[0] = m(3, 3);
    matches[1] = m(9, 5);
    let a = BrotliZopfliComputeShortestPathStep(&p, &mut matches, &mut s, PathEvent::MatchesFound { count: 2 });
    assert_eq!(a, PathAction::UpdateNodes { pos: 0, num_matches: 2 });
    assert_eq!(matches[0], m(3, 3));
    let a = BrotliZopfliComputeShortestPathStep(&p, &mut matches, &mut s, PathEvent::Updated { result: 5 });
    assert_eq!(a, PathAction::FindMatches { pos: 101, max_length: 199, max_distance: 50 });
    matches[0] = m(3, 4);
    matches[1] = m(1, 150);
    let a = BrotliZopfliComputeShortestPathStep(&p, &mut matches, &mut s, PathEvent::MatchesFound { count: 2 });
    // with max_zopfli_len 325 both are kept
    assert_eq!(a, PathAction::UpdateNodes { pos: 1, num_matches: 2 });
    let a = BrotliZopfliComputeShortestPathStep(&p, &mut matches, &mut s, PathEvent::Updated { result: 20000 });
    assert_eq!(a, PathAction::StoreRange { from: 102, to: 173 });
    assert_eq!(s.skip, 20000);
    let a = BrotliZopfliComputeShortestPathStep(&p, &mut matches, &mut s, PathEvent::Stored);
    assert_eq!(a, PathAction::EvaluateNode { pos: 2 });
    let mut last = a;
    let mut count = 0;
    while let PathAction::EvaluateNode { .. } = last {
        last = BrotliZopfliComputeShortestPathStep(&p, &mut matches, &mut s, PathEvent::Evaluated);
        count += 1;
    }
    // positions 2..=196 are evaluated; 197 + 3 reaches the end
    assert_eq!(count, 195);
    assert_eq!(last, PathAction::Finish);
}

#[test]
fn path_search_keeps_only_a_long_last_match() {
    let p = NewPathSearch(20, 0, 1000, 10, 4);
    assert_eq!(p.store_end, 0);
    let mut matches = vec![m(2, 4), m(1, 12), 0];
    let mut s = PathState { i: 3, num_matches: 0, skip: 0 };
    let a = BrotliZopfliComputeShortestPathStep(&p, &mut matches, &mut s, PathEvent::MatchesFound { count: 2 });
    assert_eq!(a, PathAction::UpdateNodes { pos: 3, num_matches: 1 });
    assert_eq!(matches[0], m(1, 12));
    // the single long match makes the search skip its length
    let a = BrotliZopfliComputeShortestPathStep(&p, &mut matches, &mut s, PathEvent::Updated { result: 0 });
    assert_eq!(a, PathAction::StoreRange { from: 4, to: 0 });
    assert_eq!(s.skip, 12);
}

#[test]
fn path_search_on_a_tiny_block_finishes_at_once() {
    let p = NewPathSearch(3, 0, 1000, 325, 4);
    let mut matches = vec![0u64; 1];
    let mut s = PathState { i: 0, num_matches: 0, skip: 0 };
    assert_eq!(BrotliZopfliComputeShortestPathStep(&p, &mut matches, &mut s, PathEvent::Start), PathAction::Finish);
}

#[test]
fn gathering_grows_finds_and_skips() {
    let p = NewPathSearch(1000, 0, 1000, 325, 4);
    let mut num_matches = vec![7u32; 1000];
    let mut matches: Vec<u64> = Vec::new();
    let mut s = GatherState { i: 0, cur_match_pos: 0, matches_size: 0, skip: 0 };
    let a = BrotliCreateHqZopfliBackwardReferencesStep(&p, &mut num_matches, &mut matches, &mut s, GatherEvent::Start);
    assert_eq!(a, GatherAction::Grow { new_size: 128 });
    matches.resize(128, 0);
    let a = BrotliCreateHqZopfliBackwardReferencesStep(&p, &mut num_matches, &mut matches, &mut s, GatherEvent::Grown);
    assert_eq!(a, GatherAction::FindMatches { pos: 0, max_length: 1000, max_distance: 0, offset: 0 });
    let a = BrotliCreateHqZopfliBackwardReferencesStep(&p, &mut num_matches, &mut matches, &mut s, GatherEvent::Found { count: 0 });
    assert_eq!(num_matches[0], 0);
    assert_eq!(a, GatherAction::FindMatches { pos: 1, max_length: 999, max_distance: 1, offset: 0 });
    matches[0] = m(1, 2);
    matches[1] = m(1, 3);
    matches[2] = m(1, 4);
    let a = BrotliCreateHqZopfliBackwardReferencesStep(&p, &mut num_matches, &mut matches, &mut s, GatherEvent::Found { count: 3 });
    assert_eq!(num_matches[1], 3);
    assert_eq!(a, GatherAction::Grow { new_size: 256 });
    matches.resize(256, 0);
    let a = BrotliCreateHqZopfliBackwardReferencesStep(&p, &mut num_matches, &mut matches, &mut s, GatherEvent::Grown);
    assert_eq!(a, GatherAction::FindMatches { pos: 2, max_length: 998, max_distance: 2, offset: 3 });
    matches[3] = m(2, 2);
    matches[4] = m(2, 400);
    let a = BrotliCreateHqZopfliBackwardReferencesStep(&p, &mut num_matches, &mut matches, &mut s, GatherEvent::Found { count: 2 });
    assert_eq!(a, GatherAction::StoreRange { from: 3, to: 402 });
    assert_eq!(num_matches[2], 1);
    assert_eq!(matches[3], m(2, 400));
    assert_eq!(s.cur_match_pos, 4);
    assert_eq!(s.skip, 399);
    let a = BrotliCreateHqZopfliBackwardReferencesStep(&p, &mut num_matches, &mut matches, &mut s, GatherEvent::Stored);
    assert!(num_matches[3..=401].iter().all(|&c| c == 0));
    assert_eq!(num_matches[402], 7);
    assert_eq!(a, GatherAction::FindMatches { pos: 402, max_length: 598, max_distance: 402, offset: 4 });
}

#[test]
fn gathering_ends_with_the_total() {
    let p = NewPathSearch(4, 10, 1000, 325, 4);
    let mut num_matches = vec![0u32; 4];
    let mut matches = vec![0u64; 200];
    let mut s = GatherState { i: 0, cur_match_pos: 0, matches_size: 200, skip: 0 };
    let a = BrotliCreateHqZopfliBackwardReferencesStep(&p, &mut num_matches, &mut matches, &mut s, GatherEvent::Start);
    assert_eq!(a, GatherAction::FindMatches { pos: 10, max_length: 4, max_distance: 10, offset: 0 });
    matches[0] = m(5, 3);
    let a = BrotliCreateHqZopfliBackwardReferencesStep(&p, &mut num_matches, &mut matches, &mut s, GatherEvent::Found { count: 1 });
    assert_eq!(num_matches[0], 1);
    assert_eq!(a, GatherAction::Done { total: 1 });
}

#[test]
fn two_passes_restore_the_outputs_before_each_pass() {
    let mut s = TwoPassState { pass: 7, num_commands: 0, num_literals: 0, last_insert_len: 0, dist_cache: [0; 4] };
    let mut num_commands = 10usize;
    let mut num_literals = 100usize;
    let mut last_insert_len = 3usize;
    let mut dist_cache = [4i32, 11, 15, 16, 99];
    let a = HqZopfliTwoPassStep(&mut s, TwoPassEvent::Start, &mut num_commands, &mut num_literals, &mut last_insert_len, &mut dist_cache);
    assert_eq!(a, TwoPassAction::SetModelFromLiteralCosts);
    assert_eq!(s.pass, 0);
    let a = HqZopfliTwoPassStep(&mut s, TwoPassEvent::ModelSet, &mut num_commands, &mut num_literals, &mut last_insert_len, &mut dist_cache);
    assert_eq!(a, TwoPassAction::Iterate);
    // the first pass makes 5 commands and changes every output
    num_commands += 5;
    num_literals += 40;
    last_insert_len = 0;
    dist_cache[..4].copy_from_slice(&[1, 2, 3, 4]);
    let a = HqZopfliTwoPassStep(&mut s, TwoPassEvent::PassDone, &mut num_commands, &mut num_literals, &mut last_insert_len, &mut dist_cache);
    assert_eq!(a, TwoPassAction::SetModelFromCommands { num_commands: 5, last_insert_len: 3 });
    let a = HqZopfliTwoPassStep(&mut s, TwoPassEvent::ModelSet, &mut num_commands, &mut num_literals, &mut last_insert_len, &mut dist_cache);
    assert_eq!(a, TwoPassAction::Iterate);
    assert_eq!((num_commands, num_literals, last_insert_len), (10, 100, 3));
    assert_eq!(dist_cache, [4, 11, 15, 16, 99]);
    let a = HqZopfliTwoPassStep(&mut s, TwoPassEvent::PassDone, &mut num_commands, &mut num_literals, &mut last_insert_len, &mut dist_cache);
    assert_eq!(a, TwoPassAction::Done);
}
