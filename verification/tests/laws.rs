use lib::backward_match::{BackwardMatch, BackwardMatchLength};
use lib::command::{BrotliDistanceParams, BrotliEncoderParams, Command};
use lib::node::{BrotliInitZopfliNodes, BrotliZopfliCreateCommands, ComputeShortestPathFromNodes, UpdateZopfliNode, Union1, ZopfliNode};
use lib::matcher::{FindAllMatchesH10, MatchSearchEvent, MatchSearchRequest, K_INVALID_MATCH};
use lib::queue::PosData;
use lib::update::ZopfliNodeCandidates;
use lib::zopfli::{
    BrotliCreateHqZopfliBackwardReferencesStep, GatherAction, GatherEvent, GatherState, IterateAction, IterateEvent,
    IterateState, NewPathSearch, ZopfliIterateStep,
};

fn params(max_distance: usize) -> BrotliEncoderParams {
    BrotliEncoderParams {
        quality: 11,
        lgwin: 22,
        dist: BrotliDistanceParams {
            distance_postfix_bits: 0,
            num_direct_distance_codes: 0,
            alphabet_size: 64,
            max_distance,
        },
    }
}

fn copies_equal(rb: &[u8], mask: usize, cur_ix: usize, dist: usize, len: usize) -> bool {
    let prev = cur_ix.wrapping_sub(dist) & mask;
    let cm = cur_ix & mask;
    rb[prev..prev + len] == rb[cm..cm + len]
}

fn ring() -> Vec<u8> {
    let mut rb = vec![b'.'; 256];
    rb[..24].copy_from_slice(b"abcaabcabcdabcabcdeabcab");
    rb
}

#[test]
fn short_range_matches_are_true_and_grow() {
    let rb = ring();
    for cur_ix in 2..24usize {
        let mut matches = [0u64; 8];
        let r = FindAllMatchesH10(MatchSearchEvent::Start, &rb, 127, cur_ix, 16, 1000, 0, &params(1 << 20), &mut matches);
        let count = match r {
            MatchSearchRequest::TreeSearch { offset, .. } => offset,
            MatchSearchRequest::DictionarySearch { offset, .. } => offset,
            MatchSearchRequest::Done { count } => count,
        };
        let mut last = 1;
        for m in &matches[..count] {
            let bm = BackwardMatch(*m);
            let len = BackwardMatchLength(&bm);
            assert!(len > last);
            last = len;
            assert!(copies_equal(&rb, 127, cur_ix, bm.distance() as usize, len), "{} {:?}", cur_ix, bm);
        }
    }
}

#[test]
fn dictionary_matches_lie_beyond_the_window_in_growing_length() {
    let rb = ring();
    let mut words = vec![K_INVALID_MATCH; 38];
    for l in 4..38usize {
        words[l] = ((l as u32 * 7) << 5) | (l as u32 % 3);
    }
    let mut matches = [0u64; 40];
    let r = FindAllMatchesH10(
        MatchSearchEvent::DictionarySearched { found: true, words, min_len: 6, offset: 0 },
        &rb, 127, 30, 20, 500, 16, &params(1 << 20), &mut matches,
    );
    assert_eq!(r, MatchSearchRequest::Done { count: 15 });
    let mut last = 0;
    for m in &matches[..15] {
        let bm = BackwardMatch(*m);
        assert!(bm.distance() as usize > 500 + 16);
        let len = BackwardMatchLength(&bm);
        assert!(len > last && (6..=20).contains(&len));
        last = len;
    }
}

#[test]
fn candidates_copy_equal_bytes_and_lengths_grow() {
    let rb = ring();
    let pos = 14usize;
    let posdata = PosData { pos: 11, distance_cache: [3, 8, 11, 4], costdiff: 0, cost: 0 };
    // true matches at position 14: "abc" 3 back, "abcd" 7 back
    let m1: u64 = 3 | ((3u64 << 5) << 32);
    let m2: u64 = 7 | ((4u64 << 5) << 32);
    let m3: u64 = 9000 | (((9u64 << 5) | 7) << 32);
    let c = ZopfliNodeCandidates(24, 0, pos, &rb, 127, &params(1 << 20), 1000, &posdata, 0, 2, 3, &[m1, m2, m3]);
    assert!(!c.is_empty());
    let mut last_match_len = 0;
    for cand in c.iter() {
        if cand.dist <= pos {
            assert!(copies_equal(&rb, 127, pos, cand.dist, cand.len), "{:?}", cand);
        } else {
            assert!(!cand.from_cache);
        }
        if !cand.from_cache {
            assert!(cand.len > last_match_len);
            last_match_len = cand.len;
        }
    }
    // the dictionary word is tried once, at its full length, with its own length code
    assert!(c.iter().any(|x| x.dist == 9000 && x.len == 9 && x.len_code == 7));
}

#[test]
fn iteration_positions_only_grow() {
    let num_matches = vec![1u32; 40];
    let matches: Vec<u64> = (0..40u64).map(|i| 1 | (((2 + i % 5) << 5) << 32)).collect();
    let mut s = IterateState { i: 0, cur_match_pos: 0, skip: 0 };
    let mut a = ZopfliIterateStep(40, &num_matches, &matches, 3, &mut s, IterateEvent::Start);
    let mut last: Option<usize> = None;
    let mut steps = 0;
    loop {
        let (pos, e) = match a {
            IterateAction::UpdateNodes { pos, .. } => (pos, IterateEvent::Updated { result: 0 }),
            IterateAction::EvaluateNode { pos } => (pos, IterateEvent::Evaluated),
            IterateAction::TraceBack => break,
        };
        assert!(pos + 3 < 40);
        assert!(last.map_or(true, |l| pos > l));
        last = Some(pos);
        steps += 1;
        a = ZopfliIterateStep(40, &num_matches, &matches, 3, &mut s, e);
    }
    assert_eq!(steps, 37);
}

#[test]
fn iteration_reads_matches_where_gathering_stored_them() {
    let num_bytes = 30usize;
    let p = NewPathSearch(num_bytes, 0, 1000, 325, 4);
    let mut num_matches = vec![0u32; num_bytes];
    let mut matches: Vec<u64> = vec![0; 4];
    let mut s = GatherState { i: 0, cur_match_pos: 0, matches_size: 4, skip: 0 };
    let mut a = BrotliCreateHqZopfliBackwardReferencesStep(&p, &mut num_matches, &mut matches, &mut s, GatherEvent::Start);
    let mut offsets = vec![usize::MAX; num_bytes];
    let total = loop {
        let e = match a {
            GatherAction::Grow { new_size } => {
                matches.resize(new_size, 0);
                GatherEvent::Grown
            }
            GatherAction::FindMatches { pos, offset, .. } => {
                let prefix: usize = num_matches[..pos].iter().map(|&c| c as usize).sum();
                assert_eq!(offset, prefix);
                offsets[pos] = offset;
                let count = pos % 3;
                for t in 0..count {
                    // tag each match with its position so the reader can tell them apart
                    matches[offset + t] = (pos as u64) | (((2 + t as u64) << 5) << 32);
                }
                GatherEvent::Found { count }
            }
            GatherAction::StoreRange { .. } => GatherEvent::Stored,
            GatherAction::Done { total } => break total,
        };
        a = BrotliCreateHqZopfliBackwardReferencesStep(&p, &mut num_matches, &mut matches, &mut s, e);
    };
    assert_eq!(total, num_matches.iter().map(|&c| c as usize).sum::<usize>());
    let mut st = IterateState { i: 0, cur_match_pos: 0, skip: 0 };
    let mut act = ZopfliIterateStep(num_bytes, &num_matches, &matches, 325, &mut st, IterateEvent::Start);
    loop {
        let e = match act {
            IterateAction::UpdateNodes { pos, num_matches: n, matches_start } => {
                assert_eq!(matches_start, offsets[pos]);
                for m in &matches[matches_start..matches_start + n] {
                    assert_eq!(BackwardMatch(*m).distance() as usize, pos);
                }
                IterateEvent::Updated { result: 0 }
            }
            IterateAction::EvaluateNode { .. } => IterateEvent::Evaluated,
            IterateAction::TraceBack => break,
        };
        act = ZopfliIterateStep(num_bytes, &num_matches, &matches, 325, &mut st, e);
    }
}

#[test]
fn max_backward_limit_is_the_window_less_sixteen() {
    let mut p = params(1 << 20);
    for (lgwin, expected) in [(10, 1008usize), (16, 65520), (22, 4194288), (24, 16777200)].iter() {
        p.lgwin = *lgwin;
        assert_eq!(lib::zopfli::MaxBackwardLimit(&p), *expected);
    }
    p.lgwin = 0;
    assert_eq!(lib::zopfli::MaxBackwardLimit(&p), 1usize.wrapping_sub(16));
}

#[test]
fn recording_candidates_keeps_nodes_ready_for_the_trace_back() {
    let rb = ring();
    let num_bytes = 24usize;
    let blank = ZopfliNode { length: 1, distance: 0, dcode_insert_length: 0, u: Union1::cost(0) };
    let mut nodes = vec![blank; num_bytes + 1];
    BrotliInitZopfliNodes(&mut nodes, num_bytes + 1);
    nodes[0].length = 0;
    nodes[0].u = Union1::cost(0);
    // from every reached position, record every last-distance candidate
    for pos in 0..num_bytes - 3 {
        if pos > 0 && nodes[pos].length == 1 && nodes[pos].dcode_insert_length == 0 {
            continue;
        }
        let posdata = PosData { pos, distance_cache: [1, 2, 3, 4], costdiff: 0, cost: 0 };
        let c = ZopfliNodeCandidates(num_bytes, 0, pos, &rb, 127, &params(1 << 20), 1000, &posdata, 2, 2, 0, &[]);
        for cand in c.iter() {
            if pos + cand.len <= num_bytes {
                UpdateZopfliNode(&mut nodes, pos, pos, cand.len, cand.len_code, cand.dist, cand.short_code, 0);
            }
        }
    }
    let r = ComputeShortestPathFromNodes(num_bytes, &mut nodes);
    let mut commands = vec![Command { insert_len_: 0, copy_len_: 0, dist_extra_: 0, cmd_prefix_: 0, dist_prefix_: 0 }; r];
    let mut dist_cache = [1i32, 2, 3, 4];
    let mut last_insert_len = 0usize;
    let mut num_literals = 0usize;
    BrotliZopfliCreateCommands(
        num_bytes, 0, 1000, &nodes, &mut dist_cache, &mut last_insert_len, &params(1 << 20), &mut commands,
        &mut num_literals,
    );
    let span: usize = commands.iter().map(|c| (c.insert_len_ + (c.copy_len_ & 0x1ffffff)) as usize).sum();
    assert_eq!(span + last_insert_len, num_bytes);
}
