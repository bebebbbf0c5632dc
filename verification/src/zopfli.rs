use vstd::prelude::*;
use crate::backward_match::{BackwardMatch, BackwardMatchLength, match_length};
use crate::util::{brotli_max_size_t, brotli_min_size_t};
use crate::command::BrotliEncoderParams;
use vstd::arithmetic::power2::{pow2, lemma_pow2_strictly_increases, lemma2_to64};
use vstd::bits::lemma_u64_shl_is_mul;

verus! {

/// Smallest result of a node update for which the search skips ahead.
pub const K_SKIP_THRESHOLD: usize = 16384;

/// How many positions the search passes over after the node update at a
/// position returned `update_result` (the longest copy it recorded): none
/// below `K_SKIP_THRESHOLD`, else that length; a single match longer than
/// `max_zopfli_len` (of length `single_match_len`) extends it to its length.
pub open spec fn skip_after_update(update_result: usize, single_long_match: bool, single_match_len: usize) -> usize {
    let skip = if update_result < K_SKIP_THRESHOLD { 0 } else { update_result };
    if single_long_match {
        if single_match_len > skip { single_match_len } else { skip }
    } else {
        skip
    }
}

/// The largest backward distance of the search for window size `lgwin`:
/// the window, `2^lgwin`, less the 16 bytes kept free at its end (64-bit
/// wrapping for windows under 16 bytes).
pub open spec fn max_backward_limit(lgwin: i32) -> usize {
    ((pow2(lgwin as nat) as int - 16) % 0x10000000000000000) as usize
}

/// The largest backward distance of the search (see `max_backward_limit`).
pub fn MaxBackwardLimit(params: &BrotliEncoderParams) -> (r: usize)
    requires
        0 <= params.lgwin < 32,
    ensures
        r == max_backward_limit(params.lgwin),
        params.lgwin >= 4 ==> r == pow2(params.lgwin as nat) - 16,
{
    let shift: u64 = params.lgwin as u64;
    proof {
        lemma2_to64();
        if shift < 32 {
            lemma_pow2_strictly_increases(shift as nat, 32);
        }
        assert(pow2(shift as nat) <= 0x100000000);
        lemma_u64_shl_is_mul(1u64, shift);
    }
    let window: u64 = 1u64 << shift;
    let r: u64 = window.wrapping_sub(16u64);
    proof {
        if shift > 4 {
            lemma_pow2_strictly_increases(4, shift as nat);
        }
        assert(pow2(4) == 16);
        assert(r as int == (pow2(shift as nat) as int - 16) % 0x10000000000000000);
    }
    #[verifier::truncate]
    (r as usize)
}

/// The state of the iteration over the positions of a block when the matches
/// of every position are known in advance: the current position, where its
/// matches start in the match buffer, and how many positions are still to be
/// passed over.
#[derive(Clone, Copy, Debug)]
pub struct IterateState {
    pub i: usize,
    pub cur_match_pos: usize,
    pub skip: usize,
}

/// What the iteration asks its caller to do next.
#[derive(Clone, Copy, Debug, PartialEq, Eq)]
pub enum IterateAction {
    /// Update the nodes reachable from position `pos` with its `num_matches`
    /// matches, which start at `matches_start` in the match buffer.
    UpdateNodes { pos: usize, num_matches: usize, matches_start: usize },
    /// Only evaluate node `pos` (record it as a start position).
    EvaluateNode { pos: usize },
    /// The positions are done: trace the cheapest path back.
    TraceBack,
}

/// What the caller hands back to the iteration.
#[derive(Clone, Copy, Debug)]
pub enum IterateEvent {
    Start,
    Updated { result: usize },
    Evaluated,
}

/// The request at position `i`: a node update while 3 bytes follow it, else
/// the trace back.
pub open spec fn iterate_at(num_bytes: usize, num_matches: Seq<u32>, i: usize, cur_match_pos: usize) -> (IterateState, IterateAction) {
    let s = IterateState { i, cur_match_pos, skip: 0 };
    if i.wrapping_add(3) < num_bytes {
        (s, IterateAction::UpdateNodes { pos: i, num_matches: num_matches[i as int] as usize, matches_start: cur_match_pos })
    } else {
        (s, IterateAction::TraceBack)
    }
}

/// Passing over positions: with `skip` positions left after `i`, the next
/// one is evaluated unless it is within 3 bytes of the end; when none is
/// left (or the end is near), the update moves on to the position after.
pub open spec fn iterate_pass(num_bytes: usize, num_matches: Seq<u32>, i: usize, cur_match_pos: usize, skip: usize) -> (IterateState, IterateAction) {
    if skip != 0 {
        let i1 = i.wrapping_add(1);
        if i1.wrapping_add(3) >= num_bytes {
            iterate_at(num_bytes, num_matches, i1.wrapping_add(1), cur_match_pos)
        } else {
            (IterateState { i: i1, cur_match_pos, skip }, IterateAction::EvaluateNode { pos: i1 })
        }
    } else {
        iterate_at(num_bytes, num_matches, i.wrapping_add(1), cur_match_pos)
    }
}

/// The next state and request of the iteration after `event` in state `s`.
pub open spec fn iterate_next(
    num_bytes: usize,
    num_matches: Seq<u32>,
    matches: Seq<u64>,
    max_zopfli_len: usize,
    s: IterateState,
    event: IterateEvent,
) -> (IterateState, IterateAction) {
    match event {
        IterateEvent::Start => iterate_at(num_bytes, num_matches, 0, 0),
        IterateEvent::Updated { result } => {
            let nm = num_matches[s.i as int];
            let match_end = s.cur_match_pos.wrapping_add(nm as usize);
            let single = nm == 1 && match_length(matches[match_end.wrapping_sub(1) as int]) > max_zopfli_len;
            let skip = skip_after_update(result, single, match_length(matches[match_end.wrapping_sub(1) as int]));
            if skip > 1 {
                iterate_pass(num_bytes, num_matches, s.i, match_end, (skip - 1) as usize)
            } else {
                iterate_at(num_bytes, num_matches, s.i.wrapping_add(1), match_end)
            }
        },
        IterateEvent::Evaluated => {
            let match_end = s.cur_match_pos.wrapping_add(num_matches[s.i as int] as usize);
            iterate_pass(num_bytes, num_matches, s.i, match_end, s.skip.wrapping_sub(1))
        },
    }
}

/// The requests a step of the iteration may read: the match count of every
/// position it may reach, and the last match of a position with one match.
pub open spec fn iterate_step_ok(
    num_bytes: usize,
    num_matches: Seq<u32>,
    matches: Seq<u64>,
    s: IterateState,
    event: IterateEvent,
) -> bool {
    &&& num_bytes <= num_matches.len()
    &&& num_bytes + 8 <= usize::MAX
    &&& match event {
        IterateEvent::Start => true,
        IterateEvent::Updated { result } => {
            &&& s.i < num_bytes
            &&& num_matches[s.i as int] == 1 ==> s.cur_match_pos.wrapping_add(1).wrapping_sub(1) < matches.len()
        },
        IterateEvent::Evaluated => s.i < num_bytes,
    }
}

/// The decisions of the iteration over a block whose matches are known for
/// every position: after a node update at a position, a long enough result
/// (or a single long match) makes the following positions only be evaluated
/// rather than updated (see `iterate_next`). The caller performs each request
/// and reports back.
pub fn ZopfliIterateStep(
    num_bytes: usize,
    num_matches: &[u32],
    matches: &[u64],
    max_zopfli_len: usize,
    state: &mut IterateState,
    event: IterateEvent,
) -> (r: IterateAction)
    requires
        iterate_step_ok(num_bytes, num_matches@, matches@, *old(state), event),
    ensures
        (*final(state), r) == iterate_next(num_bytes, num_matches@, matches@, max_zopfli_len, *old(state), event),
{
    match event {
        IterateEvent::Start => {
            IterateAt(num_bytes, num_matches, 0, 0, state)
        },
        IterateEvent::Updated { result } => {
            let nm: u32 = num_matches[state.i];
            let match_end: usize = state.cur_match_pos.wrapping_add(nm as usize);
            let mut skip: usize = if result < K_SKIP_THRESHOLD { 0 } else { result };
            if nm == 1u32 {
                let len: usize = BackwardMatchLength(&BackwardMatch(matches[match_end.wrapping_sub(1)]));
                if len > max_zopfli_len {
                    skip = brotli_max_size_t(len, skip);
                }
            }
            let i: usize = state.i;
            if skip > 1 {
                IteratePass(num_bytes, num_matches, i, match_end, skip - 1, state)
            } else {
                IterateAt(num_bytes, num_matches, i.wrapping_add(1), match_end, state)
            }
        },
        IterateEvent::Evaluated => {
            let match_end: usize = state.cur_match_pos.wrapping_add(num_matches[state.i] as usize);
            let i: usize = state.i;
            let skip: usize = state.skip.wrapping_sub(1);
            IteratePass(num_bytes, num_matches, i, match_end, skip, state)
        },
    }
}

/// The iteration visits the positions in order, one after another: after a
/// node update or an evaluation, a request to update or evaluate names the
/// next position, which lies at least 4 bytes before the end of the block,
/// and the trace back comes only once no such position is left.
pub proof fn lemma_iterate_moves_forward(
    num_bytes: usize,
    num_matches: Seq<u32>,
    matches: Seq<u64>,
    max_zopfli_len: usize,
    s: IterateState,
    event: IterateEvent,
)
    requires
        iterate_step_ok(num_bytes, num_matches, matches, s, event),
        !(event is Start),
    ensures
        ({
            let (s2, a) = iterate_next(num_bytes, num_matches, matches, max_zopfli_len, s, event);
            &&& s2.i > s.i
            &&& a is UpdateNodes ==> a->UpdateNodes_pos == s2.i && s2.i == s.i + 1 && s2.i + 3 < num_bytes
            &&& a is EvaluateNode ==> a->EvaluateNode_pos == s2.i && s2.i == s.i + 1 && s2.i + 3 < num_bytes
            &&& a is TraceBack ==> s2.i + 3 >= num_bytes
        }),
{
}

/// The search over a block visits the positions in order, one after
/// another: after a node update, a store or an evaluation it either stays at
/// its position (to store the positions a long copy covers) or asks to find
/// matches at, or evaluate, the next position, one at which the hasher can
/// still hash; it finishes only once no such position is left.
pub proof fn lemma_path_search_moves_forward(p: PathSearch, matches: Seq<u64>, s: PathState, event: PathEvent)
    requires
        path_step_ok(matches, s, event),
        !(event is Start),
        !(event is MatchesFound),
        p.hash_type_length >= 1,
        s.i < p.num_bytes,
        p.num_bytes + p.hash_type_length + 2 <= usize::MAX,
    ensures
        ({
            let (s2, a, m2) = path_next(p, matches, s, event);
            &&& m2 == matches
            &&& s2.i >= s.i
            &&& a is FindMatches ==> s2.i == s.i + 1 && a->FindMatches_pos == p.position.wrapping_add(s2.i)
                && s2.i + p.hash_type_length - 1 < p.num_bytes
            &&& a is EvaluateNode ==> s2.i == s.i + 1 && a->EvaluateNode_pos == s2.i
                && s2.i + p.hash_type_length - 1 < p.num_bytes
            &&& a is StoreRange ==> s2.i == s.i
            &&& a is Finish ==> s2.i + p.hash_type_length - 1 >= p.num_bytes
            &&& !(a is UpdateNodes)
        }),
{
}

/// Number of matches stored for the positions before `i`.
pub open spec fn match_count_before(num_matches: Seq<u32>, i: int) -> int
    decreases i,
{
    if i <= 0 {
        0
    } else {
        match_count_before(num_matches, i - 1) + num_matches[i - 1]
    }
}

proof fn lemma_match_count_monotone(num_matches: Seq<u32>, i: int, j: int)
    requires
        i <= j,
    ensures
        match_count_before(num_matches, i) <= match_count_before(num_matches, j),
    decreases j - i,
{
    if i < j {
        lemma_match_count_monotone(num_matches, i, j - 1);
    }
}

/// The iteration reads the matches of each position where they are stored
/// one position after another: at every position it updates or evaluates,
/// its place in the match buffer is the number of matches of the positions
/// before it, and a node update gets the matches from there.
pub proof fn lemma_iterate_reads_matches_in_place(
    num_bytes: usize,
    num_matches: Seq<u32>,
    matches: Seq<u64>,
    max_zopfli_len: usize,
    s: IterateState,
    event: IterateEvent,
)
    requires
        iterate_step_ok(num_bytes, num_matches, matches, s, event),
        !(event is Start) ==> s.cur_match_pos == match_count_before(num_matches, s.i as int),
        match_count_before(num_matches, num_bytes as int) <= usize::MAX,
    ensures
        ({
            let (s2, a) = iterate_next(num_bytes, num_matches, matches, max_zopfli_len, s, event);
            &&& a is UpdateNodes ==> a->UpdateNodes_matches_start == s2.cur_match_pos
                && a->UpdateNodes_num_matches == num_matches[s2.i as int]
            &&& (a is UpdateNodes || a is EvaluateNode) ==> s2.cur_match_pos == match_count_before(num_matches, s2.i as int)
        }),
{
    if !(event is Start) {
        lemma_match_count_monotone(num_matches, s.i + 1, num_bytes as int);
        assert(match_count_before(num_matches, s.i + 1) == s.cur_match_pos + num_matches[s.i as int]);
    }
}

fn IterateAt(num_bytes: usize, num_matches: &[u32], i: usize, cur_match_pos: usize, state: &mut IterateState) -> (r: IterateAction)
    requires
        num_bytes <= num_matches@.len(),
        num_bytes + 8 <= usize::MAX,
        i <= num_bytes + 2,
    ensures
        (*final(state), r) == iterate_at(num_bytes, num_matches@, i, cur_match_pos),
{
    *state = IterateState { i, cur_match_pos, skip: 0 };
    if i.wrapping_add(3) < num_bytes {
        IterateAction::UpdateNodes { pos: i, num_matches: num_matches[i] as usize, matches_start: cur_match_pos }
    } else {
        IterateAction::TraceBack
    }
}

fn IteratePass(
    num_bytes: usize,
    num_matches: &[u32],
    i: usize,
    cur_match_pos: usize,
    skip: usize,
    state: &mut IterateState,
) -> (r: IterateAction)
    requires
        num_bytes <= num_matches@.len(),
        num_bytes + 8 <= usize::MAX,
        i <= num_bytes,
    ensures
        (*final(state), r) == iterate_pass(num_bytes, num_matches@, i, cur_match_pos, skip),
{
    if skip != 0 {
        let i1: usize = i.wrapping_add(1);
        if i1.wrapping_add(3) >= num_bytes {
            IterateAt(num_bytes, num_matches, i1.wrapping_add(1), cur_match_pos, state)
        } else {
            *state = IterateState { i: i1, cur_match_pos, skip };
            IterateAction::EvaluateNode { pos: i1 }
        }
    } else {
        IterateAt(num_bytes, num_matches, i.wrapping_add(1), cur_match_pos, state)
    }
}

/// The fixed inputs of the search over one block with a binary-tree hasher:
/// block size and start, the largest backward distance, the longest match
/// followed byte by byte, the hasher's hash length, and the position up to
/// which the hasher stores.
#[derive(Clone, Copy, Debug)]
pub struct PathSearch {
    pub num_bytes: usize,
    pub position: usize,
    pub max_backward_limit: usize,
    pub max_zopfli_len: usize,
    pub hash_type_length: usize,
    pub store_end: usize,
}

/// The position up to which the hasher stores for a block of `num_bytes`
/// bytes at `position`: 127 bytes before the block's end, or the block's
/// start for blocks under 128 bytes.
pub open spec fn store_end_of(num_bytes: usize, position: usize) -> usize {
    if num_bytes >= 128 {
        position.wrapping_add(num_bytes).wrapping_sub(128).wrapping_add(1)
    } else {
        position
    }
}

/// The fixed inputs of the search over a block (see `PathSearch`).
pub fn NewPathSearch(
    num_bytes: usize,
    position: usize,
    max_backward_limit: usize,
    max_zopfli_len: usize,
    hash_type_length: usize,
) -> (r: PathSearch)
    ensures
        r == (PathSearch {
            num_bytes,
            position,
            max_backward_limit,
            max_zopfli_len,
            hash_type_length,
            store_end: store_end_of(num_bytes, position),
        }),
{
    let store_end: usize = if num_bytes >= 128usize {
        position.wrapping_add(num_bytes).wrapping_sub(128usize).wrapping_add(1usize)
    } else {
        position
    };
    PathSearch { num_bytes, position, max_backward_limit, max_zopfli_len, hash_type_length, store_end }
}

/// The state of the search over a block: the current position (relative to
/// the block), the number of matches found there, and the positions still to
/// be passed over.
#[derive(Clone, Copy, Debug)]
pub struct PathState {
    pub i: usize,
    pub num_matches: usize,
    pub skip: usize,
}

/// What the search asks its caller to do next.
#[derive(Clone, Copy, Debug, PartialEq, Eq)]
pub enum PathAction {
    /// Find all matches at absolute position `pos`, at most `max_length` long
    /// and at most `max_distance` back, into the match buffer.
    FindMatches { pos: usize, max_length: usize, max_distance: usize },
    /// Update the nodes reachable from position `pos` (relative to the block)
    /// with the first `num_matches` matches of the buffer.
    UpdateNodes { pos: usize, num_matches: usize },
    /// Store the positions from `from` up to (not including) `to` in the hasher.
    StoreRange { from: usize, to: usize },
    /// Only evaluate node `pos`.
    EvaluateNode { pos: usize },
    /// The block is done: trace the cheapest path back.
    Finish,
}

/// What the caller hands back to the search.
#[derive(Clone, Copy, Debug)]
pub enum PathEvent {
    Start,
    MatchesFound { count: usize },
    Updated { result: usize },
    Stored,
    Evaluated,
}

/// The request at relative position `i`: find matches while the hasher can
/// hash there, else finish.
pub open spec fn path_at(p: PathSearch, i: usize) -> (PathState, PathAction) {
    let s = PathState { i, num_matches: 0, skip: 0 };
    if i.wrapping_add(p.hash_type_length).wrapping_sub(1) < p.num_bytes {
        let pos = p.position.wrapping_add(i);
        (s, PathAction::FindMatches {
            pos,
            max_length: p.num_bytes.wrapping_sub(i),
            max_distance: if pos < p.max_backward_limit { pos } else { p.max_backward_limit },
        })
    } else {
        (s, PathAction::Finish)
    }
}

/// Passing over positions after `i` with `skip` left (see `iterate_pass`).
pub open spec fn path_pass(p: PathSearch, i: usize, skip: usize) -> (PathState, PathAction) {
    if skip != 0 {
        let i1 = i.wrapping_add(1);
        if i1.wrapping_add(p.hash_type_length).wrapping_sub(1) >= p.num_bytes {
            path_at(p, i1.wrapping_add(1))
        } else {
            (PathState { i: i1, num_matches: 0, skip }, PathAction::EvaluateNode { pos: i1 })
        }
    } else {
        path_at(p, i.wrapping_add(1))
    }
}

/// The matches after they were found: when the last (longest) one is longer
/// than `max_zopfli_len`, it alone is kept, moved to the front.
pub open spec fn kept_matches(matches: Seq<u64>, count: usize, max_zopfli_len: usize) -> (Seq<u64>, usize) {
    if count > 0 && match_length(matches[count - 1]) > max_zopfli_len {
        (matches.update(0, matches[count - 1]), 1)
    } else {
        (matches, count)
    }
}

/// The next state and request of the search after `event` in state `s`, with
/// the match buffer before (`matches`) and after (`final_matches`) the step.
pub open spec fn path_next(p: PathSearch, matches: Seq<u64>, s: PathState, event: PathEvent) -> (PathState, PathAction, Seq<u64>) {
    match event {
        PathEvent::Start => {
            let (s1, a) = path_at(p, 0);
            (s1, a, matches)
        },
        PathEvent::MatchesFound { count } => {
            let (m, n) = kept_matches(matches, count, p.max_zopfli_len);
            (PathState { i: s.i, num_matches: n, skip: 0 }, PathAction::UpdateNodes { pos: s.i, num_matches: n }, m)
        },
        PathEvent::Updated { result } => {
            let single = s.num_matches == 1 && match_length(matches[0]) > p.max_zopfli_len;
            let skip = skip_after_update(result, single, match_length(matches[0]));
            if skip > 1 {
                let pos = p.position.wrapping_add(s.i);
                let to = if pos.wrapping_add(skip) < p.store_end { pos.wrapping_add(skip) } else { p.store_end };
                (PathState { i: s.i, num_matches: s.num_matches, skip }, PathAction::StoreRange { from: pos.wrapping_add(1), to }, matches)
            } else {
                let (s1, a) = path_at(p, s.i.wrapping_add(1));
                (s1, a, matches)
            }
        },
        PathEvent::Stored => {
            let (s1, a) = path_pass(p, s.i, s.skip.wrapping_sub(1));
            (s1, a, matches)
        },
        PathEvent::Evaluated => {
            let (s1, a) = path_pass(p, s.i, s.skip.wrapping_sub(1));
            (s1, a, matches)
        },
    }
}

/// The match buffer holds what a step reads: the found matches, and the
/// first match when the position has one.
pub open spec fn path_step_ok(matches: Seq<u64>, s: PathState, event: PathEvent) -> bool {
    match event {
        PathEvent::MatchesFound { count } => count <= matches.len(),
        PathEvent::Updated { result } => s.num_matches == 1 ==> matches.len() >= 1,
        _ => true,
    }
}

/// The decisions of the search for the cheapest path over a block with the
/// binary-tree hasher: for each position where the hasher can hash, find its
/// matches (keeping only the longest when it exceeds `max_zopfli_len`) and
/// update the reachable nodes; after a long result (or a single long match)
/// store the covered positions in the hasher and only evaluate them (see
/// `path_next`). The caller performs each request and reports back.
pub fn BrotliZopfliComputeShortestPathStep(
    p: &PathSearch,
    matches: &mut [u64],
    state: &mut PathState,
    event: PathEvent,
) -> (r: PathAction)
    requires
        path_step_ok(old(matches)@, *old(state), event),
    ensures
        (*final(state), r, final(matches)@) == path_next(*p, old(matches)@, *old(state), event),
{
    match event {
        PathEvent::Start => PathAt(p, 0, state),
        PathEvent::MatchesFound { count } => {
            let mut n: usize = count;
            if count > 0 && BackwardMatchLength(&BackwardMatch(matches[count - 1])) > p.max_zopfli_len {
                matches[0] = matches[count - 1];
                n = 1;
            }
            let i: usize = state.i;
            *state = PathState { i, num_matches: n, skip: 0 };
            PathAction::UpdateNodes { pos: i, num_matches: n }
        },
        PathEvent::Updated { result } => {
            let mut skip: usize = if result < K_SKIP_THRESHOLD { 0 } else { result };
            if state.num_matches == 1 {
                let len: usize = BackwardMatchLength(&BackwardMatch(matches[0]));
                if len > p.max_zopfli_len {
                    skip = brotli_max_size_t(len, skip);
                }
            }
            if skip > 1 {
                let pos: usize = p.position.wrapping_add(state.i);
                let to: usize = brotli_min_size_t(pos.wrapping_add(skip), p.store_end);
                state.skip = skip;
                PathAction::StoreRange { from: pos.wrapping_add(1), to }
            } else {
                let i: usize = state.i.wrapping_add(1);
                PathAt(p, i, state)
            }
        },
        PathEvent::Stored => {
            let i: usize = state.i;
            let skip: usize = state.skip.wrapping_sub(1);
            PathPass(p, i, skip, state)
        },
        PathEvent::Evaluated => {
            let i: usize = state.i;
            let skip: usize = state.skip.wrapping_sub(1);
            PathPass(p, i, skip, state)
        },
    }
}

fn PathAt(p: &PathSearch, i: usize, state: &mut PathState) -> (r: PathAction)
    ensures
        (*final(state), r) == path_at(*p, i),
{
    *state = PathState { i, num_matches: 0, skip: 0 };
    if i.wrapping_add(p.hash_type_length).wrapping_sub(1) < p.num_bytes {
        let pos: usize = p.position.wrapping_add(i);
        PathAction::FindMatches {
            pos,
            max_length: p.num_bytes.wrapping_sub(i),
            max_distance: brotli_min_size_t(pos, p.max_backward_limit),
        }
    } else {
        PathAction::Finish
    }
}

fn PathPass(p: &PathSearch, i: usize, skip: usize, state: &mut PathState) -> (r: PathAction)
    ensures
        (*final(state), r) == path_pass(*p, i, skip),
{
    if skip != 0 {
        let i1: usize = i.wrapping_add(1);
        if i1.wrapping_add(p.hash_type_length).wrapping_sub(1) >= p.num_bytes {
            PathAt(p, i1.wrapping_add(1), state)
        } else {
            *state = PathState { i: i1, num_matches: 0, skip };
            PathAction::EvaluateNode { pos: i1 }
        }
    } else {
        PathAt(p, i.wrapping_add(1), state)
    }
}

/// The size the match buffer grows to when it must hold `need` entries:
/// doubled from its current size (or `need` if it is empty) until it does.
pub open spec fn grown_size(size: int, need: int) -> int
    decreases if need > size { need - size } else { 0 },
{
    if size >= need || size <= 0 {
        size
    } else {
        grown_size(2 * size, need)
    }
}

/// The fixed inputs of the match gathering over one block: as for
/// `PathSearch`, with the block's position and size.
#[derive(Clone, Copy, Debug)]
pub struct GatherState {
    pub i: usize,
    pub cur_match_pos: usize,
    pub matches_size: usize,
    pub skip: usize,
}

/// What the match gathering asks its caller to do next.
#[derive(Clone, Copy, Debug, PartialEq, Eq)]
pub enum GatherAction {
    /// Grow the match buffer to `new_size` entries, keeping its contents.
    Grow { new_size: usize },
    /// Find all matches at absolute position `pos`, at most `max_length` long
    /// and at most `max_distance` back, into the match buffer from `offset` on.
    FindMatches { pos: usize, max_length: usize, max_distance: usize, offset: usize },
    /// Store the positions from `from` up to (not including) `to` in the hasher.
    StoreRange { from: usize, to: usize },
    /// All positions are done; the match buffer holds `total` matches.
    Done { total: usize },
}

/// What the caller hands back to the match gathering.
#[derive(Clone, Copy, Debug)]
pub enum GatherEvent {
    Start,
    Grown,
    Found { count: usize },
    Stored,
}

/// Longest match the gathering keeps with all its shorter companions.
pub const K_LONG_MATCH_LEN: usize = 325;

/// The request that finds the matches at relative position `i`.
pub open spec fn gather_find(p: PathSearch, s: GatherState) -> GatherAction {
    let pos = p.position.wrapping_add(s.i);
    GatherAction::FindMatches {
        pos,
        max_length: p.num_bytes.wrapping_sub(s.i),
        max_distance: if pos < p.max_backward_limit { pos } else { p.max_backward_limit },
        offset: s.cur_match_pos,
    }
}

/// The request at relative position `i`: while the hasher can hash there,
/// grow the buffer if fewer than 128 entries are free after the matches so
/// far, then find the matches; else done.
pub open spec fn gather_at(p: PathSearch, i: usize, cur_match_pos: usize, matches_size: usize) -> (GatherState, GatherAction) {
    let s = GatherState { i, cur_match_pos, matches_size, skip: 0 };
    if i.wrapping_add(p.hash_type_length).wrapping_sub(1) < p.num_bytes {
        let need = cur_match_pos.wrapping_add(128);
        if matches_size < need {
            let new_size = grown_size(if matches_size == 0 { need as int } else { matches_size as int }, need as int) as usize;
            (GatherState { matches_size: new_size, ..s }, GatherAction::Grow { new_size })
        } else {
            (s, gather_find(p, s))
        }
    } else {
        (s, GatherAction::Done { total: cur_match_pos })
    }
}

/// The next state and request of the gathering after `event` in state `s`,
/// with the per-position match counts and the match buffer after the step.
pub open spec fn gather_next(
    p: PathSearch,
    num_matches: Seq<u32>,
    matches: Seq<u64>,
    s: GatherState,
    event: GatherEvent,
) -> (GatherState, GatherAction, Seq<u32>, Seq<u64>) {
    match event {
        GatherEvent::Start => {
            let (s1, a) = gather_at(p, 0, 0, s.matches_size);
            (s1, a, num_matches, matches)
        },
        GatherEvent::Grown => (s, gather_find(p, s), num_matches, matches),
        GatherEvent::Found { count } => {
            let end = s.cur_match_pos.wrapping_add(count);
            if count > 0 && match_length(matches[end - 1]) > K_LONG_MATCH_LEN {
                let ml = match_length(matches[end - 1]);
                let pos = p.position.wrapping_add(s.i);
                let to = if pos.wrapping_add(ml) < p.store_end { pos.wrapping_add(ml) } else { p.store_end };
                (
                    GatherState { i: s.i, cur_match_pos: s.cur_match_pos.wrapping_add(1), matches_size: s.matches_size, skip: (ml - 1) as usize },
                    GatherAction::StoreRange { from: pos.wrapping_add(1), to },
                    num_matches.update(s.i as int, 1),
                    matches.update(s.cur_match_pos as int, matches[end - 1]),
                )
            } else {
                let (s1, a) = gather_at(p, s.i.wrapping_add(1), end, s.matches_size);
                (s1, a, num_matches.update(s.i as int, count as u32), matches)
            }
        },
        GatherEvent::Stored => {
            let cleared = Seq::new(num_matches.len(), |k: int|
                if s.i < k <= s.i + s.skip { 0u32 } else { num_matches[k] });
            let (s1, a) = gather_at(p, s.i.wrapping_add(s.skip).wrapping_add(1), s.cur_match_pos, s.matches_size);
            (s1, a, cleared, matches)
        },
    }
}

/// What a gathering step reads and writes lies in the buffers, and the
/// buffer sizes stay far from the largest size.
pub open spec fn gather_step_ok(p: PathSearch, num_matches: Seq<u32>, matches: Seq<u64>, s: GatherState, event: GatherEvent) -> bool {
    &&& s.cur_match_pos + 256 <= usize::MAX / 2
    &&& s.matches_size <= usize::MAX / 2
    &&& match event {
        GatherEvent::Found { count } => {
            &&& s.i < num_matches.len()
            &&& s.cur_match_pos + count <= matches.len()
            &&& s.cur_match_pos + count + 256 <= usize::MAX / 2
        },
        GatherEvent::Stored => s.i + s.skip < num_matches.len(),
        _ => true,
    }
}

/// The decisions of the match gathering that precedes the iterated search
/// over a block: for each position where the hasher can hash, make room for
/// 128 more matches (doubling the buffer), find the matches, and record
/// their number; a match longer than `K_LONG_MATCH_LEN` is kept alone, the
/// positions it covers are stored in the hasher and skipped with no matches
/// (see `gather_next`). The caller performs each request and reports back.
pub fn BrotliCreateHqZopfliBackwardReferencesStep(
    p: &PathSearch,
    num_matches: &mut [u32],
    matches: &mut [u64],
    state: &mut GatherState,
    event: GatherEvent,
) -> (r: GatherAction)
    requires
        gather_step_ok(*p, old(num_matches)@, old(matches)@, *old(state), event),
    ensures
        (*final(state), r, final(num_matches)@, final(matches)@) == gather_next(*p, old(num_matches)@, old(matches)@, *old(state), event),
{
    match event {
        GatherEvent::Start => {
            let size: usize = state.matches_size;
            GatherAt(p, 0, 0, size, state)
        },
        GatherEvent::Grown => {
            let pos: usize = p.position.wrapping_add(state.i);
            GatherAction::FindMatches {
                pos,
                max_length: p.num_bytes.wrapping_sub(state.i),
                max_distance: brotli_min_size_t(pos, p.max_backward_limit),
                offset: state.cur_match_pos,
            }
        },
        GatherEvent::Found { count } => {
            let end: usize = state.cur_match_pos + count;
            if count > 0 && BackwardMatchLength(&BackwardMatch(matches[end - 1])) > K_LONG_MATCH_LEN {
                let ml: usize = BackwardMatchLength(&BackwardMatch(matches[end - 1]));
                let pos: usize = p.position.wrapping_add(state.i);
                let to: usize = brotli_min_size_t(pos.wrapping_add(ml), p.store_end);
                matches[state.cur_match_pos] = matches[end - 1];
                num_matches[state.i] = 1u32;
                state.cur_match_pos = state.cur_match_pos + 1;
                state.skip = ml - 1;
                GatherAction::StoreRange { from: pos.wrapping_add(1), to }
            } else {
                num_matches[state.i] = count as u32;
                let i: usize = state.i.wrapping_add(1);
                let size: usize = state.matches_size;
                GatherAt(p, i, end, size, state)
            }
        },
        GatherEvent::Stored => {
            let ghost before = num_matches@;
            let _len: usize = num_matches.len();
            let mut k: usize = state.i + 1;
            let last: usize = state.i + state.skip;
            while k <= last
                invariant
                    state.i + 1 <= k <= last + 1,
                    last == state.i + state.skip,
                    last < num_matches@.len(),
                    num_matches@.len() == before.len(),
                    forall|t: int| 0 <= t < num_matches@.len() ==> #[trigger] num_matches@[t]
                        == if state.i < t < k { 0u32 } else { before[t] },
                decreases last + 1 - k,
            {
                num_matches[k] = 0u32;
                k = k + 1;
            }
            proof {
                assert(num_matches@ =~= Seq::new(before.len(), |t: int|
                    if state.i < t <= state.i + state.skip { 0u32 } else { before[t] }));
            }
            let i: usize = state.i.wrapping_add(state.skip).wrapping_add(1);
            let match_pos: usize = state.cur_match_pos;
            let size: usize = state.matches_size;
            GatherAt(p, i, match_pos, size, state)
        },
    }
}

proof fn lemma_match_count_same_prefix(a: Seq<u32>, b: Seq<u32>, j: int)
    requires
        forall|k: int| 0 <= k < j ==> #[trigger] a[k] == b[k],
    ensures
        match_count_before(a, j) == match_count_before(b, j),
    decreases j,
{
    if j > 0 {
        lemma_match_count_same_prefix(a, b, j - 1);
    }
}

proof fn lemma_match_count_zeros(num_matches: Seq<u32>, from: int, to: int)
    requires
        from <= to,
        forall|k: int| from <= k < to ==> #[trigger] num_matches[k] == 0,
    ensures
        match_count_before(num_matches, to) == match_count_before(num_matches, from),
    decreases to - from,
{
    if from < to {
        lemma_match_count_zeros(num_matches, from, to - 1);
    }
}

/// The match counts before the gathering's position add up to its place in
/// the match buffer; while the positions a long copy covers wait to be
/// stored (`storing`), the count of the current position is included.
pub open spec fn gather_counts_ok(num_matches: Seq<u32>, s: GatherState, storing: bool) -> bool {
    if storing {
        match_count_before(num_matches, s.i + 1) == s.cur_match_pos
    } else {
        match_count_before(num_matches, s.i as int) == s.cur_match_pos
    }
}

/// The gathering stores the matches of the positions one after another: at
/// every step the match counts of the positions before the current one add
/// up to the place in the match buffer where the next matches go, so a
/// request to find matches asks for them there, and the total reported at the
/// end is the sum of all the counts.
pub proof fn lemma_gather_counts_matches(
    p: PathSearch,
    num_matches: Seq<u32>,
    matches: Seq<u64>,
    s: GatherState,
    event: GatherEvent,
)
    requires
        gather_step_ok(p, num_matches, matches, s, event),
        num_matches.len() <= usize::MAX,
        match event {
            GatherEvent::Start => true,
            GatherEvent::Stored => gather_counts_ok(num_matches, s, true),
            GatherEvent::Found { count } => gather_counts_ok(num_matches, s, false) && count < 0x100000000,
            GatherEvent::Grown => gather_counts_ok(num_matches, s, false),
        },
    ensures
        ({
            let (s2, a, nm2, m2) = gather_next(p, num_matches, matches, s, event);
            &&& a is StoreRange ==> gather_counts_ok(nm2, s2, true)
            &&& !(a is StoreRange) ==> gather_counts_ok(nm2, s2, false)
            &&& a is FindMatches ==> a->FindMatches_offset == s2.cur_match_pos
            &&& a is Done ==> a->Done_total == match_count_before(nm2, s2.i as int)
        }),
{
    match event {
        GatherEvent::Found { count } => {
            let end = s.cur_match_pos.wrapping_add(count);
            assert(end == s.cur_match_pos + count);
            let long = count > 0 && match_length(matches[end - 1]) > K_LONG_MATCH_LEN;
            let x: u32 = if long { 1 } else { count as u32 };
            let nm2 = num_matches.update(s.i as int, x);
            lemma_match_count_same_prefix(nm2, num_matches, s.i as int);
            assert(match_count_before(nm2, s.i + 1) == match_count_before(nm2, s.i as int) + nm2[s.i as int]);
        },
        GatherEvent::Stored => {
            let cleared = Seq::new(num_matches.len(), |k: int|
                if s.i < k <= s.i + s.skip { 0u32 } else { num_matches[k] });
            lemma_match_count_same_prefix(cleared, num_matches, s.i + 1);
            lemma_match_count_zeros(cleared, s.i + 1, s.i + s.skip + 1);
            assert(s.i.wrapping_add(s.skip).wrapping_add(1) == s.i + s.skip + 1);
        },
        _ => {},
    }
}

fn GatherAt(p: &PathSearch, i: usize, cur_match_pos: usize, matches_size: usize, state: &mut GatherState) -> (r: GatherAction)
    requires
        cur_match_pos + 256 <= usize::MAX / 2,
        matches_size <= usize::MAX / 2,
    ensures
        (*final(state), r) == gather_at(*p, i, cur_match_pos, matches_size),
{
    *state = GatherState { i, cur_match_pos, matches_size, skip: 0 };
    if i.wrapping_add(p.hash_type_length).wrapping_sub(1) < p.num_bytes {
        let need: usize = cur_match_pos + 128;
        if matches_size < need {
            let mut new_size: usize = if matches_size == 0 { need } else { matches_size };
            let ghost start = new_size;
            while new_size < need
                invariant
                    need <= usize::MAX / 2,
                    new_size <= usize::MAX / 2 || new_size < 2 * need,
                    new_size > 0,
                    grown_size(start as int, need as int) == grown_size(new_size as int, need as int),
                decreases if need > new_size { need - new_size } else { 0 },
            {
                new_size = new_size * 2;
            }
            state.matches_size = new_size;
            GatherAction::Grow { new_size }
        } else {
            let pos: usize = p.position.wrapping_add(i);
            GatherAction::FindMatches {
                pos,
                max_length: p.num_bytes.wrapping_sub(i),
                max_distance: brotli_min_size_t(pos, p.max_backward_limit),
                offset: cur_match_pos,
            }
        }
    } else {
        GatherAction::Done { total: cur_match_pos }
    }
}


/// The outputs saved before the two search passes over a block: the command,
/// literal and pending-literal counts and the first four entries of the
/// distance cache, and which pass runs (0 or 1).
#[derive(Clone, Copy, Debug)]
pub struct TwoPassState {
    pub pass: usize,
    pub num_commands: usize,
    pub num_literals: usize,
    pub last_insert_len: usize,
    pub dist_cache: [i32; 4],
}

/// What the two-pass driver asks its caller to do next.
#[derive(Clone, Copy, Debug, PartialEq, Eq)]
pub enum TwoPassAction {
    /// Reset the nodes and set the cost model from the literal cost estimate.
    SetModelFromLiteralCosts,
    /// Reset the nodes and set the cost model from the `num_commands`
    /// commands the first pass made, which start `last_insert_len` literals
    /// before the block.
    SetModelFromCommands { num_commands: usize, last_insert_len: usize },
    /// Run the search over the block and make its commands from the outputs
    /// as they now stand.
    Iterate,
    /// Both passes are done.
    Done,
}

/// What the caller hands back to the two-pass driver.
#[derive(Clone, Copy, Debug)]
pub enum TwoPassEvent {
    Start,
    ModelSet,
    PassDone,
}

/// The decisions of the two passes of the search over a block: the outputs
/// are saved first; before each pass the nodes and the cost model are set
/// (from the literal costs, then from the commands of the first pass) and
/// the outputs are restored to what was saved, so the first pass leaves no
/// trace in them but the cost model; after the second pass the driver is
/// done.
pub fn HqZopfliTwoPassStep(
    state: &mut TwoPassState,
    event: TwoPassEvent,
    num_commands: &mut usize,
    num_literals: &mut usize,
    last_insert_len: &mut usize,
    dist_cache: &mut [i32],
) -> (r: TwoPassAction)
    requires
        old(dist_cache)@.len() >= 4,
    ensures
        final(dist_cache)@.len() == old(dist_cache)@.len(),
        final(dist_cache)@.subrange(4, final(dist_cache)@.len() as int)
            == old(dist_cache)@.subrange(4, old(dist_cache)@.len() as int),
        match event {
            TwoPassEvent::Start => {
                &&& final(state).pass == 0
                &&& final(state).num_commands == *old(num_commands)
                &&& final(state).num_literals == *old(num_literals)
                &&& final(state).last_insert_len == *old(last_insert_len)
                &&& final(state).dist_cache@ == old(dist_cache)@.subrange(0, 4)
                &&& *final(num_commands) == *old(num_commands)
                &&& *final(num_literals) == *old(num_literals)
                &&& *final(last_insert_len) == *old(last_insert_len)
                &&& final(dist_cache)@ == old(dist_cache)@
                &&& r == TwoPassAction::SetModelFromLiteralCosts
            },
            TwoPassEvent::ModelSet => {
                &&& *final(state) == *old(state)
                &&& *final(num_commands) == old(state).num_commands
                &&& *final(num_literals) == old(state).num_literals
                &&& *final(last_insert_len) == old(state).last_insert_len
                &&& final(dist_cache)@.subrange(0, 4) == old(state).dist_cache@
                &&& r == TwoPassAction::Iterate
            },
            TwoPassEvent::PassDone => {
                &&& *final(num_commands) == *old(num_commands)
                &&& *final(num_literals) == *old(num_literals)
                &&& *final(last_insert_len) == *old(last_insert_len)
                &&& final(dist_cache)@ == old(dist_cache)@
                &&& if old(state).pass == 0 {
                    &&& *final(state) == (TwoPassState { pass: 1, ..*old(state) })
                    &&& r == (TwoPassAction::SetModelFromCommands {
                        num_commands: (*old(num_commands)).wrapping_sub(old(state).num_commands),
                        last_insert_len: old(state).last_insert_len,
                    })
                } else {
                    &&& *final(state) == *old(state)
                    &&& r == TwoPassAction::Done
                }
            },
        },
{
    match event {
        TwoPassEvent::Start => {
            *state = TwoPassState {
                pass: 0,
                num_commands: *num_commands,
                num_literals: *num_literals,
                last_insert_len: *last_insert_len,
                dist_cache: [dist_cache[0], dist_cache[1], dist_cache[2], dist_cache[3]],
            };
            proof {
                assert(state.dist_cache@ =~= old(dist_cache)@.subrange(0, 4));
            }
            TwoPassAction::SetModelFromLiteralCosts
        },
        TwoPassEvent::ModelSet => {
            *num_commands = state.num_commands;
            *num_literals = state.num_literals;
            *last_insert_len = state.last_insert_len;
            dist_cache[0] = state.dist_cache[0];
            dist_cache[1] = state.dist_cache[1];
            dist_cache[2] = state.dist_cache[2];
            dist_cache[3] = state.dist_cache[3];
            proof {
                assert(dist_cache@.subrange(0, 4) =~= state.dist_cache@);
                assert(dist_cache@.subrange(4, dist_cache@.len() as int)
                    =~= old(dist_cache)@.subrange(4, old(dist_cache)@.len() as int));
            }
            TwoPassAction::Iterate
        },
        TwoPassEvent::PassDone => {
            if state.pass == 0 {
                state.pass = 1;
                TwoPassAction::SetModelFromCommands {
                    num_commands: (*num_commands).wrapping_sub(state.num_commands),
                    last_insert_len: state.last_insert_len,
                }
            } else {
                TwoPassAction::Done
            }
        },
    }
}


/// Every match search the single-pass search asks for stays inside the
/// data and the window: it is at position `position + i` of its state, and
/// its largest distance is that position or the window limit, whichever is
/// smaller, so no match reaches before the start of the data or beyond the
/// window.
pub proof fn lemma_path_search_distance_in_window(p: PathSearch, matches: Seq<u64>, s: PathState, event: PathEvent)
    ensures
        ({
            let (s2, a, m2) = path_next(p, matches, s, event);
            a is FindMatches ==> {
                &&& a->FindMatches_pos == p.position.wrapping_add(s2.i)
                &&& a->FindMatches_max_distance <= a->FindMatches_pos
                &&& a->FindMatches_max_distance <= p.max_backward_limit
                &&& (a->FindMatches_max_distance == a->FindMatches_pos
                    || a->FindMatches_max_distance == p.max_backward_limit)
                &&& a->FindMatches_max_length == p.num_bytes.wrapping_sub(s2.i)
            }
        }),
{
}

/// Every match search the gathering asks for stays inside the data and the
/// window: it is at position `position + i` of its state, and its largest
/// distance is that position or the window limit, whichever is smaller, so
/// no match reaches before the start of the data or beyond the window.
pub proof fn lemma_gather_distance_in_window(
    p: PathSearch,
    num_matches: Seq<u32>,
    matches: Seq<u64>,
    s: GatherState,
    event: GatherEvent,
)
    ensures
        ({
            let (s2, a, nm2, m2) = gather_next(p, num_matches, matches, s, event);
            a is FindMatches ==> {
                &&& a->FindMatches_pos == p.position.wrapping_add(s2.i)
                &&& a->FindMatches_max_distance <= a->FindMatches_pos
                &&& a->FindMatches_max_distance <= p.max_backward_limit
                &&& (a->FindMatches_max_distance == a->FindMatches_pos
                    || a->FindMatches_max_distance == p.max_backward_limit)
                &&& a->FindMatches_max_length == p.num_bytes.wrapping_sub(s2.i)
                &&& a->FindMatches_offset == s2.cur_match_pos
            }
        }),
{
}

} // verus!
