use vstd::prelude::*;
use crate::backward_match::{BackwardMatch, BackwardMatchLength, BackwardMatchLengthCode, match_distance, match_length, match_length_code};
use crate::command::{
    BrotliEncoderParams, GetInsertLengthCode, insert_code, prefix_dist, CombineLengthCodes, GetCopyExtra, GetCopyLengthCode, PrefixEncodeCopyDistance,
    command_code, copy_code, copy_extra, prefix_encode, is_copy_code_of,
};
use crate::matcher::{common_prefix, copies_equal_bytes, lemma_common_prefix_range, FindMatchLengthWithLimit, max_zopfli_len, MaxZopfliLen};
use crate::util::brotli_min_size_t;
use crate::queue::{PosData, StartPosQueue, StartPosQueuePush, queue_view, queue_size, bubble_pass};
use crate::node::{
    ZopfliNode, Union1, ComputeDistanceShortcut, ComputeDistanceCache, distance_shortcut, distance_cache_at,
    usable_as_last_distance, command_start, shortcut_chain_ok, shortcut_chain, shortcut_of, shortcuts_consistent,
    node_command_length, lemma_node_field_bounds, search_nodes_ok, is_unreached, lemma_consistent_shortcut_chain_ok,
    updated_node, node_distance_code, lemma_update_node_read_back, lemma_updated_node_codable, lemma_update_keeps_search_ok,
};

verus! {

/// Which entry of the distance cache each of the 16 last-distance codes uses.
pub open spec fn distance_cache_index() -> Seq<usize> {
    seq![0usize, 1, 2, 3, 0, 0, 0, 0, 0, 0, 1, 1, 1, 1, 1, 1]
}

/// The offset each of the 16 last-distance codes adds to its cache entry.
pub open spec fn distance_cache_offset() -> Seq<int> {
    seq![0int, 0, 0, 0, -1, 1, -2, 2, -3, 3, -1, 1, -2, 2, -3, 3]
}

/// A command the search may record at node `pos + len`: copy `len` bytes
/// from distance `dist` with copy length code `len_code`, distance short code
/// `short_code` (last-distance code plus one, 0 for an explicit distance),
/// copy code `copycode` with `copy_extra` extra bits, command code `cmdcode`;
/// its distance costs the distance-cost entry `cost_dist_index` plus
/// `dist_extra` extra bits, and `from_cache` tells a last-distance candidate
/// from an explicit-distance one.
#[derive(Clone, Copy, Debug)]
pub struct NodeCandidate {
    pub len: usize,
    pub len_code: usize,
    pub dist: usize,
    pub short_code: usize,
    pub copycode: u16,
    pub copy_extra: u32,
    pub cmdcode: u16,
    pub cost_dist_index: usize,
    pub dist_extra: u32,
    pub from_cache: bool,
}

/// The candidate for copy length `l` from last-distance code `j` at distance
/// `backward`, after an insert with insert code `inscode`.
pub open spec fn cache_candidate(l: usize, backward: usize, j: int, inscode: int) -> NodeCandidate {
    let copycode = copy_code(l as int);
    NodeCandidate {
        len: l,
        len_code: l,
        dist: backward,
        short_code: (j + 1) as usize,
        copycode: copycode as u16,
        copy_extra: copy_extra()[copycode],
        cmdcode: command_code(inscode, copycode, j == 0) as u16,
        cost_dist_index: j as usize,
        dist_extra: 0,
        from_cache: true,
    }
}

/// Candidates for copy lengths `from` to `to` from last-distance code `j`.
pub open spec fn cache_candidate_run(from: int, to: int, backward: usize, j: int, inscode: int) -> Seq<NodeCandidate> {
    Seq::new(
        if to >= from { (to - from + 1) as nat } else { 0 },
        |t: int| cache_candidate((from + t) as usize, backward, j, inscode),
    )
}

/// The backward distance of last-distance code `j` for distance cache `dc`
/// (32-bit signed arithmetic, then widened).
pub open spec fn cache_backward(dc: Seq<i32>, j: int) -> usize {
    ((dc[distance_cache_index()[j] as int] as int + distance_cache_offset()[j]) as i32) as usize
}

/// The candidates from the last-distance codes `j` and up, while the best
/// length `best_len` is below `max_len`: a code whose distance is within
/// `max_distance`, points before the current position, and whose ring buffer
/// bytes continue the current ones at offset `best_len`, gives a match of
/// their common length (at most `max_len`); each length above the best so
/// far is a candidate, and the best length grows to it. The codes stop when
/// the current position plus the best length passes the ring buffer mask.
pub open spec fn cache_candidates(
    rb: Seq<u8>,
    mask: usize,
    cur_ix: usize,
    max_distance: usize,
    max_len: usize,
    dc: Seq<i32>,
    inscode: int,
    j: int,
    best_len: usize,
) -> Seq<NodeCandidate>
    decreases 16 - j,
{
    if j < 0 || j >= 16 || best_len >= max_len {
        seq![]
    } else {
        let cm = cur_ix & mask;
        let backward = cache_backward(dc, j);
        let prev_ix = cur_ix.wrapping_sub(backward);
        if cm.wrapping_add(best_len) > mask {
            seq![]
        } else if backward > max_distance || prev_ix >= cur_ix {
            cache_candidates(rb, mask, cur_ix, max_distance, max_len, dc, inscode, j + 1, best_len)
        } else {
            let prev = prev_ix & mask;
            if prev.wrapping_add(best_len) > mask || rb[(cm + best_len) as int] != rb[(prev + best_len) as int] {
                cache_candidates(rb, mask, cur_ix, max_distance, max_len, dc, inscode, j + 1, best_len)
            } else {
                let len = common_prefix(rb.subrange(prev as int, rb.len() as int), rb.subrange(cm as int, rb.len() as int), max_len as int);
                cache_candidate_run(best_len + 1, len, backward, j, inscode)
                    + cache_candidates(rb, mask, cur_ix, max_distance, max_len, dc, inscode, j + 1,
                        if len > best_len { len as usize } else { best_len })
            }
        }
    }
}

/// Distance cache entries for which every last-distance code can be added
/// without leaving the 32-bit signed range.
pub open spec fn cache_entries_ok(dc: Seq<i32>) -> bool {
    dc.len() >= 4 && forall|i: int| 0 <= i < 4 ==> i32::MIN + 3 <= #[trigger] dc[i] <= i32::MAX - 3
}

fn MakeCacheCandidate(l: usize, backward: usize, j: usize, inscode: u16) -> (r: NodeCandidate)
    requires
        l >= 2,
        j < 16,
        inscode < 24,
    ensures
        r == cache_candidate(l, backward, j as int, inscode as int),
{
    let copycode: u16 = GetCopyLengthCode(l);
    let copy_extra: u32 = GetCopyExtra(copycode);
    let cmdcode: u16 = CombineLengthCodes(inscode, copycode, if j == 0 { 1i32 } else { 0i32 });
    NodeCandidate {
        len: l,
        len_code: l,
        dist: backward,
        short_code: j + 1,
        copycode,
        copy_extra,
        cmdcode,
        cost_dist_index: j,
        dist_extra: 0,
        from_cache: true,
    }
}

/// Appends the candidates from the last-distance codes (see
/// `cache_candidates`), starting with best length `min_len - 1`.
fn CacheCandidates(
    rb: &[u8],
    mask: usize,
    cur_ix: usize,
    max_distance: usize,
    max_len: usize,
    dc: &[i32; 4],
    inscode: u16,
    min_len: usize,
    out: &mut Vec<NodeCandidate>,
)
    requires
        mask + max_len <= rb@.len(),
        inscode < 24,
        min_len >= 2,
        cache_entries_ok(dc@),
    ensures
        final(out)@ == old(out)@ + cache_candidates(rb@, mask, cur_ix, max_distance, max_len, dc@, inscode as int, 0,
            (min_len - 1) as usize),
{
    let idx_table: [usize; 16] = [0, 1, 2, 3, 0, 0, 0, 0, 0, 0, 1, 1, 1, 1, 1, 1];
    let off_table: [i32; 16] = [0, 0, 0, 0, -1, 1, -2, 2, -3, 3, -1, 1, -2, 2, -3, 3];
    assert(idx_table@ =~= distance_cache_index());
    assert(forall|t: int| 0 <= t < 16 ==> #[trigger] off_table@[t] as int == distance_cache_offset()[t]);
    let cm: usize = cur_ix & mask;
    proof {
        assert(cm <= mask) by (bit_vector)
            requires cm == cur_ix & mask;
    }
    let mut best_len: usize = min_len - 1;
    let mut j: usize = 0;
    let rb_len: usize = rb.len();
    let ghost total = cache_candidates(rb@, mask, cur_ix, max_distance, max_len, dc@, inscode as int, 0, best_len);
    let ghost mut done: Seq<NodeCandidate> = seq![];
    while j < 16 && best_len < max_len
        invariant
            mask + max_len <= rb@.len(),
            rb_len == rb@.len(),
            cm == cur_ix & mask,
            cm <= mask,
            inscode < 24,
            best_len >= 1,
            j <= 16,
            cache_entries_ok(dc@),
            idx_table@ == distance_cache_index(),
            forall|t: int| 0 <= t < 16 ==> #[trigger] off_table@[t] as int == distance_cache_offset()[t],
            out@ == old(out)@ + done,
            total == done + cache_candidates(rb@, mask, cur_ix, max_distance, max_len, dc@, inscode as int, j as int, best_len),
        ensures
            out@ == old(out)@ + total,
        decreases 16 - j,
    {
        let ghost rest = cache_candidates(rb@, mask, cur_ix, max_distance, max_len, dc@, inscode as int, j as int, best_len);
        let ci: usize = idx_table[j];
        proof {
            assert(ci < 4);
            assert(-3 <= off_table@[j as int] <= 3);
        }
        let backward: usize = (dc[ci] + off_table[j]) as usize;
        proof {
            assert(backward == cache_backward(dc@, j as int));
        }
        let prev_ix: usize = cur_ix.wrapping_sub(backward);
        if cm + best_len > mask {
            proof {
                assert(rest == Seq::<NodeCandidate>::empty());
                assert(total =~= done);
            }
            break;
        }
        if backward > max_distance || prev_ix >= cur_ix {
            j = j + 1;
            continue;
        }
        let prev: usize = prev_ix & mask;
        proof {
            assert(prev <= mask) by (bit_vector)
                requires prev == prev_ix & mask;
        }
        if prev + best_len > mask || rb[cm + best_len] != rb[prev + best_len] {
            j = j + 1;
            continue;
        }
        let len: usize = FindMatchLengthWithLimit(slice_from(rb, prev), slice_from(rb, cm), max_len);
        let ghost before = out@;
        let mut t: usize = 0;
        let count: usize = if len > best_len { len - best_len } else { 0 };
        while t < count
            invariant
                t <= count,
                count == (if len > best_len { len - best_len } else { 0 }),
                best_len >= 1,
                j < 16,
                inscode < 24,
                len <= max_len,
                out@ == before + cache_candidate_run(best_len + 1, best_len + t, backward, j as int, inscode as int),
            decreases count - t,
        {
            let l: usize = best_len + 1 + t;
            let c = MakeCacheCandidate(l, backward, j, inscode);
            out.push(c);
            proof {
                assert(cache_candidate_run(best_len + 1, l as int, backward, j as int, inscode as int)
                    =~= cache_candidate_run(best_len + 1, l - 1, backward, j as int, inscode as int).push(c));
            }
            t = t + 1;
        }
        proof {
            let run = cache_candidate_run(best_len + 1, len as int, backward, j as int, inscode as int);
            if len <= best_len {
                assert(run =~= Seq::<NodeCandidate>::empty());
                assert(cache_candidate_run(best_len + 1, best_len + t, backward, j as int, inscode as int) =~= run);
            }
            assert(out@ == before + run);
            done = done + run;
            assert(out@ =~= old(out)@ + done);
        }
        if len > best_len {
            best_len = len;
        }
        j = j + 1;
        proof {
            assert(total =~= done + cache_candidates(rb@, mask, cur_ix, max_distance, max_len, dc@, inscode as int, j as int, best_len));
        }
    }
}

/// The bytes of `data` from index `start` on.
fn slice_from(data: &[u8], start: usize) -> (r: &[u8])
    requires
        start <= data@.len(),
    ensures
        r@ == data@.subrange(start as int, data@.len() as int),
{
    let (_head, tail) = data.split_at(start);
    tail
}

/// The candidate for copy length `l` from the packed match `m`: a match
/// beyond the window (`is_dictionary`) is coded with its own copy length
/// code, any other with its length; `dist_symbol` is the prefix code of its
/// distance.
pub open spec fn match_candidate(m: u64, l: usize, is_dictionary: bool, inscode: int, dist_symbol: u16) -> NodeCandidate {
    let len_code = if is_dictionary { match_length_code(m) } else { l };
    let copycode = copy_code(len_code as int);
    NodeCandidate {
        len: l,
        len_code,
        dist: match_distance(m) as usize,
        short_code: 0,
        copycode: copycode as u16,
        copy_extra: copy_extra()[copycode],
        cmdcode: command_code(inscode, copycode, false) as u16,
        cost_dist_index: (dist_symbol & 0x3ff) as usize,
        dist_extra: (dist_symbol >> 10u16) as u32,
        from_cache: false,
    }
}

/// The distance prefix code of a match's distance.
pub open spec fn match_dist_symbol(m: u64, params: BrotliEncoderParams) -> u16 {
    prefix_encode(
        (match_distance(m) as usize).wrapping_add(16).wrapping_sub(1),
        params.dist.num_direct_distance_codes as usize,
        params.dist.distance_postfix_bits as u64,
    ).0
}

/// The first copy length tried for match `m` when the lengths up to `len`
/// are done: its full length when it is a dictionary match or longer than
/// `max_zopfli`, else `len`.
pub open spec fn match_first_len(m: u64, len: usize, is_dictionary: bool, max_zopfli: usize) -> usize {
    if len < match_length(m) && (is_dictionary || match_length(m) > max_zopfli) {
        match_length(m)
    } else {
        len
    }
}

/// The candidates from the matches `j` and up, each for every copy length
/// from where the previous ones stopped (see `match_first_len`) up to the
/// match's length.
pub open spec fn match_candidates(
    matches: Seq<u64>,
    num_matches: int,
    j: int,
    len: usize,
    max_distance: usize,
    max_zopfli: usize,
    inscode: int,
    params: BrotliEncoderParams,
) -> Seq<NodeCandidate>
    decreases num_matches - j,
{
    if j < 0 || j >= num_matches {
        seq![]
    } else {
        let m = matches[j];
        let is_dictionary = match_distance(m) as usize > max_distance;
        let first = match_first_len(m, len, is_dictionary, max_zopfli);
        let mml = match_length(m);
        let run = Seq::new(
            if mml >= first { (mml - first + 1) as nat } else { 0 },
            |t: int| match_candidate(m, (first + t) as usize, is_dictionary, inscode, match_dist_symbol(m, params)),
        );
        run + match_candidates(matches, num_matches, j + 1, if mml >= first { (mml + 1) as usize } else { first },
            max_distance, max_zopfli, inscode, params)
    }
}

/// The matches can be coded: their distance prefix codes can be computed and
/// their copy length codes are at least 2.
pub open spec fn match_entries_ok(matches: Seq<u64>, num_matches: int, params: BrotliEncoderParams) -> bool {
    &&& params.dist.distance_postfix_bits < 32
    &&& forall|j: int| 0 <= j < num_matches ==> {
        let m = #[trigger] matches[j];
        let code = (match_distance(m) as usize).wrapping_add(16).wrapping_sub(1);
        &&& match_length_code(m) >= 2
        &&& match_length(m) < 0x8000000
        &&& code >= 16usize.wrapping_add(params.dist.num_direct_distance_codes as usize) ==> prefix_dist(
            code,
            params.dist.num_direct_distance_codes as usize,
            params.dist.distance_postfix_bits as u64,
        ) >= 2
    }
}

fn MakeMatchCandidate(m: u64, l: usize, is_dictionary: bool, inscode: u16, dist_symbol: u16) -> (r: NodeCandidate)
    requires
        l >= 2,
        match_length_code(m) >= 2,
        inscode < 24,
    ensures
        r == match_candidate(m, l, is_dictionary, inscode as int, dist_symbol),
{
    let bm = BackwardMatch(m);
    let len_code: usize = if is_dictionary { BackwardMatchLengthCode(&bm) } else { l };
    let copycode: u16 = GetCopyLengthCode(len_code);
    let copy_extra: u32 = GetCopyExtra(copycode);
    let cmdcode: u16 = CombineLengthCodes(inscode, copycode, 0i32);
    NodeCandidate {
        len: l,
        len_code,
        dist: bm.distance() as usize,
        short_code: 0,
        copycode,
        copy_extra,
        cmdcode,
        cost_dist_index: (dist_symbol & 0x3ffu16) as usize,
        dist_extra: (dist_symbol >> 10u16) as u32,
        from_cache: false,
    }
}

/// Appends the candidates from the matches (see `match_candidates`),
/// starting with copy length `min_len`.
fn MatchCandidates(
    matches: &[u64],
    num_matches: usize,
    min_len: usize,
    max_distance: usize,
    max_zopfli: usize,
    inscode: u16,
    params: &BrotliEncoderParams,
    out: &mut Vec<NodeCandidate>,
)
    requires
        num_matches <= matches@.len(),
        min_len >= 2,
        inscode < 24,
        match_entries_ok(matches@, num_matches as int, *params),
    ensures
        final(out)@ == old(out)@ + match_candidates(matches@, num_matches as int, 0, min_len, max_distance, max_zopfli,
            inscode as int, *params),
{
    let mut len: usize = min_len;
    let mut j: usize = 0;
    let ghost total = match_candidates(matches@, num_matches as int, 0, min_len, max_distance, max_zopfli, inscode as int, *params);
    let ghost mut done: Seq<NodeCandidate> = seq![];
    while j < num_matches
        invariant
            j <= num_matches <= matches@.len(),
            len >= 2,
            inscode < 24,
            match_entries_ok(matches@, num_matches as int, *params),
            out@ == old(out)@ + done,
            total == done + match_candidates(matches@, num_matches as int, j as int, len, max_distance, max_zopfli,
                inscode as int, *params),
        decreases num_matches - j,
    {
        let m: u64 = matches[j];
        let bm = BackwardMatch(m);
        let dist: usize = bm.distance() as usize;
        let is_dictionary: bool = dist > max_distance;
        let dist_code: usize = dist.wrapping_add(16usize).wrapping_sub(1usize);
        let mut dist_symbol: u16 = 0;
        let mut distextra: u32 = 0;
        proof {
            assert(match_entries_ok(matches@, num_matches as int, *params));
            let mm = matches@[j as int];
        }
        PrefixEncodeCopyDistance(
            dist_code,
            params.dist.num_direct_distance_codes as usize,
            params.dist.distance_postfix_bits as u64,
            &mut dist_symbol,
            &mut distextra,
        );
        let max_match_len: usize = BackwardMatchLength(&bm);
        if len < max_match_len && (is_dictionary || max_match_len > max_zopfli) {
            len = max_match_len;
        }
        let ghost first = len;
        let ghost before = out@;
        let ghost run = Seq::new(
            if max_match_len >= first { (max_match_len - first + 1) as nat } else { 0 },
            |t: int| match_candidate(m, (first + t) as usize, is_dictionary, inscode as int, match_dist_symbol(m, *params)),
        );
        while len <= max_match_len
            invariant
                first <= len,
                len <= max_match_len + 1 || len == first,
                first >= 2,
                max_match_len < 0x8000000,
                match_length_code(m) >= 2,
                inscode < 24,
                dist_symbol == match_dist_symbol(m, *params),
                run == Seq::new(
                    if max_match_len >= first { (max_match_len - first + 1) as nat } else { 0 },
                    |t: int| match_candidate(m, (first + t) as usize, is_dictionary, inscode as int, match_dist_symbol(m, *params)),
                ),
                out@ == before + run.take(len - first),
            decreases max_match_len + 1 - len,
        {
            let c = MakeMatchCandidate(m, len, is_dictionary, inscode, dist_symbol);
            out.push(c);
            proof {
                assert(run.take(len - first + 1) =~= run.take(len - first).push(c));
            }
            len = len + 1;
        }
        proof {
            assert(run.take(len - first) =~= run);
            done = done + run;
            assert(out@ =~= old(out)@ + done);
        }
        j = j + 1;
        proof {
            assert(total =~= done + match_candidates(matches@, num_matches as int, j as int, len, max_distance, max_zopfli,
                inscode as int, *params));
        }
    }
}

/// All commands the search tries to end at nodes after `pos` when it starts
/// from queue entry `k` (whose start position and distance cache are in
/// `posdata`), in the order it tries them: first those from the 16
/// last-distance codes (best length starting at `min_len - 1`), then, for the
/// two most promising entries only, those from the `num_matches` matches
/// (lengths starting at `min_len`).
pub open spec fn zopfli_candidates(
    num_bytes: usize,
    block_start: usize,
    pos: usize,
    ringbuffer: Seq<u8>,
    ringbuffer_mask: usize,
    params: BrotliEncoderParams,
    max_backward_limit: usize,
    posdata: PosData,
    k: usize,
    min_len: usize,
    num_matches: usize,
    matches: Seq<u64>,
) -> Seq<NodeCandidate> {
    let cur_ix = block_start.wrapping_add(pos);
    let max_distance = if cur_ix < max_backward_limit { cur_ix } else { max_backward_limit };
    let max_len = num_bytes.wrapping_sub(pos);
    let inscode = insert_code(pos.wrapping_sub(posdata.pos) as int);
    cache_candidates(ringbuffer, ringbuffer_mask, cur_ix, max_distance, max_len, posdata.distance_cache@, inscode, 0,
        (min_len - 1) as usize)
        + if k < 2 {
        match_candidates(matches, num_matches as int, 0, min_len, max_distance, max_zopfli_len(params.quality), inscode, params)
    } else {
        seq![]
    }
}

/// The commands the search tries from queue entry `k` at position `pos`, in
/// order (see `zopfli_candidates`); the caller weighs each with its cost
/// model and records the cheaper ones at their nodes.
pub fn ZopfliNodeCandidates(
    num_bytes: usize,
    block_start: usize,
    pos: usize,
    ringbuffer: &[u8],
    ringbuffer_mask: usize,
    params: &BrotliEncoderParams,
    max_backward_limit: usize,
    posdata: &PosData,
    k: usize,
    min_len: usize,
    num_matches: usize,
    matches: &[u64],
) -> (r: Vec<NodeCandidate>)
    requires
        ringbuffer_mask + num_bytes.wrapping_sub(pos) <= ringbuffer@.len(),
        min_len >= 2,
        cache_entries_ok(posdata.distance_cache@),
        k < 2 ==> num_matches <= matches@.len(),
        k < 2 ==> match_entries_ok(matches@, num_matches as int, *params),
    ensures
        r@ == zopfli_candidates(num_bytes, block_start, pos, ringbuffer@, ringbuffer_mask, *params, max_backward_limit,
            *posdata, k, min_len, num_matches, matches@),
{
    let cur_ix: usize = block_start.wrapping_add(pos);
    let max_distance: usize = brotli_min_size_t(cur_ix, max_backward_limit);
    let max_len: usize = num_bytes.wrapping_sub(pos);
    let max_zopfli: usize = MaxZopfliLen(params);
    let inscode: u16 = GetInsertLengthCode(pos.wrapping_sub(posdata.pos));
    let mut out: Vec<NodeCandidate> = Vec::new();
    CacheCandidates(ringbuffer, ringbuffer_mask, cur_ix, max_distance, max_len, &posdata.distance_cache, inscode, min_len, &mut out);
    if k < 2 {
        MatchCandidates(matches, num_matches, min_len, max_distance, max_zopfli, inscode, params, &mut out);
    } else {
        assert(out@ =~= out@ + Seq::<NodeCandidate>::empty());
    }
    out
}

/// Every last-distance candidate is a true match: its distance is within
/// `max_distance`, it starts before the current position, and the `len`
/// bytes there equal the `len` bytes at the current position in the ring
/// buffer; its length is at most `max_len`.
pub proof fn lemma_cache_candidates_match(
    rb: Seq<u8>,
    mask: usize,
    cur_ix: usize,
    max_distance: usize,
    max_len: usize,
    dc: Seq<i32>,
    inscode: int,
    j: int,
    best_len: usize,
)
    requires
        mask + max_len <= rb.len(),
        0 <= j,
    ensures
        forall|t: int| 0 <= t < cache_candidates(rb, mask, cur_ix, max_distance, max_len, dc, inscode, j, best_len).len() ==> {
            let c = #[trigger] cache_candidates(rb, mask, cur_ix, max_distance, max_len, dc, inscode, j, best_len)[t];
            let prev = cur_ix.wrapping_sub(c.dist) & mask;
            let cm = cur_ix & mask;
            &&& c.dist <= max_distance
            &&& cur_ix.wrapping_sub(c.dist) < cur_ix
            &&& c.len <= max_len
            &&& c.len > best_len
            &&& prev + c.len <= rb.len()
            &&& cm + c.len <= rb.len()
            &&& rb.subrange(prev as int, prev + c.len) == rb.subrange(cm as int, cm + c.len)
        },
    decreases 16 - j,
{
    let all = cache_candidates(rb, mask, cur_ix, max_distance, max_len, dc, inscode, j, best_len);
    if j < 16 && best_len < max_len {
        let cm = cur_ix & mask;
        let backward = cache_backward(dc, j);
        let prev_ix = cur_ix.wrapping_sub(backward);
        assert(cm <= mask) by (bit_vector)
            requires cm == cur_ix & mask;
        if cm.wrapping_add(best_len) > mask {
            assert(all.len() == 0);
        } else if backward > max_distance || prev_ix >= cur_ix {
            lemma_cache_candidates_match(rb, mask, cur_ix, max_distance, max_len, dc, inscode, j + 1, best_len);
            assert(all == cache_candidates(rb, mask, cur_ix, max_distance, max_len, dc, inscode, j + 1, best_len));
        } else {
            let prev = prev_ix & mask;
            assert(prev <= mask) by (bit_vector)
                requires prev == prev_ix & mask;
            if prev.wrapping_add(best_len) > mask || rb[(cm + best_len) as int] != rb[(prev + best_len) as int] {
                lemma_cache_candidates_match(rb, mask, cur_ix, max_distance, max_len, dc, inscode, j + 1, best_len);
                assert(all == cache_candidates(rb, mask, cur_ix, max_distance, max_len, dc, inscode, j + 1, best_len));
            } else {
                let s1 = rb.subrange(prev as int, rb.len() as int);
                let s2 = rb.subrange(cm as int, rb.len() as int);
                let len = common_prefix(s1, s2, max_len as int);
                assert(s1.subrange(0, 0) =~= s2.subrange(0, 0));
                lemma_common_prefix(s1, s2, max_len as int, 0);
                let next_best = if len > best_len { len as usize } else { best_len };
                lemma_cache_candidates_match(rb, mask, cur_ix, max_distance, max_len, dc, inscode, j + 1, next_best);
                let run = cache_candidate_run(best_len + 1, len, backward, j, inscode);
                let rest = cache_candidates(rb, mask, cur_ix, max_distance, max_len, dc, inscode, j + 1, next_best);
                assert(all == run + rest);
                assert forall|t: int| 0 <= t < all.len() implies {
                    let c = #[trigger] all[t];
                    let p2 = cur_ix.wrapping_sub(c.dist) & mask;
                    &&& c.dist <= max_distance
                    &&& cur_ix.wrapping_sub(c.dist) < cur_ix
                    &&& c.len <= max_len
                    &&& c.len > best_len
                    &&& p2 + c.len <= rb.len()
                    &&& cm + c.len <= rb.len()
                    &&& rb.subrange(p2 as int, p2 + c.len) == rb.subrange(cm as int, cm + c.len)
                } by {
                    if t < run.len() {
                        let c = all[t];
                        assert(c == run[t]);
                        assert(c.len == best_len + 1 + t);
                        assert(s1.subrange(0, c.len as int) == s2.subrange(0, c.len as int));
                        assert(rb.subrange(prev as int, prev + c.len) =~= s1.subrange(0, c.len as int));
                        assert(rb.subrange(cm as int, cm + c.len) =~= s2.subrange(0, c.len as int));
                    } else {
                        assert(all[t] == rest[t - run.len()]);
                    }
                }
            }
        }
    }
}

/// Each copy length is tried at most once over all matches: the lengths of
/// the match candidates strictly increase, starting at `len` or above.
pub proof fn lemma_match_candidate_lengths_increase(
    matches: Seq<u64>,
    num_matches: int,
    j: int,
    len: usize,
    max_distance: usize,
    max_zopfli: usize,
    inscode: int,
    params: BrotliEncoderParams,
)
    ensures
        ({
            let r = match_candidates(matches, num_matches, j, len, max_distance, max_zopfli, inscode, params);
            &&& forall|t: int| 0 <= t < r.len() ==> (#[trigger] r[t]).len >= len
            &&& forall|t: int| 0 < t < r.len() ==> r[t - 1].len < (#[trigger] r[t]).len
        }),
    decreases num_matches - j,
{
    if 0 <= j < num_matches {
        let m = matches[j];
        let is_dictionary = match_distance(m) as usize > max_distance;
        let first = match_first_len(m, len, is_dictionary, max_zopfli);
        let mml = match_length(m);
        let lc = crate::backward_match::match_length_and_code(m);
        assert(lc >> 5u32 < 0x8000000u32) by (bit_vector);
        assert(mml < 0x8000000);
        let run = Seq::new(
            if mml >= first { (mml - first + 1) as nat } else { 0 },
            |t: int| match_candidate(m, (first + t) as usize, is_dictionary, inscode, match_dist_symbol(m, params)),
        );
        assert forall|t: int| 0 <= t < run.len() implies (#[trigger] run[t]).len == first + t by {}
        let next = if mml >= first { (mml + 1) as usize } else { first };
        lemma_match_candidate_lengths_increase(matches, num_matches, j + 1, next, max_distance, max_zopfli, inscode, params);
        let rest = match_candidates(matches, num_matches, j + 1, next, max_distance, max_zopfli, inscode, params);
        let r = match_candidates(matches, num_matches, j, len, max_distance, max_zopfli, inscode, params);
        assert(r == run + rest);
        assert(first >= len);
        assert forall|t: int| 0 <= t < r.len() implies (#[trigger] r[t]).len >= len by {
            if t >= run.len() {
                assert(r[t] == rest[t - run.len()]);
            }
        }
        assert forall|t: int| 0 < t < r.len() implies r[t - 1].len < (#[trigger] r[t]).len by {
            if t > run.len() {
                assert(r[t] == rest[t - run.len()]);
                assert(r[t - 1] == rest[t - 1 - run.len()]);
            } else if t == run.len() {
                assert(r[t] == rest[0]);
                assert(r[t - 1] == run[t - 1]);
            }
        }
    }
}

proof fn lemma_copies_equal_bytes_prefix(rb: Seq<u8>, mask: usize, cur_ix: usize, dist: usize, len: usize, shorter: usize)
    requires
        copies_equal_bytes(rb, mask, cur_ix, dist, len),
        shorter <= len,
    ensures
        copies_equal_bytes(rb, mask, cur_ix, dist, shorter),
{
    let prev = cur_ix.wrapping_sub(dist) & mask;
    let cm = cur_ix & mask;
    assert(rb.subrange(prev as int, prev + shorter) =~= rb.subrange(prev as int, prev + len).subrange(0, shorter as int));
    assert(rb.subrange(cm as int, cm + shorter) =~= rb.subrange(cm as int, cm + len).subrange(0, shorter as int));
}

proof fn lemma_match_candidates_copy_equal_bytes(
    rb: Seq<u8>,
    mask: usize,
    cur_ix: usize,
    matches: Seq<u64>,
    num_matches: int,
    j: int,
    len: usize,
    max_distance: usize,
    max_zopfli: usize,
    inscode: int,
    params: BrotliEncoderParams,
)
    requires
        forall|i: int| 0 <= i < num_matches && match_distance(#[trigger] matches[i]) as usize <= max_distance
            ==> copies_equal_bytes(rb, mask, cur_ix, match_distance(matches[i]) as usize, match_length(matches[i])),
    ensures
        ({
            let r = match_candidates(matches, num_matches, j, len, max_distance, max_zopfli, inscode, params);
            forall|t: int| 0 <= t < r.len() && (#[trigger] r[t]).dist <= max_distance
                ==> copies_equal_bytes(rb, mask, cur_ix, r[t].dist, r[t].len)
        }),
    decreases num_matches - j,
{
    if 0 <= j < num_matches {
        let m = matches[j];
        let is_dictionary = match_distance(m) as usize > max_distance;
        let first = match_first_len(m, len, is_dictionary, max_zopfli);
        let mml = match_length(m);
        let lc = crate::backward_match::match_length_and_code(m);
        assert(lc >> 5u32 < 0x8000000u32) by (bit_vector);
        let run = Seq::new(
            if mml >= first { (mml - first + 1) as nat } else { 0 },
            |t: int| match_candidate(m, (first + t) as usize, is_dictionary, inscode, match_dist_symbol(m, params)),
        );
        let next = if mml >= first { (mml + 1) as usize } else { first };
        lemma_match_candidates_copy_equal_bytes(rb, mask, cur_ix, matches, num_matches, j + 1, next, max_distance,
            max_zopfli, inscode, params);
        let rest = match_candidates(matches, num_matches, j + 1, next, max_distance, max_zopfli, inscode, params);
        let r = match_candidates(matches, num_matches, j, len, max_distance, max_zopfli, inscode, params);
        assert(r == run + rest);
        assert forall|t: int| 0 <= t < r.len() && (#[trigger] r[t]).dist <= max_distance
            implies copies_equal_bytes(rb, mask, cur_ix, r[t].dist, r[t].len) by {
            if t < run.len() {
                assert(r[t] == run[t]);
                assert(r[t].len == first + t);
                lemma_copies_equal_bytes_prefix(rb, mask, cur_ix, match_distance(m) as usize, mml, r[t].len);
            } else {
                assert(r[t] == rest[t - run.len()]);
            }
        }
    }
}

/// Every command the search may record copies bytes that repeat the
/// current ones, unless it refers to the static dictionary (its distance
/// lies beyond `max_distance`, the reach of the window at `pos`); given that
/// the matches handed in do so, a last-distance candidate always does and is
/// never a dictionary reference.
pub proof fn lemma_node_candidates_copy_equal_bytes(
    num_bytes: usize,
    block_start: usize,
    pos: usize,
    ringbuffer: Seq<u8>,
    ringbuffer_mask: usize,
    params: BrotliEncoderParams,
    max_backward_limit: usize,
    posdata: PosData,
    k: usize,
    min_len: usize,
    num_matches: usize,
    matches: Seq<u64>,
)
    requires
        ringbuffer_mask + num_bytes.wrapping_sub(pos) <= ringbuffer.len(),
        forall|i: int| 0 <= i < num_matches
            && match_distance(#[trigger] matches[i]) as usize <= min_size(block_start.wrapping_add(pos), max_backward_limit)
            ==> copies_equal_bytes(ringbuffer, ringbuffer_mask, block_start.wrapping_add(pos),
                match_distance(matches[i]) as usize, match_length(matches[i])),
    ensures
        ({
            let cur_ix = block_start.wrapping_add(pos);
            let max_distance = min_size(cur_ix, max_backward_limit);
            let r = zopfli_candidates(num_bytes, block_start, pos, ringbuffer, ringbuffer_mask, params,
                max_backward_limit, posdata, k, min_len, num_matches, matches);
            &&& forall|t: int| 0 <= t < r.len() && (#[trigger] r[t]).dist <= max_distance
                ==> copies_equal_bytes(ringbuffer, ringbuffer_mask, cur_ix, r[t].dist, r[t].len)
            &&& forall|t: int| 0 <= t < r.len() && (#[trigger] r[t]).from_cache ==> r[t].dist <= max_distance
        }),
{
    let cur_ix = block_start.wrapping_add(pos);
    let max_distance = min_size(cur_ix, max_backward_limit);
    let max_len = num_bytes.wrapping_sub(pos);
    let inscode = insert_code(pos.wrapping_sub(posdata.pos) as int);
    let c = cache_candidates(ringbuffer, ringbuffer_mask, cur_ix, max_distance, max_len, posdata.distance_cache@, inscode, 0,
        (min_len - 1) as usize);
    let mc = if k < 2 {
        match_candidates(matches, num_matches as int, 0, min_len, max_distance, max_zopfli_len(params.quality), inscode, params)
    } else {
        seq![]
    };
    lemma_cache_candidates_match(ringbuffer, ringbuffer_mask, cur_ix, max_distance, max_len, posdata.distance_cache@,
        inscode, 0, (min_len - 1) as usize);
    lemma_cache_candidates_from_cache(ringbuffer, ringbuffer_mask, cur_ix, max_distance, max_len, posdata.distance_cache@,
        inscode, 0, (min_len - 1) as usize);
    if k < 2 {
        lemma_match_candidates_copy_equal_bytes(ringbuffer, ringbuffer_mask, cur_ix, matches, num_matches as int, 0, min_len,
            max_distance, max_zopfli_len(params.quality), inscode, params);
        lemma_match_candidates_not_from_cache(matches, num_matches as int, 0, min_len, max_distance,
            max_zopfli_len(params.quality), inscode, params);
    }
    let r = zopfli_candidates(num_bytes, block_start, pos, ringbuffer, ringbuffer_mask, params,
        max_backward_limit, posdata, k, min_len, num_matches, matches);
    assert(r == c + mc);
    assert forall|t: int| 0 <= t < r.len() && (#[trigger] r[t]).dist <= max_distance
        implies copies_equal_bytes(ringbuffer, ringbuffer_mask, cur_ix, r[t].dist, r[t].len) by {
        if t < c.len() {
            assert(r[t] == c[t]);
        } else {
            assert(r[t] == mc[t - c.len()]);
        }
    }
    assert forall|t: int| 0 <= t < r.len() && (#[trigger] r[t]).from_cache implies r[t].dist <= max_distance by {
        if t < c.len() {
            assert(r[t] == c[t]);
        } else {
            assert(r[t] == mc[t - c.len()]);
        }
    }
}

/// The smaller of two sizes.
pub open spec fn min_size(a: usize, b: usize) -> usize {
    if a < b { a } else { b }
}

proof fn lemma_cache_candidates_from_cache(
    rb: Seq<u8>,
    mask: usize,
    cur_ix: usize,
    max_distance: usize,
    max_len: usize,
    dc: Seq<i32>,
    inscode: int,
    j: int,
    best_len: usize,
)
    ensures
        forall|t: int| 0 <= t < cache_candidates(rb, mask, cur_ix, max_distance, max_len, dc, inscode, j, best_len).len()
            ==> (#[trigger] cache_candidates(rb, mask, cur_ix, max_distance, max_len, dc, inscode, j, best_len)[t]).from_cache,
    decreases 16 - j,
{
    if 0 <= j < 16 && best_len < max_len {
        let cm = cur_ix & mask;
        let backward = cache_backward(dc, j);
        let prev_ix = cur_ix.wrapping_sub(backward);
        let all = cache_candidates(rb, mask, cur_ix, max_distance, max_len, dc, inscode, j, best_len);
        if cm.wrapping_add(best_len) > mask {
            assert(all.len() == 0);
        } else if backward > max_distance || prev_ix >= cur_ix {
            lemma_cache_candidates_from_cache(rb, mask, cur_ix, max_distance, max_len, dc, inscode, j + 1, best_len);
            assert(all == cache_candidates(rb, mask, cur_ix, max_distance, max_len, dc, inscode, j + 1, best_len));
        } else {
            let prev = prev_ix & mask;
            if prev.wrapping_add(best_len) > mask || rb[(cm + best_len) as int] != rb[(prev + best_len) as int] {
                lemma_cache_candidates_from_cache(rb, mask, cur_ix, max_distance, max_len, dc, inscode, j + 1, best_len);
                assert(all == cache_candidates(rb, mask, cur_ix, max_distance, max_len, dc, inscode, j + 1, best_len));
            } else {
                let len = common_prefix(rb.subrange(prev as int, rb.len() as int), rb.subrange(cm as int, rb.len() as int), max_len as int);
                let next_best = if len > best_len { len as usize } else { best_len };
                lemma_cache_candidates_from_cache(rb, mask, cur_ix, max_distance, max_len, dc, inscode, j + 1, next_best);
                let run = cache_candidate_run(best_len + 1, len, backward, j, inscode);
                let rest = cache_candidates(rb, mask, cur_ix, max_distance, max_len, dc, inscode, j + 1, next_best);
                assert(all == run + rest);
                assert forall|t: int| 0 <= t < all.len() implies (#[trigger] all[t]).from_cache by {
                    if t >= run.len() {
                        assert(all[t] == rest[t - run.len()]);
                    } else {
                        assert(all[t] == run[t]);
                    }
                }
            }
        }
    }
}

proof fn lemma_match_candidates_not_from_cache(
    matches: Seq<u64>,
    num_matches: int,
    j: int,
    len: usize,
    max_distance: usize,
    max_zopfli: usize,
    inscode: int,
    params: BrotliEncoderParams,
)
    ensures
        forall|t: int| 0 <= t < match_candidates(matches, num_matches, j, len, max_distance, max_zopfli, inscode, params).len()
            ==> !(#[trigger] match_candidates(matches, num_matches, j, len, max_distance, max_zopfli, inscode, params)[t]).from_cache,
    decreases num_matches - j,
{
    if 0 <= j < num_matches {
        let m = matches[j];
        let is_dictionary = match_distance(m) as usize > max_distance;
        let first = match_first_len(m, len, is_dictionary, max_zopfli);
        let mml = match_length(m);
        let run = Seq::new(
            if mml >= first { (mml - first + 1) as nat } else { 0 },
            |t: int| match_candidate(m, (first + t) as usize, is_dictionary, inscode, match_dist_symbol(m, params)),
        );
        let next = if mml >= first { (mml + 1) as usize } else { first };
        lemma_match_candidates_not_from_cache(matches, num_matches, j + 1, next, max_distance, max_zopfli, inscode, params);
        let rest = match_candidates(matches, num_matches, j + 1, next, max_distance, max_zopfli, inscode, params);
        let r = match_candidates(matches, num_matches, j, len, max_distance, max_zopfli, inscode, params);
        assert(r == run + rest);
        assert forall|t: int| 0 <= t < r.len() implies !(#[trigger] r[t]).from_cache by {
            if t >= run.len() {
                assert(r[t] == rest[t - run.len()]);
            }
        }
    }
}

proof fn lemma_common_prefix(s1: Seq<u8>, s2: Seq<u8>, limit: int, i: int)
    requires
        0 <= i <= limit,
        limit <= s1.len(),
        limit <= s2.len(),
        s1.subrange(0, i) == s2.subrange(0, i),
    ensures
        i <= crate::matcher::common_prefix_from(s1, s2, limit, i) <= limit,
        s1.subrange(0, crate::matcher::common_prefix_from(s1, s2, limit, i))
            == s2.subrange(0, crate::matcher::common_prefix_from(s1, s2, limit, i)),
    decreases limit - i,
{
    if i < limit && s1[i] == s2[i] {
        assert(s1.subrange(0, i + 1) =~= s1.subrange(0, i).push(s1[i]));
        assert(s2.subrange(0, i + 1) =~= s2.subrange(0, i).push(s2[i]));
        lemma_common_prefix(s1, s2, limit, i + 1);
    }
}

/// The path cost a node carries (the bit pattern of a single-precision
/// value; 0, the pattern of 0.0, when its payload is not a cost).
pub open spec fn cost_of(n: ZopfliNode) -> u32 {
    match n.u {
        Union1::cost(c) => c,
        _ => 0,
    }
}

/// The nodes after node `pos` has been given its distance shortcut.
pub open spec fn with_shortcut(nodes: Seq<ZopfliNode>, block_start: usize, pos: usize, max_backward_limit: usize, gap: usize) -> Seq<ZopfliNode> {
    nodes.update(
        pos as int,
        ZopfliNode { u: Union1::shortcut(distance_shortcut(nodes, block_start, pos, max_backward_limit, gap)), ..nodes[pos as int] },
    )
}

/// Evaluates node `pos` as a start position: its payload becomes its
/// distance shortcut; then, when the caller found its cost no higher than
/// coding every byte before it as literals (`worth_starting`), it is pushed
/// onto the queue with its cost, the cost difference `costdiff` the caller
/// computed, and the distance cache there (see `distance_cache_at`).
pub fn EvaluateNode(
    block_start: usize,
    pos: usize,
    max_backward_limit: usize,
    gap: usize,
    starting_dist_cache: &[i32],
    queue: &mut StartPosQueue,
    nodes: &mut [ZopfliNode],
    worth_starting: bool,
    costdiff: u32,
)
    requires
        pos < old(nodes)@.len(),
        pos != 0 && !usable_as_last_distance(old(nodes)@, block_start, pos, max_backward_limit, gap)
            ==> command_start(old(nodes)@, pos) < old(nodes)@.len(),
        worth_starting ==> {
            let n1 = with_shortcut(old(nodes)@, block_start, pos, max_backward_limit, gap);
            &&& shortcut_chain_ok(n1, shortcut_of(n1[pos as int]) as usize, 4)
            &&& starting_dist_cache@.len() + shortcut_chain(n1, shortcut_of(n1[pos as int]) as usize, 4).len() >= 4
        },
    ensures
        final(nodes)@ == with_shortcut(old(nodes)@, block_start, pos, max_backward_limit, gap),
        !worth_starting ==> *final(queue) == *old(queue),
        worth_starting ==> exists|p: PosData| {
            &&& p.pos == pos
            &&& p.distance_cache@ == distance_cache_at(final(nodes)@, pos, starting_dist_cache@)
            &&& p.costdiff == costdiff
            &&& p.cost == cost_of(old(nodes)@[pos as int])
            &&& final(queue).idx_ == old(queue).idx_.wrapping_add(1)
            &&& queue_view(*final(queue)) == bubble_pass(
                (seq![p] + queue_view(*old(queue))).take(queue_size(old(queue).idx_.wrapping_add(1)) as int),
                0,
            )
        },
{
    let node_cost: u32 = match nodes[pos].u {
        Union1::cost(c) => c,
        _ => 0,
    };
    let shortcut: u32 = ComputeDistanceShortcut(block_start, pos, max_backward_limit, gap, nodes);
    nodes[pos].u = Union1::shortcut(shortcut);
    proof {
        assert(nodes@ =~= with_shortcut(old(nodes)@, block_start, pos, max_backward_limit, gap));
    }
    if worth_starting {
        let mut posdata = PosData { pos, distance_cache: [0i32; 4], costdiff, cost: node_cost };
        ComputeDistanceCache(pos, starting_dist_cache, nodes, &mut posdata.distance_cache);
        proof {
            assert(posdata.distance_cache@ =~= posdata.distance_cache@.subrange(0, 4));
        }
        StartPosQueuePush(queue, &posdata);
    }
}


/// Writing nodes past `index` (as `UpdateZopfliNode` does, past the position
/// it updates from) keeps the shortcuts on the path back from `index`.
pub proof fn lemma_shortcuts_consistent_frame(
    nodes: Seq<ZopfliNode>,
    n1: Seq<ZopfliNode>,
    block_start: usize,
    max_backward_limit: usize,
    gap: usize,
    index: int,
)
    requires
        shortcuts_consistent(nodes, block_start, max_backward_limit, gap, index),
        nodes.len() <= usize::MAX,
        n1.len() == nodes.len(),
        forall|i: int| 0 <= i <= index ==> #[trigger] n1[i] == nodes[i],
    ensures
        shortcuts_consistent(n1, block_start, max_backward_limit, gap, index),
    decreases index,
{
    if index > 0 {
        let cl = node_command_length(nodes[index]) as int;
        lemma_node_field_bounds(nodes[index]);
        assert(command_start(nodes, index as usize) == index - cl);
        assert(n1[index - cl] == nodes[index - cl]);
        lemma_shortcuts_consistent_frame(nodes, n1, block_start, max_backward_limit, gap, index - cl);
    }
}

/// Evaluating a node extends the shortcuts of its path: when the nodes on the
/// path back from where the command ending at `pos` starts carry the
/// shortcuts `EvaluateNode` gives them, then after `EvaluateNode` at `pos`
/// (see `with_shortcut`) so do the nodes on the path back from `pos`.
pub proof fn lemma_evaluate_node_extends_shortcuts(
    nodes: Seq<ZopfliNode>,
    block_start: usize,
    pos: usize,
    max_backward_limit: usize,
    gap: usize,
)
    requires
        pos < nodes.len() <= usize::MAX,
        pos > 0 ==> {
            let cl = node_command_length(nodes[pos as int]) as int;
            &&& 1 <= cl <= pos
            &&& shortcuts_consistent(nodes, block_start, max_backward_limit, gap, pos - cl)
        },
    ensures
        shortcuts_consistent(with_shortcut(nodes, block_start, pos, max_backward_limit, gap), block_start,
            max_backward_limit, gap, pos as int),
{
    let n1 = with_shortcut(nodes, block_start, pos, max_backward_limit, gap);
    if pos > 0 {
        let cl = node_command_length(nodes[pos as int]) as int;
        lemma_node_field_bounds(nodes[pos as int]);
        assert(command_start(nodes, pos) == pos - cl);
        assert(node_command_length(n1[pos as int]) == node_command_length(nodes[pos as int]));
        assert(command_start(n1, pos) == command_start(nodes, pos));
        assert(n1[pos - cl] == nodes[pos - cl]);
        assert(distance_shortcut(n1, block_start, pos, max_backward_limit, gap)
            == distance_shortcut(nodes, block_start, pos, max_backward_limit, gap));
        lemma_shortcuts_consistent_frame(nodes, n1, block_start, max_backward_limit, gap, pos - cl);
    }
}


/// The inputs the search hands `EvaluateNode` meet its requirements: in
/// nodes kept as the search keeps them (see `search_nodes_ok`), the command
/// ending at any node starts inside the array, and a node worth starting
/// from whose path back carries the shortcuts `EvaluateNode` gives gets a
/// shortcut chain inside the array, given a starting cache of four entries.
pub proof fn lemma_evaluate_node_inputs_ok(
    nodes: Seq<ZopfliNode>,
    dist: crate::command::BrotliDistanceParams,
    block_start: usize,
    pos: usize,
    max_backward_limit: usize,
    gap: usize,
    starting_dist_cache: Seq<i32>,
    worth_starting: bool,
)
    requires
        search_nodes_ok(nodes, dist),
        pos < nodes.len() <= usize::MAX,
        pos < 0x100000000,
        worth_starting ==> starting_dist_cache.len() >= 4,
        worth_starting && pos > 0 ==> shortcuts_consistent(nodes, block_start, max_backward_limit, gap,
            pos - node_command_length(nodes[pos as int])),
    ensures
        pos != 0 && !usable_as_last_distance(nodes, block_start, pos, max_backward_limit, gap)
            ==> command_start(nodes, pos) < nodes.len(),
        worth_starting ==> {
            let n1 = with_shortcut(nodes, block_start, pos, max_backward_limit, gap);
            &&& shortcut_chain_ok(n1, shortcut_of(n1[pos as int]) as usize, 4)
            &&& starting_dist_cache.len() + shortcut_chain(n1, shortcut_of(n1[pos as int]) as usize, 4).len() >= 4
        },
{
    lemma_node_field_bounds(nodes[pos as int]);
    if pos > 0 {
        let n = nodes[pos as int];
        if is_unreached(n) {
            let l = n.length;
            assert(l & 0x1ffffff == 1) by (bit_vector)
                requires l == 1u32;
        }
        assert(1 <= node_command_length(n) <= pos);
        assert(command_start(nodes, pos) == pos - node_command_length(n));
    }
    if worth_starting {
        lemma_evaluate_node_extends_shortcuts(nodes, block_start, pos, max_backward_limit, gap);
        let n1 = with_shortcut(nodes, block_start, pos, max_backward_limit, gap);
        lemma_consistent_shortcut_chain_ok(n1, block_start, max_backward_limit, gap, pos as int, 4);
    }
}


/// The distance code of an explicit distance `dist` (the distance plus 15)
/// can be split into prefix code and extra bits.
pub open spec fn explicit_distance_codable(dist: usize, params: BrotliEncoderParams) -> bool {
    let code = dist.wrapping_add(16).wrapping_sub(1);
    code >= 16usize.wrapping_add(params.dist.num_direct_distance_codes as usize) ==> prefix_dist(
        code,
        params.dist.num_direct_distance_codes as usize,
        params.dist.distance_postfix_bits as u64,
    ) >= 2
}

/// What every candidate brings to the node it may be recorded at: a copy of
/// at least 2 bytes with a length code of at least 2, and either a
/// last-distance code (short code 1 to 16) or an explicit distance whose code
/// can be split.
pub open spec fn candidate_codable(c: NodeCandidate, params: BrotliEncoderParams) -> bool {
    &&& c.len >= 2
    &&& c.len_code >= 2
    &&& c.short_code <= 16
    &&& c.short_code == 0 ==> explicit_distance_codable(c.dist, params)
}

proof fn lemma_cache_candidates_codable(
    rb: Seq<u8>,
    mask: usize,
    cur_ix: usize,
    max_distance: usize,
    max_len: usize,
    dc: Seq<i32>,
    inscode: int,
    j: int,
    best_len: usize,
    params: BrotliEncoderParams,
)
    requires
        0 <= j,
        best_len >= 1,
    ensures
        forall|t: int| 0 <= t < cache_candidates(rb, mask, cur_ix, max_distance, max_len, dc, inscode, j, best_len).len()
            ==> candidate_codable(#[trigger] cache_candidates(rb, mask, cur_ix, max_distance, max_len, dc, inscode, j, best_len)[t], params),
    decreases 16 - j,
{
    if j < 16 && best_len < max_len {
        let cm = cur_ix & mask;
        let backward = cache_backward(dc, j);
        let prev_ix = cur_ix.wrapping_sub(backward);
        let all = cache_candidates(rb, mask, cur_ix, max_distance, max_len, dc, inscode, j, best_len);
        if cm.wrapping_add(best_len) > mask {
            assert(all.len() == 0);
        } else if backward > max_distance || prev_ix >= cur_ix {
            lemma_cache_candidates_codable(rb, mask, cur_ix, max_distance, max_len, dc, inscode, j + 1, best_len, params);
            assert(all == cache_candidates(rb, mask, cur_ix, max_distance, max_len, dc, inscode, j + 1, best_len));
        } else {
            let prev = prev_ix & mask;
            if prev.wrapping_add(best_len) > mask || rb[(cm + best_len) as int] != rb[(prev + best_len) as int] {
                lemma_cache_candidates_codable(rb, mask, cur_ix, max_distance, max_len, dc, inscode, j + 1, best_len, params);
                assert(all == cache_candidates(rb, mask, cur_ix, max_distance, max_len, dc, inscode, j + 1, best_len));
            } else {
                let len = common_prefix(rb.subrange(prev as int, rb.len() as int), rb.subrange(cm as int, rb.len() as int), max_len as int);
                lemma_common_prefix_range(rb.subrange(prev as int, rb.len() as int), rb.subrange(cm as int, rb.len() as int), max_len as int, 0);
                let next_best = if len > best_len { len as usize } else { best_len };
                lemma_cache_candidates_codable(rb, mask, cur_ix, max_distance, max_len, dc, inscode, j + 1, next_best, params);
                let run = cache_candidate_run(best_len + 1, len, backward, j, inscode);
                let rest = cache_candidates(rb, mask, cur_ix, max_distance, max_len, dc, inscode, j + 1, next_best);
                assert(all == run + rest);
                assert forall|t: int| 0 <= t < all.len() implies candidate_codable(#[trigger] all[t], params) by {
                    if t >= run.len() {
                        assert(all[t] == rest[t - run.len()]);
                    } else {
                        assert(all[t] == run[t]);
                    }
                }
            }
        }
    }
}

proof fn lemma_match_candidates_codable(
    matches: Seq<u64>,
    num_matches: int,
    j: int,
    len: usize,
    max_distance: usize,
    max_zopfli: usize,
    inscode: int,
    params: BrotliEncoderParams,
)
    requires
        0 <= j,
        len >= 2,
        match_entries_ok(matches, num_matches, params),
    ensures
        forall|t: int| 0 <= t < match_candidates(matches, num_matches, j, len, max_distance, max_zopfli, inscode, params).len()
            ==> candidate_codable(#[trigger] match_candidates(matches, num_matches, j, len, max_distance, max_zopfli, inscode, params)[t], params),
    decreases num_matches - j,
{
    if j < num_matches {
        let m = matches[j];
        let is_dictionary = match_distance(m) as usize > max_distance;
        let first = match_first_len(m, len, is_dictionary, max_zopfli);
        let mml = match_length(m);
        let lc = crate::backward_match::match_length_and_code(m);
        assert(lc >> 5u32 < 0x8000000u32) by (bit_vector);
        let run = Seq::new(
            if mml >= first { (mml - first + 1) as nat } else { 0 },
            |t: int| match_candidate(m, (first + t) as usize, is_dictionary, inscode, match_dist_symbol(m, params)),
        );
        let next = if mml >= first { (mml + 1) as usize } else { first };
        lemma_match_candidates_codable(matches, num_matches, j + 1, next, max_distance, max_zopfli, inscode, params);
        let rest = match_candidates(matches, num_matches, j + 1, next, max_distance, max_zopfli, inscode, params);
        let r = match_candidates(matches, num_matches, j, len, max_distance, max_zopfli, inscode, params);
        assert(r == run + rest);
        assert(match_length_code(m) >= 2);
        assert forall|t: int| 0 <= t < r.len() implies candidate_codable(#[trigger] r[t], params) by {
            if t >= run.len() {
                assert(r[t] == rest[t - run.len()]);
            } else {
                assert(r[t] == run[t]);
                assert(r[t].len == first + t);
            }
        }
    }
}

/// Every command the search tries can be coded (see `candidate_codable`).
pub proof fn lemma_node_candidates_codable(
    num_bytes: usize,
    block_start: usize,
    pos: usize,
    ringbuffer: Seq<u8>,
    ringbuffer_mask: usize,
    params: BrotliEncoderParams,
    max_backward_limit: usize,
    posdata: PosData,
    k: usize,
    min_len: usize,
    num_matches: usize,
    matches: Seq<u64>,
)
    requires
        min_len >= 2,
        k < 2 ==> match_entries_ok(matches, num_matches as int, params),
    ensures
        forall|t: int| 0 <= t < zopfli_candidates(num_bytes, block_start, pos, ringbuffer, ringbuffer_mask, params,
            max_backward_limit, posdata, k, min_len, num_matches, matches).len() ==> candidate_codable(
            #[trigger] zopfli_candidates(num_bytes, block_start, pos, ringbuffer, ringbuffer_mask, params,
                max_backward_limit, posdata, k, min_len, num_matches, matches)[t], params),
{
    let cur_ix = block_start.wrapping_add(pos);
    let max_distance = if cur_ix < max_backward_limit { cur_ix } else { max_backward_limit };
    let max_len = num_bytes.wrapping_sub(pos);
    let inscode = insert_code(pos.wrapping_sub(posdata.pos) as int);
    let c = cache_candidates(ringbuffer, ringbuffer_mask, cur_ix, max_distance, max_len, posdata.distance_cache@, inscode, 0,
        (min_len - 1) as usize);
    let mc = if k < 2 {
        match_candidates(matches, num_matches as int, 0, min_len, max_distance, max_zopfli_len(params.quality), inscode, params)
    } else {
        seq![]
    };
    lemma_cache_candidates_codable(ringbuffer, ringbuffer_mask, cur_ix, max_distance, max_len, posdata.distance_cache@,
        inscode, 0, (min_len - 1) as usize, params);
    if k < 2 {
        lemma_match_candidates_codable(matches, num_matches as int, 0, min_len, max_distance,
            max_zopfli_len(params.quality), inscode, params);
    }
    let r = zopfli_candidates(num_bytes, block_start, pos, ringbuffer, ringbuffer_mask, params,
        max_backward_limit, posdata, k, min_len, num_matches, matches);
    assert(r == c + mc);
    assert forall|t: int| 0 <= t < r.len() implies candidate_codable(#[trigger] r[t], params) by {
        if t < c.len() {
            assert(r[t] == c[t]);
        } else {
            assert(r[t] == mc[t - c.len()]);
        }
    }
}

/// Recording a candidate the search tries keeps the nodes as the search
/// keeps them (see `search_nodes_ok`): when the candidate `c` starts from a
/// reached node `start_pos` no later than `pos`, fits the node fields, and
/// its distance plus 15 fits 32 bits, writing it at node `pos + c.len` as
/// `UpdateZopfliNode` does leaves every reached node's command going back to
/// a reached node and codable.
pub proof fn lemma_candidate_update_keeps_search_ok(
    nodes: Seq<ZopfliNode>,
    params: BrotliEncoderParams,
    c: NodeCandidate,
    pos: usize,
    start_pos: usize,
    cost: u32,
)
    requires
        search_nodes_ok(nodes, params.dist),
        candidate_codable(c, params),
        params.dist.distance_postfix_bits < 32,
        params.dist.num_direct_distance_codes <= 120,
        pos + c.len < nodes.len(),
        start_pos <= pos,
        pos - start_pos < 0x8000000,
        !is_unreached(nodes[start_pos as int]),
        c.len < 0x2000000,
        c.len_code <= c.len + 9,
        c.len + 9 - c.len_code < 128,
        c.dist + 16 <= 0x100000000,
    ensures
        search_nodes_ok(
            nodes.update(pos + c.len, updated_node(pos, start_pos, c.len, c.len_code, c.dist, c.short_code, cost)),
            params.dist,
        ),
{
    let n = updated_node(pos, start_pos, c.len, c.len_code, c.dist, c.short_code, cost);
    lemma_update_node_read_back(pos, start_pos, c.len, c.len_code, c.dist, c.short_code, cost);
    let code = node_distance_code(n) as usize;
    if c.short_code == 0 {
        assert(code == c.dist.wrapping_add(16).wrapping_sub(1));
    } else {
        assert(code < 16);
    }
    lemma_updated_node_codable(pos, start_pos, c.len, c.len_code, c.dist, c.short_code, cost, params.dist);
    lemma_update_keeps_search_ok(nodes, params.dist, pos, start_pos, c.len, c.len_code, c.dist, c.short_code, cost);
}


proof fn lemma_cache_candidates_name_their_code(
    rb: Seq<u8>,
    mask: usize,
    cur_ix: usize,
    max_distance: usize,
    max_len: usize,
    dc: Seq<i32>,
    inscode: int,
    j: int,
    best_len: usize,
)
    requires
        0 <= j,
    ensures
        forall|t: int| 0 <= t < cache_candidates(rb, mask, cur_ix, max_distance, max_len, dc, inscode, j, best_len).len() ==> {
            let c = #[trigger] cache_candidates(rb, mask, cur_ix, max_distance, max_len, dc, inscode, j, best_len)[t];
            &&& j + 1 <= c.short_code <= 16
            &&& c.cost_dist_index == c.short_code - 1
            &&& cache_backward(dc, c.short_code - 1) == c.dist
            &&& c.len == c.len_code
            &&& c.from_cache
        },
    decreases 16 - j,
{
    if j < 16 && best_len < max_len {
        let cm = cur_ix & mask;
        let backward = cache_backward(dc, j);
        let prev_ix = cur_ix.wrapping_sub(backward);
        let all = cache_candidates(rb, mask, cur_ix, max_distance, max_len, dc, inscode, j, best_len);
        if cm.wrapping_add(best_len) > mask {
            assert(all.len() == 0);
        } else if backward > max_distance || prev_ix >= cur_ix {
            lemma_cache_candidates_name_their_code(rb, mask, cur_ix, max_distance, max_len, dc, inscode, j + 1, best_len);
            assert(all == cache_candidates(rb, mask, cur_ix, max_distance, max_len, dc, inscode, j + 1, best_len));
        } else {
            let prev = prev_ix & mask;
            if prev.wrapping_add(best_len) > mask || rb[(cm + best_len) as int] != rb[(prev + best_len) as int] {
                lemma_cache_candidates_name_their_code(rb, mask, cur_ix, max_distance, max_len, dc, inscode, j + 1, best_len);
                assert(all == cache_candidates(rb, mask, cur_ix, max_distance, max_len, dc, inscode, j + 1, best_len));
            } else {
                let len = common_prefix(rb.subrange(prev as int, rb.len() as int), rb.subrange(cm as int, rb.len() as int), max_len as int);
                let next_best = if len > best_len { len as usize } else { best_len };
                lemma_cache_candidates_name_their_code(rb, mask, cur_ix, max_distance, max_len, dc, inscode, j + 1, next_best);
                let run = cache_candidate_run(best_len + 1, len, backward, j, inscode);
                let rest = cache_candidates(rb, mask, cur_ix, max_distance, max_len, dc, inscode, j + 1, next_best);
                assert(all == run + rest);
                assert forall|t: int| 0 <= t < all.len() implies {
                    let c = #[trigger] all[t];
                    &&& j + 1 <= c.short_code <= 16
                    &&& c.cost_dist_index == c.short_code - 1
                    &&& cache_backward(dc, c.short_code - 1) == c.dist
                    &&& c.len == c.len_code
                    &&& c.from_cache
                } by {
                    if t >= run.len() {
                        assert(all[t] == rest[t - run.len()]);
                    } else {
                        assert(all[t] == run[t]);
                    }
                }
            }
        }
    }
}

/// Every last-distance candidate names the last-distance code it came from:
/// its short code is that code plus one (1 to 16), and the distance that code
/// stands for in the start position's distance cache (the cache entry the
/// code picks plus the code's offset) is exactly the candidate's distance;
/// so a decoder that reads distance code `short_code - 1` against that cache
/// copies from the candidate's distance. Its distance cost is that of the
/// same code, and its length code is its length.
pub proof fn lemma_cache_candidates_decode_to_their_distance(
    num_bytes: usize,
    block_start: usize,
    pos: usize,
    ringbuffer: Seq<u8>,
    ringbuffer_mask: usize,
    params: BrotliEncoderParams,
    max_backward_limit: usize,
    posdata: PosData,
    k: usize,
    min_len: usize,
    num_matches: usize,
    matches: Seq<u64>,
)
    ensures
        forall|t: int| 0 <= t < zopfli_candidates(num_bytes, block_start, pos, ringbuffer, ringbuffer_mask, params,
            max_backward_limit, posdata, k, min_len, num_matches, matches).len() ==> {
            let c = #[trigger] zopfli_candidates(num_bytes, block_start, pos, ringbuffer, ringbuffer_mask, params,
                max_backward_limit, posdata, k, min_len, num_matches, matches)[t];
            c.from_cache ==> {
                &&& 1 <= c.short_code <= 16
                &&& c.cost_dist_index == c.short_code - 1
                &&& c.len == c.len_code
                &&& c.dist == ((posdata.distance_cache@[distance_cache_index()[c.short_code - 1] as int] as int
                    + distance_cache_offset()[c.short_code - 1]) as i32) as usize
            }
        },
{
    let cur_ix = block_start.wrapping_add(pos);
    let max_distance = if cur_ix < max_backward_limit { cur_ix } else { max_backward_limit };
    let max_len = num_bytes.wrapping_sub(pos);
    let inscode = insert_code(pos.wrapping_sub(posdata.pos) as int);
    let c = cache_candidates(ringbuffer, ringbuffer_mask, cur_ix, max_distance, max_len, posdata.distance_cache@, inscode, 0,
        (min_len - 1) as usize);
    let mc = if k < 2 {
        match_candidates(matches, num_matches as int, 0, min_len, max_distance, max_zopfli_len(params.quality), inscode, params)
    } else {
        seq![]
    };
    lemma_cache_candidates_name_their_code(ringbuffer, ringbuffer_mask, cur_ix, max_distance, max_len,
        posdata.distance_cache@, inscode, 0, (min_len - 1) as usize);
    if k < 2 {
        lemma_match_candidates_not_from_cache(matches, num_matches as int, 0, min_len, max_distance,
            max_zopfli_len(params.quality), inscode, params);
    }
    let r = zopfli_candidates(num_bytes, block_start, pos, ringbuffer, ringbuffer_mask, params,
        max_backward_limit, posdata, k, min_len, num_matches, matches);
    assert(r == c + mc);
    assert forall|t: int| 0 <= t < r.len() implies {
        let cand = #[trigger] r[t];
        cand.from_cache ==> {
            &&& 1 <= cand.short_code <= 16
            &&& cand.cost_dist_index == cand.short_code - 1
            &&& cand.len == cand.len_code
            &&& cand.dist == ((posdata.distance_cache@[distance_cache_index()[cand.short_code - 1] as int] as int
                + distance_cache_offset()[cand.short_code - 1]) as i32) as usize
        }
    } by {
        if t < c.len() {
            assert(r[t] == c[t]);
        } else {
            assert(r[t] == mc[t - c.len()]);
        }
    }
}

} // verus!
