use vstd::prelude::*;
use crate::command::BrotliEncoderParams;
use crate::backward_match::{
    BackwardMatch, InitBackwardMatch, InitDictionaryBackwardMatch, backward_match_of, dictionary_match_of, match_distance,
    match_length, lemma_backward_match_read_back, lemma_dictionary_match_read_back,
};
use crate::util::{brotli_max_size_t, brotli_min_size_t};

verus! {

/// Longest match (in bytes) the search follows byte by byte: 150 up to
/// quality 10, 325 above.
pub open spec fn max_zopfli_len(quality: i32) -> usize {
    if quality <= 10 { 150 } else { 325 }
}

/// Longest match the search follows byte by byte (see `max_zopfli_len`).
pub fn MaxZopfliLen(params: &BrotliEncoderParams) -> (r: usize)
    ensures
        r == max_zopfli_len(params.quality),
{
    (if params.quality <= 10i32 { 150i32 } else { 325i32 }) as usize
}

/// Number of start positions whose distance cache the search tries: 1 up to
/// quality 10, 5 above.
pub fn MaxZopfliCandidates(params: &BrotliEncoderParams) -> (r: usize)
    ensures
        r == (if params.quality <= 10 { 1usize } else { 5usize }),
{
    (if params.quality <= 10i32 { 1i32 } else { 5i32 }) as usize
}

/// Number of bytes the binary-tree hasher looks ahead of a position.
pub fn StoreLookaheadH10() -> (r: usize)
    ensures
        r == 128,
{
    128usize
}

/// Multiplier of the 32-bit multiplicative hash.
pub const K_HASH_MUL32: u32 = 0x1e35a7bd;

/// The first four bytes of `s` read as a little-endian 32-bit value.
pub open spec fn load32_le(s: Seq<u8>) -> u32 {
    (s[0] as int + 0x100 * s[1] + 0x10000 * s[2] + 0x1000000 * s[3]) as u32
}

/// The 17-bit hash of the first four bytes of `s`: their little-endian value
/// times `K_HASH_MUL32` modulo 2^32, shifted right by 15.
pub open spec fn hash_bytes_h10(s: Seq<u8>) -> u32 {
    load32_le(s).wrapping_mul(K_HASH_MUL32) >> 15u32
}

/// The 17-bit hash of the first four bytes of `data` (see `hash_bytes_h10`).
pub fn HashBytesH10(data: &[u8]) -> (r: u32)
    requires
        data@.len() >= 4,
    ensures
        r == hash_bytes_h10(data@),
        r < 0x20000,
{
    let b0: u32 = data[0] as u32;
    let b1: u32 = data[1] as u32;
    let b2: u32 = data[2] as u32;
    let b3: u32 = data[3] as u32;
    let v: u32 = b0 | (b1 << 8u32) | (b2 << 16u32) | (b3 << 24u32);
    proof {
        assert(v == b0 + 0x100 * b1 + 0x10000 * b2 + 0x1000000 * b3) by (bit_vector)
            requires
                b0 < 256, b1 < 256, b2 < 256, b3 < 256,
                v == b0 | (b1 << 8u32) | (b2 << 16u32) | (b3 << 24u32);
    }
    let h: u32 = v.wrapping_mul(K_HASH_MUL32);
    proof {
        assert(h >> 15u32 < 0x20000) by (bit_vector);
    }
    h >> 15u32
}

/// Number of equal leading bytes of `s1` and `s2` from index `i` on, up to
/// index `limit`: the first index `>= i` where they differ, or `limit`.
pub open spec fn common_prefix_from(s1: Seq<u8>, s2: Seq<u8>, limit: int, i: int) -> int
    decreases limit - i,
{
    if i >= limit || s1[i] != s2[i] {
        i
    } else {
        common_prefix_from(s1, s2, limit, i + 1)
    }
}

/// Length of the common prefix of `s1` and `s2`, at most `limit`.
pub open spec fn common_prefix(s1: Seq<u8>, s2: Seq<u8>, limit: int) -> int {
    common_prefix_from(s1, s2, limit, 0)
}

/// Number of equal leading bytes of `s1` and `s2`, at most `limit`: the
/// first `r` bytes agree, and the next one differs unless `r == limit`.
pub fn FindMatchLengthWithLimit(s1: &[u8], s2: &[u8], limit: usize) -> (r: usize)
    requires
        limit <= s1@.len(),
        limit <= s2@.len(),
    ensures
        r == common_prefix(s1@, s2@, limit as int),
        r <= limit,
        s1@.subrange(0, r as int) == s2@.subrange(0, r as int),
        r < limit ==> s1@[r as int] != s2@[r as int],
{
    let mut i: usize = 0;
    while i < limit
        invariant
            i <= limit,
            limit <= s1@.len(),
            limit <= s2@.len(),
            s1@.subrange(0, i as int) == s2@.subrange(0, i as int),
            common_prefix(s1@, s2@, limit as int) == common_prefix_from(s1@, s2@, limit as int, i as int),
        decreases limit - i,
    {
        if s1[i] != s2[i] {
            return i;
        }
        proof {
            assert(s1@.subrange(0, i + 1) =~= s1@.subrange(0, i as int).push(s1@[i as int]));
            assert(s2@.subrange(0, i + 1) =~= s2@.subrange(0, i as int).push(s2@[i as int]));
        }
        i = i + 1;
    }
    limit
}

/// Marks a length for which the static dictionary has no word.
pub const K_INVALID_MATCH: u32 = 0xfffffff;

/// Longest static dictionary word.
pub const BROTLI_MAX_STATIC_DICTIONARY_MATCH_LEN: usize = 37;

/// How far back the short-range scan looks: 16 bytes, 64 at quality 11.
pub open spec fn short_match_max_backward(quality: i32) -> usize {
    if quality != 11 { 16 } else { 64 }
}

/// The position above which the short-range scan stops.
pub open spec fn short_scan_stop(cur_ix: usize, quality: i32) -> usize {
    if cur_ix < short_match_max_backward(quality) {
        0
    } else {
        (cur_ix - short_match_max_backward(quality)) as usize
    }
}

/// Result of the short-range scan from position `i` down: the best length so
/// far and the matches recorded, each strictly longer than the one before.
/// The scan goes back one position at a time while the best length is at
/// most 2 and the distance is within `max_backward`; a position whose first
/// two bytes agree with the current ones gives a match of their common length
/// (at most `max_length`), recorded when longer than the best so far.
pub open spec fn short_scan(
    data: Seq<u8>,
    ring_buffer_mask: usize,
    cur_ix: usize,
    max_length: usize,
    max_backward: usize,
    stop: usize,
    i: usize,
    best_len: usize,
    found: Seq<u64>,
) -> (usize, Seq<u64>)
    decreases i,
{
    if !(i > stop && best_len <= 2) {
        (best_len, found)
    } else {
        let backward = cur_ix.wrapping_sub(i);
        let prev = i & ring_buffer_mask;
        let cm = cur_ix & ring_buffer_mask;
        if backward > max_backward {
            (best_len, found)
        } else if data[cm as int] != data[prev as int] || data[cm + 1] != data[prev + 1] {
            short_scan(data, ring_buffer_mask, cur_ix, max_length, max_backward, stop, (i - 1) as usize, best_len, found)
        } else {
            let len = common_prefix(data.subrange(prev as int, data.len() as int), data.subrange(cm as int, data.len() as int), max_length as int);
            if len > best_len {
                short_scan(data, ring_buffer_mask, cur_ix, max_length, max_backward, stop, (i - 1) as usize, len as usize,
                    found.push(backward_match_of(backward, len as usize)))
            } else {
                short_scan(data, ring_buffer_mask, cur_ix, max_length, max_backward, stop, (i - 1) as usize, best_len, found)
            }
        }
    }
}

/// The ring buffer holds what the short-range scan from position `i` down
/// reads: `max_length` bytes after each position it compares in full (one
/// whose first two bytes agree with the current ones) and after the current
/// position, whenever there is such a position.
pub open spec fn short_scan_fits(
    data: Seq<u8>,
    ring_buffer_mask: usize,
    cur_ix: usize,
    max_length: usize,
    max_backward: usize,
    stop: usize,
    i: usize,
    best_len: usize,
) -> bool
    decreases i,
{
    if !(i > stop && best_len <= 2) {
        true
    } else {
        let backward = cur_ix.wrapping_sub(i);
        let prev = i & ring_buffer_mask;
        let cm = cur_ix & ring_buffer_mask;
        if backward > max_backward {
            true
        } else if data[cm as int] != data[prev as int] || data[cm + 1] != data[prev + 1] {
            short_scan_fits(data, ring_buffer_mask, cur_ix, max_length, max_backward, stop, (i - 1) as usize, best_len)
        } else {
            let len = common_prefix(data.subrange(prev as int, data.len() as int), data.subrange(cm as int, data.len() as int), max_length as int);
            &&& prev + max_length <= data.len()
            &&& cm + max_length <= data.len()
            &&& short_scan_fits(data, ring_buffer_mask, cur_ix, max_length, max_backward, stop, (i - 1) as usize,
                if len > best_len { len as usize } else { best_len })
        }
    }
}

/// The ring buffer holds what the short-range scan at `cur_ix` reads (see
/// `short_scan_fits`).
pub open spec fn short_scan_fits_at(
    data: Seq<u8>,
    ring_buffer_mask: usize,
    cur_ix: usize,
    max_length: usize,
    max_backward: usize,
    quality: i32,
) -> bool {
    short_scan_fits(data, ring_buffer_mask, cur_ix, max_length, max_backward, short_scan_stop(cur_ix, quality),
        cur_ix.wrapping_sub(1), 1)
}

/// The short-range scan at `cur_ix`, starting one byte back with best
/// length 1.
pub open spec fn short_scan_at(
    data: Seq<u8>,
    ring_buffer_mask: usize,
    cur_ix: usize,
    max_length: usize,
    max_backward: usize,
    quality: i32,
) -> (usize, Seq<u64>) {
    short_scan(data, ring_buffer_mask, cur_ix, max_length, max_backward, short_scan_stop(cur_ix, quality),
        cur_ix.wrapping_sub(1), 1, seq![])
}

/// The static dictionary matches kept from the dictionary's answer `words`
/// (one entry per length, `K_INVALID_MATCH` for none), lengths `l` to
/// `maxlen`: a word whose distance (beyond the window `max_backward + gap`)
/// is at most `max_distance` gives a match of length `l` with the word's
/// copy length code.
pub open spec fn dictionary_scan(
    words: Seq<u32>,
    l: int,
    maxlen: int,
    max_backward: usize,
    gap: usize,
    max_distance: usize,
) -> Seq<u64>
    decreases maxlen + 1 - l,
{
    if l > maxlen {
        seq![]
    } else {
        let dict_id = words[l];
        let rest = dictionary_scan(words, l + 1, maxlen, max_backward, gap, max_distance);
        if dict_id < K_INVALID_MATCH {
            let distance = max_backward.wrapping_add(gap).wrapping_add((dict_id >> 5u32) as usize).wrapping_add(1);
            if distance <= max_distance {
                seq![dictionary_match_of(distance, l as usize, (dict_id & 31) as usize)] + rest
            } else {
                rest
            }
        } else {
            rest
        }
    }
}

/// The static dictionary matches come out in strictly increasing length,
/// each from `l` to `maxlen` bytes long, and each points beyond the window:
/// farther back than `max_backward + gap`, and no farther than
/// `max_distance`.
pub proof fn lemma_dictionary_matches_beyond_window(
    words: Seq<u32>,
    l: int,
    maxlen: int,
    max_backward: usize,
    gap: usize,
    max_distance: usize,
)
    requires
        0 <= l,
        maxlen < words.len(),
        maxlen <= BROTLI_MAX_STATIC_DICTIONARY_MATCH_LEN,
        max_distance < 0x100000000,
        max_backward + gap + 0x800000 <= usize::MAX,
    ensures
        ({
            let r = dictionary_scan(words, l, maxlen, max_backward, gap, max_distance);
            &&& forall|k: int| 0 <= k < r.len() ==> l <= #[trigger] match_length(r[k]) <= maxlen
            &&& forall|k: int| 0 < k < r.len() ==> match_length(r[k - 1]) < #[trigger] match_length(r[k])
            &&& forall|k: int| 0 <= k < r.len() ==> max_backward + gap < #[trigger] match_distance(r[k]) <= max_distance
        }),
    decreases maxlen + 1 - l,
{
    if l <= maxlen {
        lemma_dictionary_matches_beyond_window(words, l + 1, maxlen, max_backward, gap, max_distance);
        let dict_id = words[l];
        let r = dictionary_scan(words, l, maxlen, max_backward, gap, max_distance);
        let rest = dictionary_scan(words, l + 1, maxlen, max_backward, gap, max_distance);
        if dict_id < K_INVALID_MATCH {
            let id_dist = (dict_id >> 5u32) as usize;
            assert(id_dist < 0x800000) by (bit_vector)
                requires dict_id < 0xfffffffu32, id_dist == (dict_id >> 5u32) as usize;
            let distance = max_backward.wrapping_add(gap).wrapping_add(id_dist).wrapping_add(1);
            assert(distance == max_backward + gap + id_dist + 1);
            if distance <= max_distance {
                let code = (dict_id & 31) as usize;
                assert(code < 32) by (bit_vector)
                    requires code == (dict_id & 31u32) as usize;
                lemma_dictionary_match_read_back(distance, l as usize, code);
                let m = dictionary_match_of(distance, l as usize, code);
                assert(r == seq![m] + rest);
                assert forall|k: int| 0 < k < r.len() implies match_length(r[k - 1]) < #[trigger] match_length(r[k]) by {
                    assert(r[k] == rest[k - 1]);
                    if k >= 2 {
                        assert(r[k - 1] == rest[k - 2]);
                    }
                }
                assert forall|k: int| 0 <= k < r.len() implies l <= #[trigger] match_length(r[k]) <= maxlen by {
                    if k > 0 {
                        assert(r[k] == rest[k - 1]);
                    }
                }
                assert forall|k: int| 0 <= k < r.len() implies max_backward + gap < #[trigger] match_distance(r[k]) <= max_distance by {
                    if k > 0 {
                        assert(r[k] == rest[k - 1]);
                    }
                }
            } else {
                assert(r == rest);
            }
        } else {
            assert(r == rest);
        }
    }
}

/// What the match search at one position asks its caller to do next.
#[derive(Clone, Copy, Debug, PartialEq, Eq)]
pub enum MatchSearchRequest {
    /// Run the binary-tree search at the position for matches longer than
    /// `best_len`, storing them from `matches[offset]` on.
    TreeSearch { best_len: usize, offset: usize },
    /// Look the position up in the static dictionary for lengths `min_len`
    /// and up; the matches so far end at `offset`.
    DictionarySearch { min_len: usize, offset: usize },
    /// The search is complete; `count` matches were stored.
    Done { count: usize },
}

/// What the caller hands back to the match search.
#[derive(Clone, Debug)]
pub enum MatchSearchEvent {
    /// Start the search at the position.
    Start,
    /// The tree search ended with best length `best_len`; the matches now end
    /// at `offset`.
    TreeSearched { best_len: usize, offset: usize },
    /// The dictionary answered for lengths from `min_len` (`found` tells
    /// whether it has any word; `words[l]` is the coded word of length `l`, or
    /// `K_INVALID_MATCH`); the matches so far end at `offset`.
    DictionarySearched { found: bool, words: Vec<u32>, min_len: usize, offset: usize },
}

/// The dictionary request that follows a best length of `best_len`.
pub open spec fn dictionary_request(best_len: usize, offset: usize) -> MatchSearchRequest {
    MatchSearchRequest::DictionarySearch {
        min_len: if 4 > best_len.wrapping_add(1) { 4 } else { best_len.wrapping_add(1) },
        offset,
    }
}

/// The decisions of the search for all matches at position `cur_ix`: the
/// short-range scan, then (when it found no match of `max_length`) the
/// binary-tree search, then the static dictionary, each outside step done by
/// the caller when asked.
///
/// On `Start` the short-range scan (see `short_scan_at`) stores its matches
/// at the front of `matches`, then the tree search is asked for if the best
/// length is below `max_length`, else the dictionary. After the tree search
/// the dictionary is asked for with minimum length `max(4, best_len + 1)`.
/// After the dictionary, its words up to length `min(37, max_length)` that
/// lie within `params.dist.max_distance` are stored after the others (see
/// `dictionary_scan`) and the total count is reported.
pub fn FindAllMatchesH10(
    event: MatchSearchEvent,
    data: &[u8],
    ring_buffer_mask: usize,
    cur_ix: usize,
    max_length: usize,
    max_backward: usize,
    gap: usize,
    params: &BrotliEncoderParams,
    matches: &mut [u64],
) -> (r: MatchSearchRequest)
    requires
        match event {
            MatchSearchEvent::Start => {
                &&& ring_buffer_mask + 2 <= data@.len()
                &&& short_scan_fits_at(data@, ring_buffer_mask, cur_ix, max_length, max_backward, params.quality)
                &&& short_scan_at(data@, ring_buffer_mask, cur_ix, max_length, max_backward, params.quality).1.len()
                    <= old(matches)@.len()
            },
            MatchSearchEvent::TreeSearched { best_len, offset } => true,
            MatchSearchEvent::DictionarySearched { found, words, min_len, offset } => {
                &&& words@.len() > BROTLI_MAX_STATIC_DICTIONARY_MATCH_LEN
                &&& offset <= old(matches)@.len()
                &&& found ==> offset + dictionary_scan(words@, min_len as int,
                    if max_length < 37 { max_length as int } else { 37 }, max_backward, gap, params.dist.max_distance).len()
                    <= old(matches)@.len()
            },
        },
    ensures
        match event {
            MatchSearchEvent::Start => {
                let (best, found) = short_scan_at(data@, ring_buffer_mask, cur_ix, max_length, max_backward, params.quality);
                &&& final(matches)@ == found + old(matches)@.subrange(found.len() as int, old(matches)@.len() as int)
                &&& r == (if best < max_length {
                    MatchSearchRequest::TreeSearch { best_len: best, offset: found.len() as usize }
                } else {
                    dictionary_request(best, found.len() as usize)
                })
            },
            MatchSearchEvent::TreeSearched { best_len, offset } => {
                &&& final(matches)@ == old(matches)@
                &&& r == dictionary_request(best_len, offset)
            },
            MatchSearchEvent::DictionarySearched { found, words, min_len, offset } => {
                let kept = if found {
                    dictionary_scan(words@, min_len as int, if max_length < 37 { max_length as int } else { 37 },
                        max_backward, gap, params.dist.max_distance)
                } else {
                    seq![]
                };
                &&& final(matches)@ == old(matches)@.subrange(0, offset as int) + kept
                    + old(matches)@.subrange(offset + kept.len(), old(matches)@.len() as int)
                &&& r == (MatchSearchRequest::Done { count: (offset + kept.len()) as usize })
            },
        },
{
    match event {
        MatchSearchEvent::Start => {
            let (best_len, count) = ShortRangeMatches(data, ring_buffer_mask, cur_ix, max_length, max_backward, params, matches);
            if best_len < max_length {
                MatchSearchRequest::TreeSearch { best_len, offset: count }
            } else {
                MatchSearchRequest::DictionarySearch { min_len: brotli_max_size_t(4usize, best_len.wrapping_add(1usize)), offset: count }
            }
        },
        MatchSearchEvent::TreeSearched { best_len, offset } => {
            MatchSearchRequest::DictionarySearch { min_len: brotli_max_size_t(4usize, best_len.wrapping_add(1usize)), offset }
        },
        MatchSearchEvent::DictionarySearched { found, words, min_len, offset } => {
            if found {
                let count = DictionaryMatches(&words, min_len, max_length, max_backward, gap, params, matches, offset);
                MatchSearchRequest::Done { count }
            } else {
                proof {
                    assert(old(matches)@.subrange(0, offset as int) + seq![]
                        + old(matches)@.subrange(offset as int, old(matches)@.len() as int) =~= old(matches)@);
                }
                MatchSearchRequest::Done { count: offset }
            }
        },
    }
}

/// The short-range scan of `FindAllMatchesH10` (see `short_scan_at`): stores
/// the matches it finds at the front of `matches` and returns the best length
/// and the number of matches.
fn ShortRangeMatches(
    data: &[u8],
    ring_buffer_mask: usize,
    cur_ix: usize,
    max_length: usize,
    max_backward: usize,
    params: &BrotliEncoderParams,
    matches: &mut [u64],
) -> (r: (usize, usize))
    requires
        ring_buffer_mask + 2 <= data@.len(),
        short_scan_fits_at(data@, ring_buffer_mask, cur_ix, max_length, max_backward, params.quality),
        short_scan_at(data@, ring_buffer_mask, cur_ix, max_length, max_backward, params.quality).1.len()
            <= old(matches)@.len(),
    ensures
        ({
            let (best, found) = short_scan_at(data@, ring_buffer_mask, cur_ix, max_length, max_backward, params.quality);
            &&& r.0 == best
            &&& r.1 == found.len()
            &&& final(matches)@ == found + old(matches)@.subrange(found.len() as int, old(matches)@.len() as int)
        }),
{
    let cur_ix_masked: usize = cur_ix & ring_buffer_mask;
    let mut best_len: usize = 1;
    let short_match_max_backward: usize = (if params.quality != 11i32 { 16i32 } else { 64i32 }) as usize;
    let mut stop: usize = cur_ix.wrapping_sub(short_match_max_backward);
    if cur_ix < short_match_max_backward {
        stop = 0;
    }
    let mut i: usize = cur_ix.wrapping_sub(1);
    let mut count: usize = 0;
    let ghost total = short_scan_at(data@, ring_buffer_mask, cur_ix, max_length, max_backward, params.quality);
    proof {
        assert(cur_ix_masked <= ring_buffer_mask) by (bit_vector)
            requires cur_ix_masked == cur_ix & ring_buffer_mask;
        assert(matches@.subrange(0, 0) =~= Seq::<u64>::empty());
    }
    while i > stop && best_len <= 2
        invariant
            ring_buffer_mask + 2 <= data@.len(),
            short_scan_fits(data@, ring_buffer_mask, cur_ix, max_length, max_backward, stop, i, best_len),
            cur_ix_masked == cur_ix & ring_buffer_mask,
            cur_ix_masked <= ring_buffer_mask,
            stop == short_scan_stop(cur_ix, params.quality),
            total == short_scan_at(data@, ring_buffer_mask, cur_ix, max_length, max_backward, params.quality),
            total.1.len() <= old(matches)@.len(),
            matches@.len() == old(matches)@.len(),
            count <= total.1.len(),
            total == short_scan(data@, ring_buffer_mask, cur_ix, max_length, max_backward, stop, i, best_len,
                matches@.subrange(0, count as int)),
            forall|j: int| count <= j < matches@.len() ==> #[trigger] matches@[j] == old(matches)@[j],
        ensures
            total.0 == best_len,
            total.1 == matches@.subrange(0, count as int),
            count <= matches@.len(),
            matches@.len() == old(matches)@.len(),
            forall|j: int| count <= j < matches@.len() ==> #[trigger] matches@[j] == old(matches)@[j],
        decreases i,
    {
        let prev_ix0: usize = i;
        let backward: usize = cur_ix.wrapping_sub(prev_ix0);
        if backward > max_backward {
            break;
        }
        let prev_ix: usize = prev_ix0 & ring_buffer_mask;
        proof {
            assert(prev_ix <= ring_buffer_mask) by (bit_vector)
                requires prev_ix == prev_ix0 & ring_buffer_mask;
        }
        if data[cur_ix_masked] != data[prev_ix] || data[cur_ix_masked + 1] != data[prev_ix + 1] {
            i = i - 1;
            continue;
        }
        let len: usize = FindMatchLengthWithLimit(
            slice_from(data, prev_ix),
            slice_from(data, cur_ix_masked),
            max_length,
        );
        if len > best_len {
            best_len = len;
            let ghost before = matches@;
            proof {
                lemma_short_scan_grows(data@, ring_buffer_mask, cur_ix, max_length, max_backward, stop, (i - 1) as usize,
                    len, before.subrange(0, count as int).push(backward_match_of(backward, len)));
            }
            let mut m = BackwardMatch(0);
            InitBackwardMatch(&mut m, backward, len);
            matches[count] = m.0;
            count = count + 1;
            proof {
                assert(matches@.subrange(0, count as int) =~= before.subrange(0, count - 1).push(backward_match_of(backward, len)));
            }
        }
        i = i - 1;
    }
    proof {
        assert(matches@ =~= total.1 + old(matches)@.subrange(count as int, old(matches)@.len() as int)) by {
            assert forall|j: int| 0 <= j < count implies matches@[j] == total.1[j] by {
                assert(matches@[j] == matches@.subrange(0, count as int)[j]);
            }
        }
    }
    (best_len, count)
}

/// The short-range scan only appends to the matches it was given.
proof fn lemma_short_scan_grows(
    data: Seq<u8>,
    ring_buffer_mask: usize,
    cur_ix: usize,
    max_length: usize,
    max_backward: usize,
    stop: usize,
    i: usize,
    best_len: usize,
    found: Seq<u64>,
)
    ensures
        short_scan(data, ring_buffer_mask, cur_ix, max_length, max_backward, stop, i, best_len, found).1.len() >= found.len(),
    decreases i,
{
    if i > stop && best_len <= 2 {
        let backward = cur_ix.wrapping_sub(i);
        let prev = i & ring_buffer_mask;
        let cm = cur_ix & ring_buffer_mask;
        if backward <= max_backward {
            if data[cm as int] != data[prev as int] || data[cm + 1] != data[prev + 1] {
                lemma_short_scan_grows(data, ring_buffer_mask, cur_ix, max_length, max_backward, stop, (i - 1) as usize, best_len, found);
            } else {
                let len = common_prefix(data.subrange(prev as int, data.len() as int), data.subrange(cm as int, data.len() as int), max_length as int);
                if len > best_len {
                    lemma_short_scan_grows(data, ring_buffer_mask, cur_ix, max_length, max_backward, stop, (i - 1) as usize,
                        len as usize, found.push(backward_match_of(backward, len as usize)));
                } else {
                    lemma_short_scan_grows(data, ring_buffer_mask, cur_ix, max_length, max_backward, stop, (i - 1) as usize, best_len, found);
                }
            }
        }
    }
}

/// The bytes of `data` from index `start` on.
fn slice_from(data: &[u8], start: usize) -> (r: &[u8])
    requires
        start <= data@.len(),
    ensures
        r@ == data@.subrange(start as int, data@.len() as int),
{
    let (_head, tail) = data.split_at(start);
    tail
}

/// The dictionary step of `FindAllMatchesH10` (see `dictionary_scan`):
/// stores the kept dictionary matches from `matches[offset]` on and returns
/// the new end of the matches.
fn DictionaryMatches(
    words: &Vec<u32>,
    min_len: usize,
    max_length: usize,
    max_backward: usize,
    gap: usize,
    params: &BrotliEncoderParams,
    matches: &mut [u64],
    offset: usize,
) -> (r: usize)
    requires
        words@.len() > BROTLI_MAX_STATIC_DICTIONARY_MATCH_LEN,
        offset + dictionary_scan(words@, min_len as int, if max_length < 37 { max_length as int } else { 37 },
            max_backward, gap, params.dist.max_distance).len() <= old(matches)@.len(),
    ensures
        ({
            let kept = dictionary_scan(words@, min_len as int, if max_length < 37 { max_length as int } else { 37 },
                max_backward, gap, params.dist.max_distance);
            &&& r == offset + kept.len()
            &&& final(matches)@ == old(matches)@.subrange(0, offset as int) + kept
                + old(matches)@.subrange(offset + kept.len(), old(matches)@.len() as int)
        }),
{
    let maxlen: usize = brotli_min_size_t(37usize, max_length);
    let ghost kept = dictionary_scan(words@, min_len as int, maxlen as int, max_backward, gap, params.dist.max_distance);
    let mut l: usize = min_len;
    let mut count: usize = offset;
    if l > maxlen {
        proof {
            assert(old(matches)@.subrange(0, offset as int) + kept
                + old(matches)@.subrange(offset + kept.len(), old(matches)@.len() as int) =~= old(matches)@);
        }
        return count;
    }
    while l <= maxlen
        invariant
            min_len <= l <= maxlen + 1,
            maxlen <= 37,
            words@.len() > 37,
            kept == dictionary_scan(words@, min_len as int, maxlen as int, max_backward, gap, params.dist.max_distance),
            offset + kept.len() <= old(matches)@.len(),
            matches@.len() == old(matches)@.len(),
            offset <= count <= offset + kept.len(),
            dictionary_scan(words@, l as int, maxlen as int, max_backward, gap, params.dist.max_distance)
                == kept.subrange(count - offset, kept.len() as int),
            forall|j: int| offset <= j < count ==> #[trigger] matches@[j] == kept[j - offset],
            forall|j: int| 0 <= j < offset ==> #[trigger] matches@[j] == old(matches)@[j],
            forall|j: int| count <= j < matches@.len() ==> #[trigger] matches@[j] == old(matches)@[j],
        decreases maxlen + 1 - l,
    {
        let dict_id: u32 = words[l];
        let ghost rest = dictionary_scan(words@, l + 1, maxlen as int, max_backward, gap, params.dist.max_distance);
        let ghost cur = dictionary_scan(words@, l as int, maxlen as int, max_backward, gap, params.dist.max_distance);
        if dict_id < K_INVALID_MATCH {
            let distance: usize = max_backward.wrapping_add(gap).wrapping_add((dict_id >> 5u32) as usize).wrapping_add(1usize);
            if distance <= params.dist.max_distance {
                let mut m = BackwardMatch(0);
                InitDictionaryBackwardMatch(&mut m, distance, l, (dict_id & 31u32) as usize);
                proof {
                    assert(cur == seq![m.0] + rest);
                    assert(kept.subrange(count - offset, kept.len() as int)[0] == m.0);
                    assert(rest =~= cur.subrange(1, cur.len() as int));
                    assert(rest =~= kept.subrange(count - offset + 1, kept.len() as int));
                }
                matches[count] = m.0;
                count = count + 1;
            } else {
                proof {
                    assert(cur == rest);
                }
            }
        } else {
            proof {
                assert(cur == rest);
            }
        }
        l = l + 1;
    }
    proof {
        assert(count - offset == kept.len());
        assert(matches@ =~= old(matches)@.subrange(0, offset as int) + kept
            + old(matches)@.subrange(offset + kept.len(), old(matches)@.len() as int));
    }
    count
}

/// Distance kept free at the end of the window.
pub const BROTLI_WINDOW_GAP: usize = 16;

/// The stores that join a new block to the previous one in the binary-tree
/// hasher: when the block has at least `hash_type_length - 1` bytes and at
/// least `max_tree_comp_length >= 1` bytes precede it, each of the last
/// `max_tree_comp_length - 1` positions before the block, from
/// `position - max_tree_comp_length + 1` up to (not including) `position`
/// (and not past the end of the block), paired with its largest backward
/// distance, the window mask minus the larger of `BROTLI_WINDOW_GAP - 1` and
/// its distance to `position`. Otherwise there is nothing to store.
pub open spec fn stitch_stores(
    window_mask: usize,
    hash_type_length: usize,
    max_tree_comp_length: usize,
    num_bytes: usize,
    position: usize,
) -> Seq<(usize, usize)> {
    if num_bytes >= hash_type_length - 1 && position >= max_tree_comp_length && max_tree_comp_length >= 1 {
        let i_start = (position - max_tree_comp_length + 1) as usize;
        let i_end = if position < i_start + num_bytes { position } else { (i_start + num_bytes) as usize };
        Seq::new(
            if i_end > i_start { (i_end - i_start) as nat } else { 0 },
            |k: int| {
                let i = (i_start + k) as usize;
                let d = (position - i) as usize;
                (i, (window_mask - (if BROTLI_WINDOW_GAP - 1 > d { (BROTLI_WINDOW_GAP - 1) as usize } else { d })) as usize)
            },
        )
    } else {
        seq![]
    }
}

/// The stores (position, largest backward distance) that join a new block to
/// the previous one in the binary-tree hasher, in the order they are made
/// (see `stitch_stores`); the caller runs each store on the hasher. Every
/// largest backward distance stays within the window: at most the window
/// mask minus `BROTLI_WINDOW_GAP - 1`.
pub fn StitchToPreviousBlockH10(
    window_mask: usize,
    hash_type_length: usize,
    max_tree_comp_length: usize,
    num_bytes: usize,
    position: usize,
) -> (r: Vec<(usize, usize)>)
    requires
        hash_type_length >= 1,
        (num_bytes >= hash_type_length - 1 && position >= max_tree_comp_length && num_bytes > 0
            && max_tree_comp_length > 1) ==> window_mask >= BROTLI_WINDOW_GAP - 1 && window_mask >= max_tree_comp_length - 1,
    ensures
        r@ == stitch_stores(window_mask, hash_type_length, max_tree_comp_length, num_bytes, position),
        forall|k: int| 0 <= k < r@.len() ==> (#[trigger] r@[k]).1 <= window_mask - (BROTLI_WINDOW_GAP - 1),
{
    let mut stores: Vec<(usize, usize)> = Vec::new();
    if num_bytes >= hash_type_length - 1 && position >= max_tree_comp_length && max_tree_comp_length >= 1 {
        let i_start: usize = position - max_tree_comp_length + 1;
        let i_end: usize = if num_bytes < position - i_start { i_start + num_bytes } else { position };
        let ghost target = stitch_stores(window_mask, hash_type_length, max_tree_comp_length, num_bytes, position);
        let mut i: usize = i_start;
        while i < i_end
            invariant
                i_start <= i,
                i_start == position - max_tree_comp_length + 1,
                i_end <= position,
                i_start < i_end ==> i <= i_end,
                i_start >= i_end ==> i == i_start,
                i_start < i_end ==> window_mask >= BROTLI_WINDOW_GAP - 1 && window_mask >= max_tree_comp_length - 1,
                i_end == (if position < i_start + num_bytes { position } else { (i_start + num_bytes) as usize }),
                target == stitch_stores(window_mask, hash_type_length, max_tree_comp_length, num_bytes, position),
                num_bytes >= hash_type_length - 1 && position >= max_tree_comp_length && max_tree_comp_length >= 1,
                stores@.len() == i - i_start,
                forall|k: int| 0 <= k < stores@.len() ==> #[trigger] stores@[k] == target[k],
                forall|k: int| 0 <= k < stores@.len() ==> (#[trigger] stores@[k]).1 <= window_mask - (BROTLI_WINDOW_GAP - 1),
            decreases i_end - i,
        {
            let d: usize = position - i;
            let max_backward: usize = window_mask - brotli_max_size_t(BROTLI_WINDOW_GAP - 1, d);
            stores.push((i, max_backward));
            i = i + 1;
        }
        proof {
            assert(stores@ =~= target);
        }
    } else {
        proof {
            assert(stores@ =~= seq![]);
        }
    }
    stores
}

/// A copy of `len` bytes from `dist` back at `cur_ix` repeats the bytes
/// there: in the ring buffer, the `len` bytes `dist` back equal the `len`
/// bytes at the current position.
pub open spec fn copies_equal_bytes(data: Seq<u8>, ring_buffer_mask: usize, cur_ix: usize, dist: usize, len: usize) -> bool {
    let prev = cur_ix.wrapping_sub(dist) & ring_buffer_mask;
    let cm = cur_ix & ring_buffer_mask;
    &&& prev + len <= data.len()
    &&& cm + len <= data.len()
    &&& data.subrange(prev as int, prev + len) == data.subrange(cm as int, cm + len)
}

/// A packed match is a true match at `cur_ix`: its distance is within
/// `max_backward`, its length within `max_length`, and its bytes repeat the
/// current ones (see `copies_equal_bytes`).
pub open spec fn is_true_match(data: Seq<u8>, ring_buffer_mask: usize, cur_ix: usize, max_backward: usize, max_length: usize, m: u64) -> bool {
    &&& match_distance(m) as usize <= max_backward
    &&& match_length(m) <= max_length
    &&& copies_equal_bytes(data, ring_buffer_mask, cur_ix, match_distance(m) as usize, match_length(m))
}

proof fn lemma_prefix_equal(s1: Seq<u8>, s2: Seq<u8>, limit: int, i: int)
    requires
        0 <= i <= limit,
        limit <= s1.len(),
        limit <= s2.len(),
        s1.subrange(0, i) == s2.subrange(0, i),
    ensures
        i <= common_prefix_from(s1, s2, limit, i) <= limit,
        s1.subrange(0, common_prefix_from(s1, s2, limit, i)) == s2.subrange(0, common_prefix_from(s1, s2, limit, i)),
    decreases limit - i,
{
    if i < limit && s1[i] == s2[i] {
        assert(s1.subrange(0, i + 1) =~= s1.subrange(0, i).push(s1[i]));
        assert(s2.subrange(0, i + 1) =~= s2.subrange(0, i).push(s2[i]));
        lemma_prefix_equal(s1, s2, limit, i + 1);
    }
}

/// The short-range scan records only true matches, each strictly longer
/// than the one before it and than the starting best length; the best
/// length it ends with is that of its last match.
pub proof fn lemma_short_scan_true_matches(
    data: Seq<u8>,
    ring_buffer_mask: usize,
    cur_ix: usize,
    max_length: usize,
    max_backward: usize,
    stop: usize,
    i: usize,
    best_len: usize,
    found: Seq<u64>,
)
    requires
        ring_buffer_mask + 2 <= data.len(),
        short_scan_fits(data, ring_buffer_mask, cur_ix, max_length, max_backward, stop, i, best_len),
        max_backward < 0x100000000,
        max_length < 0x8000000,
    ensures
        ({
            let (b, r) = short_scan(data, ring_buffer_mask, cur_ix, max_length, max_backward, stop, i, best_len, found);
            &&& r.len() >= found.len()
            &&& r.subrange(0, found.len() as int) == found
            &&& b >= best_len
            &&& forall|k: int| found.len() <= k < r.len() ==> is_true_match(data, ring_buffer_mask, cur_ix, max_backward, max_length, #[trigger] r[k])
            &&& forall|k: int| found.len() <= k < r.len() ==> match_length(#[trigger] r[k]) > best_len
            &&& forall|k: int| found.len() < k < r.len() ==> match_length(r[k - 1]) < match_length(#[trigger] r[k])
            &&& r.len() > found.len() ==> match_length(r.last()) == b
            &&& r.len() == found.len() ==> b == best_len
        }),
    decreases i,
{
    if i > stop && best_len <= 2 {
        let backward = cur_ix.wrapping_sub(i);
        let prev = i & ring_buffer_mask;
        let cm = cur_ix & ring_buffer_mask;
        assert(prev <= ring_buffer_mask) by (bit_vector)
            requires prev == i & ring_buffer_mask;
        assert(cm <= ring_buffer_mask) by (bit_vector)
            requires cm == cur_ix & ring_buffer_mask;
        if backward <= max_backward {
            if data[cm as int] != data[prev as int] || data[cm + 1] != data[prev + 1] {
                lemma_short_scan_true_matches(data, ring_buffer_mask, cur_ix, max_length, max_backward, stop, (i - 1) as usize, best_len, found);
            } else {
                let s1 = data.subrange(prev as int, data.len() as int);
                let s2 = data.subrange(cm as int, data.len() as int);
                let len = common_prefix(s1, s2, max_length as int);
                assert(s1.subrange(0, 0) =~= s2.subrange(0, 0));
                lemma_prefix_equal(s1, s2, max_length as int, 0);
                if len > best_len {
                    let m = backward_match_of(backward, len as usize);
                    lemma_backward_match_read_back(backward, len as usize);
                    let found2 = found.push(m);
                    lemma_short_scan_true_matches(data, ring_buffer_mask, cur_ix, max_length, max_backward, stop, (i - 1) as usize,
                        len as usize, found2);
                    let (b, r) = short_scan(data, ring_buffer_mask, cur_ix, max_length, max_backward, stop, (i - 1) as usize, len as usize, found2);
                    assert(r.subrange(0, found.len() as int) =~= r.subrange(0, found2.len() as int).subrange(0, found.len() as int));
                    assert(r[found.len() as int] == m) by {
                        assert(r.subrange(0, found2.len() as int)[found.len() as int] == r[found.len() as int]);
                    }
                    assert(cur_ix.wrapping_sub(backward) == i);
                    assert(data.subrange(prev as int, prev + len) =~= s1.subrange(0, len));
                    assert(data.subrange(cm as int, cm + len) =~= s2.subrange(0, len));
                    assert(is_true_match(data, ring_buffer_mask, cur_ix, max_backward, max_length, m));
                } else {
                    lemma_short_scan_true_matches(data, ring_buffer_mask, cur_ix, max_length, max_backward, stop, (i - 1) as usize, best_len, found);
                }
            }
        }
    }
}


/// How many leading bytes position `i` shares with position `cur_ix` in the
/// ring buffer, at most `max_length`.
pub open spec fn shared_length(data: Seq<u8>, ring_buffer_mask: usize, cur_ix: usize, i: usize, max_length: usize) -> int {
    let prev = i & ring_buffer_mask;
    let cm = cur_ix & ring_buffer_mask;
    common_prefix(data.subrange(prev as int, data.len() as int), data.subrange(cm as int, data.len() as int), max_length as int)
}

/// The common prefix from `i` on lies between `i` and `limit`.
pub(crate) proof fn lemma_common_prefix_range(s1: Seq<u8>, s2: Seq<u8>, limit: int, i: int)
    requires
        0 <= i <= limit,
    ensures
        i <= common_prefix_from(s1, s2, limit, i) <= limit,
    decreases limit - i,
{
    if i < limit && s1[i] == s2[i] {
        lemma_common_prefix_range(s1, s2, limit, i + 1);
    }
}

proof fn lemma_common_prefix_agrees(s1: Seq<u8>, s2: Seq<u8>, limit: int, i: int, k: int)
    requires
        0 <= i <= k < common_prefix_from(s1, s2, limit, i),
    ensures
        s1[k] == s2[k],
    decreases limit - i,
{
    if i < limit && s1[i] == s2[i] {
        if k > i {
            lemma_common_prefix_agrees(s1, s2, limit, i + 1, k);
        }
    }
}

proof fn lemma_short_scan_reaches(
    data: Seq<u8>,
    ring_buffer_mask: usize,
    cur_ix: usize,
    max_length: usize,
    max_backward: usize,
    stop: usize,
    j: usize,
    best_len: usize,
    found: Seq<u64>,
    i: usize,
)
    requires
        ring_buffer_mask + 2 <= data.len(),
        stop < i <= j < cur_ix,
        best_len <= 2,
        cur_ix - i <= max_backward,
        shared_length(data, ring_buffer_mask, cur_ix, i, max_length) >= 3,
        forall|i2: usize| i < i2 <= j ==> #[trigger] shared_length(data, ring_buffer_mask, cur_ix, i2, max_length) < 3,
    ensures
        ({
            let (b, r) = short_scan(data, ring_buffer_mask, cur_ix, max_length, max_backward, stop, j, best_len, found);
            let len = shared_length(data, ring_buffer_mask, cur_ix, i, max_length);
            &&& b == len
            &&& r.len() >= 1
            &&& r.last() == backward_match_of((cur_ix - i) as usize, len as usize)
        }),
    decreases j - i,
{
    let backward = cur_ix.wrapping_sub(j);
    let prev = j & ring_buffer_mask;
    let cm = cur_ix & ring_buffer_mask;
    assert(prev <= ring_buffer_mask) by (bit_vector)
        requires prev == j & ring_buffer_mask;
    assert(cm <= ring_buffer_mask) by (bit_vector)
        requires cm == cur_ix & ring_buffer_mask;
    let s1 = data.subrange(prev as int, data.len() as int);
    let s2 = data.subrange(cm as int, data.len() as int);
    let len = common_prefix(s1, s2, max_length as int);
    assert(backward == cur_ix - j);
    lemma_common_prefix_range(s1, s2, max_length as int, 0);
    if j == i {
        lemma_common_prefix_agrees(s1, s2, max_length as int, 0, 0);
        lemma_common_prefix_agrees(s1, s2, max_length as int, 0, 1);
        assert(s1[0] == data[prev as int] && s1[1] == data[prev + 1]);
        assert(s2[0] == data[cm as int] && s2[1] == data[cm + 1]);
        let m = backward_match_of(backward, len as usize);
        let f2 = found.push(m);
        assert(short_scan(data, ring_buffer_mask, cur_ix, max_length, max_backward, stop, (j - 1) as usize, len as usize, f2)
            == (len as usize, f2));
    } else {
        let j1 = (j - 1) as usize;
        if data[cm as int] != data[prev as int] || data[cm + 1] != data[prev + 1] {
            lemma_short_scan_reaches(data, ring_buffer_mask, cur_ix, max_length, max_backward, stop, j1, best_len, found, i);
        } else {
            assert(shared_length(data, ring_buffer_mask, cur_ix, j, max_length) < 3);
            if len > best_len {
                lemma_short_scan_reaches(data, ring_buffer_mask, cur_ix, max_length, max_backward, stop, j1, len as usize,
                    found.push(backward_match_of(backward, len as usize)), i);
            } else {
                lemma_short_scan_reaches(data, ring_buffer_mask, cur_ix, max_length, max_backward, stop, j1, best_len, found, i);
            }
        }
    }
}

/// The short-range scan finds the nearest long repeat: it looks back 64
/// bytes at quality 11 and 16 bytes otherwise (not before position 1), and
/// when a position `i` in that range and within `max_backward` shares at
/// least 3 leading bytes with `cur_ix` while no position between them does,
/// the scan ends with a best length of their whole common length (at most
/// `max_length`) and its last match copies that length from distance
/// `cur_ix - i`.
pub proof fn lemma_short_scan_finds_nearest_repeat(
    data: Seq<u8>,
    ring_buffer_mask: usize,
    cur_ix: usize,
    max_length: usize,
    max_backward: usize,
    quality: i32,
    i: usize,
)
    requires
        ring_buffer_mask + 2 <= data.len(),
        i < cur_ix,
        quality == 11 ==> i + 64 > cur_ix,
        quality != 11 ==> i + 16 > cur_ix,
        i >= 1,
        cur_ix - i <= max_backward,
        shared_length(data, ring_buffer_mask, cur_ix, i, max_length) >= 3,
        forall|i2: usize| i < i2 < cur_ix ==> #[trigger] shared_length(data, ring_buffer_mask, cur_ix, i2, max_length) < 3,
    ensures
        ({
            let (b, r) = short_scan_at(data, ring_buffer_mask, cur_ix, max_length, max_backward, quality);
            let len = shared_length(data, ring_buffer_mask, cur_ix, i, max_length);
            &&& b == len
            &&& r.len() >= 1
            &&& r.last() == backward_match_of((cur_ix - i) as usize, len as usize)
        }),
{
    let stop = short_scan_stop(cur_ix, quality);
    assert(stop < i);
    lemma_short_scan_reaches(data, ring_buffer_mask, cur_ix, max_length, max_backward, stop, (cur_ix - 1) as usize, 1,
        seq![], i);
}

} // verus!
