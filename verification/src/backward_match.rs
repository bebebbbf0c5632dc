use vstd::prelude::*;

verus! {

/// A candidate match packed in 64 bits: the distance in the low 32 bits, and
/// in the high 32 bits the length shifted left by 5 with, in the low 5 bits,
/// the copy length code when it differs from the length (0 otherwise).
#[derive(Clone, Copy, Debug)]
pub struct BackwardMatch(pub u64);

/// Distance of a packed match: the low 32 bits.
pub open spec fn match_distance(m: u64) -> u32 {
    (m & 0xffffffff) as u32
}

/// Length-and-code word of a packed match: the high 32 bits.
pub open spec fn match_length_and_code(m: u64) -> u32 {
    (m >> 32u64) as u32
}

/// The packed match with distance `dist` and length-and-code word `lc`.
pub open spec fn pack_match(dist: u32, lc: u32) -> u64 {
    (dist as u64) | ((lc as u64) << 32u64)
}

/// Length of a packed match.
pub open spec fn match_length(m: u64) -> usize {
    (match_length_and_code(m) >> 5u32) as usize
}

/// Copy length code of a packed match: its code bits, or its length when they
/// are 0.
pub open spec fn match_length_code(m: u64) -> usize {
    let code = (match_length_and_code(m) & 31) as usize;
    if code != 0 {
        code
    } else {
        match_length(m)
    }
}

impl BackwardMatch {
    /// Distance of the match.
    pub fn distance(&self) -> (r: u32)
        ensures
            r == match_distance(self.0),
    {
        (self.0 & 0xffffffffu64) as u32
    }

    /// Length-and-code word of the match.
    pub fn length_and_code(&self) -> (r: u32)
        ensures
            r == match_length_and_code(self.0),
    {
        (self.0 >> 32u64) as u32
    }
}

/// The packed match for a match found in the data: distance `dist`, length
/// `len`, copy length code equal to the length.
pub open spec fn backward_match_of(dist: usize, len: usize) -> u64 {
    pack_match(dist as u32, (len << 5usize) as u32)
}

/// The packed match for a static dictionary word: distance `dist`, length
/// `len` and copy length code `len_code` (stored as 0 when equal to `len`).
pub open spec fn dictionary_match_of(dist: usize, len: usize, len_code: usize) -> u64 {
    pack_match(dist as u32, ((len << 5usize) | (if len == len_code { 0usize } else { len_code })) as u32)
}

/// Fills a match found in the data (see `backward_match_of`).
pub fn InitBackwardMatch(xself: &mut BackwardMatch, dist: usize, len: usize)
    ensures
        final(xself).0 == backward_match_of(dist, len),
{
    let lc: u32 = (len << 5usize) as u32;
    xself.0 = (dist as u32 as u64) | ((lc as u64) << 32u64);
}

/// Fills a static dictionary match (see `dictionary_match_of`).
pub fn InitDictionaryBackwardMatch(xself: &mut BackwardMatch, dist: usize, len: usize, len_code: usize)
    ensures
        final(xself).0 == dictionary_match_of(dist, len, len_code),
{
    let lc: u32 = ((len << 5usize) | (if len == len_code { 0usize } else { len_code })) as u32;
    xself.0 = (dist as u32 as u64) | ((lc as u64) << 32u64);
}

/// Length of a match.
pub fn BackwardMatchLength(xself: &BackwardMatch) -> (r: usize)
    ensures
        r == match_length(xself.0),
{
    (xself.length_and_code() >> 5u32) as usize
}

/// Copy length code of a match.
pub fn BackwardMatchLengthCode(xself: &BackwardMatch) -> (r: usize)
    ensures
        r == match_length_code(xself.0),
{
    let code: usize = (xself.length_and_code() & 31u32) as usize;
    if code != 0 {
        code
    } else {
        BackwardMatchLength(xself)
    }
}

/// A packed match gives back the distance and length-and-code word it was
/// packed from.
pub proof fn lemma_pack_match_read_back(dist: u32, lc: u32)
    ensures
        match_distance(pack_match(dist, lc)) == dist,
        match_length_and_code(pack_match(dist, lc)) == lc,
{
    let m = pack_match(dist, lc);
    assert((m & 0xffffffff) as u32 == dist && (m >> 32u64) as u32 == lc) by (bit_vector)
        requires m == (dist as u64) | ((lc as u64) << 32u64);
}

/// A match found in the data reads back its distance, its length and, as
/// copy length code, its length, whenever the length fits in 27 bits and the
/// distance in 32.
pub proof fn lemma_backward_match_read_back(dist: usize, len: usize)
    requires
        len < 0x8000000,
        dist < 0x100000000,
    ensures
        match_distance(backward_match_of(dist, len)) == dist,
        match_length(backward_match_of(dist, len)) == len,
        match_length_code(backward_match_of(dist, len)) == len,
{
    let lc: u32 = (len << 5usize) as u32;
    lemma_pack_match_read_back(dist as u32, lc);
    assert(lc >> 5u32 == len && lc & 31 == 0) by (bit_vector)
        requires len < 0x8000000usize, lc == (len << 5usize) as u32;
}

/// A dictionary match reads back its distance, its length, and its copy
/// length code (the length itself when the code given was 0), whenever the
/// length fits in 27 bits, the code in 5 and the distance in 32.
pub proof fn lemma_dictionary_match_read_back(dist: usize, len: usize, len_code: usize)
    requires
        len < 0x8000000,
        len_code < 32,
        dist < 0x100000000,
    ensures
        match_distance(dictionary_match_of(dist, len, len_code)) == dist,
        match_length(dictionary_match_of(dist, len, len_code)) == len,
        match_length_code(dictionary_match_of(dist, len, len_code)) == (if len_code == 0 { len } else { len_code }),
{
    let c: usize = if len == len_code { 0usize } else { len_code };
    let lc: u32 = ((len << 5usize) | c) as u32;
    lemma_pack_match_read_back(dist as u32, lc);
    assert(lc >> 5u32 == len && lc & 31 == c) by (bit_vector)
        requires len < 0x8000000usize, c < 32usize, lc == ((len << 5usize) | c) as u32;
}

} // verus!
