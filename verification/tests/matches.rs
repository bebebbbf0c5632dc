use lib::backward_match::{
    BackwardMatch, BackwardMatchLength, BackwardMatchLengthCode, InitBackwardMatch,
    InitDictionaryBackwardMatch,
};
use lib::command::{BrotliDistanceParams, BrotliEncoderParams};
use lib::matcher::{
    FindAllMatchesH10, FindMatchLengthWithLimit, HashBytesH10, MatchSearchEvent, MatchSearchRequest,
    MaxZopfliCandidates, MaxZopfliLen, StitchToPreviousBlockH10, StoreLookaheadH10, K_INVALID_MATCH,
};

fn params(quality: i32, max_distance: usize) -> BrotliEncoderParams {
    BrotliEncoderParams {
        quality,
        lgwin: 22,
        dist: BrotliDistanceParams {
            distance_postfix_bits: 0,
            num_direct_distance_codes: 0,
            alphabet_size: 64,
            max_distance,
        },
    }
}

fn packed(dist: u64, len: u64, code: u64) -> u64 {
    dist | (((len << 5) | code) << 32)
}

#[test]
fn backward_match_reads_back() {
    let mut m = BackwardMatch(0);
    InitBackwardMatch(&mut m, 1234, 17);
    assert_eq!(m.distance(), 1234);
    assert_eq!(BackwardMatchLength(&m), 17);
    assert_eq!(BackwardMatchLengthCode(&m), 17);
    assert_eq!(m.0, packed(1234, 17, 0));
}

#[test]
fn dictionary_match_keeps_a_differing_code() {
    let mut m = BackwardMatch(0);
    InitDictionaryBackwardMatch(&mut m, 99_999, 12, 9);
    assert_eq!(m.distance(), 99_999);
    assert_eq!(BackwardMatchLength(&m), 12);
    assert_eq!(BackwardMatchLengthCode(&m), 9);
    assert_eq!(m.length_and_code(), (12 << 5) | 9);
    InitDictionaryBackwardMatch(&mut m, 5, 12, 12);
    assert_eq!(m.length_and_code(), 12 << 5);
    assert_eq!(BackwardMatchLengthCode(&m), 12);
}

#[test]
fn quality_limits() {
    assert_eq!(MaxZopfliLen(&params(10, 100)), 150);
    assert_eq!(MaxZopfliLen(&params(11, 100)), 325);
    assert_eq!(MaxZopfliCandidates(&params(10, 100)), 1);
    assert_eq!(MaxZopfliCandidates(&params(11, 100)), 5);
    assert_eq!(StoreLookaheadH10(), 128);
}

#[test]
fn hash_of_four_bytes() {
    assert_eq!(HashBytesH10(&[0, 0, 0, 0]), 0);
    assert_eq!(HashBytesH10(&[1, 0, 0, 0]), 0x1e35a7bd >> 15);
    assert_eq!(HashBytesH10(&[1, 2, 3, 4, 99]), 0x04030201u32.wrapping_mul(0x1e35a7bd) >> 15);
    assert!(HashBytesH10(&[255, 255, 255, 255]) < 1 << 17);
}

#[test]
fn common_prefix_length() {
    assert_eq!(FindMatchLengthWithLimit(b"abcdef", b"abcxef", 6), 3);
    assert_eq!(FindMatchLengthWithLimit(b"abcdef", b"abcdef", 6), 6);
    assert_eq!(FindMatchLengthWithLimit(b"abcdef", b"abcdef", 4), 4);
    assert_eq!(FindMatchLengthWithLimit(b"xbc", b"abc", 3), 0);
    assert_eq!(FindMatchLengthWithLimit(b"", b"", 0), 0);
}

fn ring(prefix: &[u8]) -> Vec<u8> {
    let mut data = vec![b'.'; 128];
    data[..prefix.len()].copy_from_slice(prefix);
    data
}

#[test]
fn short_scan_finds_a_nearby_match() {
    let data = ring(b"xabcdyabcdz");
    let p = params(11, 1 << 20);
    let mut matches = [0u64; 8];
    let r = FindAllMatchesH10(MatchSearchEvent::Start, &data, 63, 6, 32, 1000, 0, &p, &mut matches);
    assert_eq!(r, MatchSearchRequest::TreeSearch { best_len: 4, offset: 1 });
    assert_eq!(matches[0], packed(5, 4, 0));
    assert_eq!(matches[1], 0);
}

#[test]
fn short_scan_never_looks_at_position_zero() {
    let data = ring(b"abcdyabcdz");
    let p = params(11, 1 << 20);
    let mut matches = [7u64; 2];
    let r = FindAllMatchesH10(MatchSearchEvent::Start, &data, 63, 5, 32, 1000, 0, &p, &mut matches);
    assert_eq!(r, MatchSearchRequest::TreeSearch { best_len: 1, offset: 0 });
    assert_eq!(matches, [7, 7]);
}

#[test]
fn short_scan_keeps_only_longer_matches() {
    // two-byte match at distance 1 ("aa"), then a longer one further back
    let data = ring(b"qaaabxaaab");
    let p = params(11, 1 << 20);
    let mut matches = [0u64; 4];
    let r = FindAllMatchesH10(MatchSearchEvent::Start, &data, 63, 7, 32, 1000, 0, &p, &mut matches);
    // at 7: "aab..." ; i = 6 gives "aaab" vs "aab" -> 2, i = 5 'x' no, i = 4 'b' no,
    // i = 3 "abxa" vs "aab" -> 1 byte only (second byte differs), i = 2 "aabx" -> 3
    assert_eq!(r, MatchSearchRequest::TreeSearch { best_len: 3, offset: 2 });
    assert_eq!(matches[0], packed(1, 2, 0));
    assert_eq!(matches[1], packed(5, 3, 0));
}

#[test]
fn full_length_match_skips_the_tree() {
    let data = ring(b"xabcdabcd");
    let p = params(11, 1 << 20);
    let mut matches = [0u64; 4];
    let r = FindAllMatchesH10(MatchSearchEvent::Start, &data, 63, 5, 4, 1000, 0, &p, &mut matches);
    assert_eq!(r, MatchSearchRequest::DictionarySearch { min_len: 5, offset: 1 });
    assert_eq!(matches[0], packed(4, 4, 0));
}

#[test]
fn tree_result_leads_to_the_dictionary() {
    let data = ring(b"");
    let p = params(11, 1 << 20);
    let mut matches = [0u64; 4];
    let r = FindAllMatchesH10(
        MatchSearchEvent::TreeSearched { best_len: 7, offset: 3 }, &data, 63, 5, 32, 1000, 0, &p,
        &mut matches,
    );
    assert_eq!(r, MatchSearchRequest::DictionarySearch { min_len: 8, offset: 3 });
    let r = FindAllMatchesH10(
        MatchSearchEvent::TreeSearched { best_len: 1, offset: 0 }, &data, 63, 5, 32, 1000, 0, &p,
        &mut matches,
    );
    assert_eq!(r, MatchSearchRequest::DictionarySearch { min_len: 4, offset: 0 });
}

#[test]
fn dictionary_words_become_matches() {
    let data = ring(b"");
    let p = params(11, 200);
    let mut words = vec![K_INVALID_MATCH; 38];
    words[5] = (3 << 5) | 2;
    words[6] = 6 << 5;
    words[8] = (500 << 5) | 1; // too far: 100 + 500 + 1 > 200
    words[33] = 1 << 5; // beyond max_length
    let mut matches = [9u64; 6];
    let r = FindAllMatchesH10(
        MatchSearchEvent::DictionarySearched { found: true, words, min_len: 4, offset: 1 },
        &data, 63, 5, 32, 100, 0, &p, &mut matches,
    );
    assert_eq!(r, MatchSearchRequest::Done { count: 3 });
    assert_eq!(matches[0], 9);
    assert_eq!(matches[1], packed(104, 5, 2));
    assert_eq!(matches[2], packed(107, 6, 0));
    assert_eq!(matches[3], 9);
}

#[test]
fn no_dictionary_word_leaves_the_matches() {
    let data = ring(b"");
    let p = params(11, 200);
    let words = vec![K_INVALID_MATCH; 38];
    let mut matches = [9u64; 3];
    let r = FindAllMatchesH10(
        MatchSearchEvent::DictionarySearched { found: false, words, min_len: 4, offset: 2 },
        &data, 63, 5, 32, 100, 0, &p, &mut matches,
    );
    assert_eq!(r, MatchSearchRequest::Done { count: 2 });
    assert_eq!(matches, [9, 9, 9]);
}

#[test]
fn stitching_lists_the_tail_of_the_previous_block() {
    // the last 127 positions before the block
    let stores = StitchToPreviousBlockH10((1 << 22) - 1, 4, 128, 1000, 200);
    assert_eq!(stores.len(), 127);
    assert_eq!(stores[0], (73, (1 << 22) - 1 - 127));
    assert_eq!(stores[126], (199, (1 << 22) - 1 - 15));
    assert_eq!(stores[119], (192, (1 << 22) - 1 - 15));
    assert_eq!(stores[99], (172, (1 << 22) - 1 - 28));
    assert!(stores.iter().all(|s| s.1 <= (1 << 22) - 1 - 15));
}

#[test]
fn stitching_stops_at_the_end_of_a_short_block() {
    let stores = StitchToPreviousBlockH10(1023, 4, 128, 10, 500);
    assert_eq!(stores, vec![
        (373, 1023 - 127), (374, 1023 - 126), (375, 1023 - 125), (376, 1023 - 124),
        (377, 1023 - 123), (378, 1023 - 122), (379, 1023 - 121), (380, 1023 - 120),
        (381, 1023 - 119), (382, 1023 - 118),
    ]);
}

#[test]
fn stitching_needs_enough_data() {
    assert!(StitchToPreviousBlockH10(1023, 4, 128, 2, 500).is_empty());
    assert!(StitchToPreviousBlockH10(1023, 4, 128, 1000, 100).is_empty());
    // a single position of tree comparison leaves no earlier position to store
    assert!(StitchToPreviousBlockH10(1023, 4, 1, 1000, 100).is_empty());
}
