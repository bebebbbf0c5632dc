use lib::command::{
    BrotliDistanceParams, Command, CombineLengthCodes, CommandCopyLen, GetCopyExtra, GetCopyLengthCode,
    GetInsertExtra, GetInsertLengthCode, GetLengthCode, InitCommand, PrefixEncodeCopyDistance,
};
use lib::util::{brotli_max_size_t, brotli_min_size_t, Log2FloorNonZero};

fn dist_params(postfix: u32, ndirect: u32) -> BrotliDistanceParams {
    BrotliDistanceParams {
        distance_postfix_bits: postfix,
        num_direct_distance_codes: ndirect,
        alphabet_size: 64,
        max_distance: 1 << 24,
    }
}

#[test]
fn min_and_max_of_sizes() {
    assert_eq!(brotli_min_size_t(3, 7), 3);
    assert_eq!(brotli_min_size_t(7, 3), 3);
    assert_eq!(brotli_max_size_t(3, 7), 7);
    assert_eq!(brotli_max_size_t(5, 5), 5);
}

#[test]
fn log2_floor_of_values() {
    assert_eq!(Log2FloorNonZero(1), 0);
    assert_eq!(Log2FloorNonZero(2), 1);
    assert_eq!(Log2FloorNonZero(3), 1);
    assert_eq!(Log2FloorNonZero(1024), 10);
    assert_eq!(Log2FloorNonZero(1023), 9);
    assert_eq!(Log2FloorNonZero(u64::MAX), 63);
}

#[test]
fn insert_length_codes_follow_the_table() {
    let cases = [
        (0usize, 0u16), (5, 5), (6, 6), (7, 6), (8, 7), (9, 7), (10, 8), (129, 15), (130, 16),
        (2113, 20), (2114, 21), (6209, 21), (6210, 22), (22593, 22), (22594, 23), (1_000_000, 23),
    ];
    for (len, code) in cases.iter() {
        assert_eq!(GetInsertLengthCode(*len), *code, "insert length {}", len);
    }
}

#[test]
fn copy_length_codes_follow_the_table() {
    let cases = [
        (2usize, 0u16), (9, 7), (10, 8), (11, 8), (12, 9), (133, 17), (134, 18), (2117, 22), (2118, 23),
        (100_000, 23),
    ];
    for (len, code) in cases.iter() {
        assert_eq!(GetCopyLengthCode(*len), *code, "copy length {}", len);
    }
    assert_eq!(GetCopyLengthCode(0), 65534);
    assert_eq!(GetCopyLengthCode(1), 65535);
}

#[test]
fn extra_bits_of_length_codes() {
    assert_eq!(GetInsertExtra(0), 0);
    assert_eq!(GetInsertExtra(6), 1);
    assert_eq!(GetInsertExtra(21), 12);
    assert_eq!(GetInsertExtra(23), 24);
    assert_eq!(GetCopyExtra(7), 0);
    assert_eq!(GetCopyExtra(8), 1);
    assert_eq!(GetCopyExtra(22), 10);
    assert_eq!(GetCopyExtra(23), 24);
}

#[test]
fn command_codes_of_the_cells() {
    assert_eq!(CombineLengthCodes(0, 0, 1), 0);
    assert_eq!(CombineLengthCodes(0, 8, 1), 64);
    assert_eq!(CombineLengthCodes(7, 15, 1), 127);
    assert_eq!(CombineLengthCodes(1, 2, 0), 138);
    assert_eq!(CombineLengthCodes(0, 8, 0), 192);
    assert_eq!(CombineLengthCodes(8, 0, 0), 256);
    assert_eq!(CombineLengthCodes(8, 8, 0), 320);
    assert_eq!(CombineLengthCodes(0, 16, 0), 384);
    assert_eq!(CombineLengthCodes(16, 0, 0), 448);
    assert_eq!(CombineLengthCodes(8, 16, 0), 512);
    assert_eq!(CombineLengthCodes(16, 8, 0), 576);
    assert_eq!(CombineLengthCodes(16, 16, 0), 640);
    assert_eq!(CombineLengthCodes(23, 23, 0), 703);
    // Insert code 8 cannot reuse the last distance.
    assert_eq!(CombineLengthCodes(8, 0, 1), 256);
}

#[test]
fn command_code_round_trips() {
    for ins in 0u16..24 {
        for copy in 0u16..24 {
            for last in 0..2 {
                let code = CombineLengthCodes(ins, copy, last);
                assert!(code < 704);
                let cell = code >> 6;
                let ins_hi = match cell {
                    0 | 1 | 2 | 3 | 6 => 0,
                    4 | 5 | 8 => 1,
                    _ => 2,
                };
                let copy_hi = match cell {
                    0 | 2 | 4 | 7 => 0,
                    1 | 3 | 5 | 9 => 1,
                    _ => 2,
                };
                assert_eq!(ins_hi * 8 + ((code >> 3) & 7), ins);
                assert_eq!(copy_hi * 8 + (code & 7), copy);
            }
        }
    }
}

#[test]
fn length_code_of_insert_and_copy() {
    let mut code = 0u16;
    GetLengthCode(5, 4, 0, &mut code);
    assert_eq!(code, 170);
    GetLengthCode(2, 4, 1, &mut code);
    assert_eq!(code, 18);
}

#[test]
fn short_and_direct_distance_codes_stand_for_themselves() {
    let mut code = 0u16;
    let mut extra = 7u32;
    PrefixEncodeCopyDistance(3, 0, 0, &mut code, &mut extra);
    assert_eq!((code, extra), (3, 0));
    PrefixEncodeCopyDistance(20, 8, 1, &mut code, &mut extra);
    assert_eq!((code, extra), (20, 0));
}

#[test]
fn distance_prefix_codes() {
    let mut code = 0u16;
    let mut extra = 0u32;
    PrefixEncodeCopyDistance(16, 0, 0, &mut code, &mut extra);
    assert_eq!((code, extra), (1040, 0));
    PrefixEncodeCopyDistance(115, 0, 0, &mut code, &mut extra);
    assert_eq!((code, extra), (5145, 7));
}

fn decode(code: u16, extra: u32, ndirect: u64, npostfix: u64) -> u64 {
    let dcode = (code & 0x3ff) as u64;
    if dcode < 16 + ndirect {
        return dcode;
    }
    let x = dcode - ndirect - 16;
    let ndistbits = 1 + (x >> (npostfix + 1));
    let hcode = x >> npostfix;
    let lcode = x & ((1 << npostfix) - 1);
    let offset = ((2 + (hcode & 1)) << ndistbits) - 4;
    ((offset + extra as u64) << npostfix) + lcode + ndirect + 16
}

#[test]
fn distance_prefix_codes_decode_back() {
    for npostfix in 0u64..4 {
        for ndirect in [0u64, 4, 15, 120].iter() {
            let mut dc = 0usize;
            while dc < 5_000_000 {
                let mut code = 0u16;
                let mut extra = 0u32;
                PrefixEncodeCopyDistance(dc, *ndirect as usize, npostfix, &mut code, &mut extra);
                assert_eq!(decode(code, extra, *ndirect, npostfix), dc as u64);
                assert!((extra as u64) < (1u64 << (code >> 10)));
                dc = dc * 3 / 2 + 1;
            }
        }
    }
}

#[test]
fn init_command_fills_every_field() {
    let mut cmd = Command { insert_len_: 0, copy_len_: 0, dist_extra_: 0, cmd_prefix_: 0, dist_prefix_: 0 };
    InitCommand(&mut cmd, &dist_params(0, 0), 5, 4, 0, 16);
    assert_eq!(cmd.insert_len_, 5);
    assert_eq!(cmd.copy_len_, 4);
    assert_eq!(CommandCopyLen(&cmd), 4);
    assert_eq!(cmd.dist_prefix_, 1040);
    assert_eq!(cmd.dist_extra_, 0);
    assert_eq!(cmd.cmd_prefix_, 170);
    // A last-distance code: the command may reuse the distance.
    InitCommand(&mut cmd, &dist_params(0, 0), 2, 4, 0, 0);
    assert_eq!(cmd.dist_prefix_, 0);
    assert_eq!(cmd.cmd_prefix_, 18);
    // A copy length code above the length is kept in the top bits.
    InitCommand(&mut cmd, &dist_params(0, 0), 0, 6, 3, 16);
    assert_eq!(cmd.copy_len_, 6 | (3 << 25));
    assert_eq!(CommandCopyLen(&cmd), 6);
    assert_eq!(cmd.cmd_prefix_, 128 + 7);
}
