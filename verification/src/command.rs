use vstd::prelude::*;
use crate::util::{Log2FloorNonZero, log2_floor, lemma_log2_floor_unique};
use vstd::arithmetic::power2::{pow2, lemma_pow2_pos, lemma_pow2_adds, lemma_pow2_strictly_increases, lemma2_to64, lemma2_to64_rest};
use vstd::bits::{lemma_u64_shl_is_mul, lemma_u64_shr_is_div, lemma_u32_shl_is_mul, lemma_u64_low_bits_mask_is_mod, low_bits_mask};
use vstd::arithmetic::div_mod::{lemma_fundamental_div_mod, lemma_div_pos_is_pos, lemma_mod_multiples_vanish, lemma_div_multiples_vanish_fancy, lemma_mod_bound, lemma_div_is_ordered};
use vstd::arithmetic::mul::{lemma_mul_is_distributive_add, lemma_mul_is_associative};

verus! {

/// Lowest insert length of each of the 24 insert length codes.
pub open spec fn ins_base() -> Seq<u32> {
    seq![0u32, 1, 2, 3, 4, 5, 6, 8, 10, 14, 18, 26, 34, 50, 66, 98, 130, 194, 322, 578, 1090, 2114, 6210, 22594]
}

/// Number of extra bits of each of the 24 insert length codes.
pub open spec fn ins_extra() -> Seq<u32> {
    seq![0u32, 0, 0, 0, 0, 0, 1, 1, 2, 2, 3, 3, 4, 4, 5, 5, 6, 7, 8, 9, 10, 12, 14, 24]
}

/// Lowest copy length of each of the 24 copy length codes.
pub open spec fn copy_base() -> Seq<u32> {
    seq![2u32, 3, 4, 5, 6, 7, 8, 9, 10, 12, 14, 18, 22, 30, 38, 54, 70, 102, 134, 198, 326, 582, 1094, 2118]
}

/// Number of extra bits of each of the 24 copy length codes.
pub open spec fn copy_extra() -> Seq<u32> {
    seq![0u32, 0, 0, 0, 0, 0, 0, 0, 1, 1, 2, 2, 3, 3, 4, 4, 5, 5, 6, 7, 8, 9, 10, 24]
}

/// Number of extra bits that an insert length code carries.
pub fn GetInsertExtra(inscode: u16) -> (r: u32)
    requires
        inscode < 24,
    ensures
        r == ins_extra()[inscode as int],
{
    let table: [u32; 24] = [0, 0, 0, 0, 0, 0, 1, 1, 2, 2, 3, 3, 4, 4, 5, 5, 6, 7, 8, 9, 10, 12, 14, 24];
    assert(table@ =~= ins_extra());
    table[inscode as usize]
}

/// Number of extra bits that a copy length code carries.
pub fn GetCopyExtra(copycode: u16) -> (r: u32)
    requires
        copycode < 24,
    ensures
        r == copy_extra()[copycode as int],
{
    let table: [u32; 24] = [0, 0, 0, 0, 0, 0, 0, 0, 1, 1, 2, 2, 3, 3, 4, 4, 5, 5, 6, 7, 8, 9, 10, 24];
    assert(table@ =~= copy_extra());
    table[copycode as usize]
}

/// `code` is the insert length code of `len`: the last of the 24 codes whose
/// range starts at or below `len`.
pub open spec fn is_insert_code_of(code: int, len: int) -> bool {
    &&& 0 <= code < 24
    &&& ins_base()[code] <= len
    &&& (code == 23 || len < ins_base()[code + 1])
}

/// `code` is the copy length code of `len`: the last of the 24 codes whose
/// range starts at or below `len`.
pub open spec fn is_copy_code_of(code: int, len: int) -> bool {
    &&& 0 <= code < 24
    &&& copy_base()[code] <= len
    &&& (code == 23 || len < copy_base()[code + 1])
}

/// The last index `<= k` of `table` whose entry is at most `len` (0 if none).
pub open spec fn last_at_or_below(table: Seq<u32>, len: int, k: int) -> int
    decreases k,
{
    if k <= 0 {
        0
    } else if table[k] <= len {
        k
    } else {
        last_at_or_below(table, len, k - 1)
    }
}

/// The insert length code of `len`.
pub open spec fn insert_code(len: int) -> int {
    last_at_or_below(ins_base(), len, 23)
}

/// The copy length code of `len` (for `len >= 2`).
pub open spec fn copy_code(len: int) -> int {
    last_at_or_below(copy_base(), len, 23)
}

/// Insert length code of an insert length.
pub fn GetInsertLengthCode(insertlen: usize) -> (r: u16)
    ensures
        r as int == insert_code(insertlen as int),
        is_insert_code_of(r as int, insertlen as int),
{
    let base: [u32; 24] = [0, 1, 2, 3, 4, 5, 6, 8, 10, 14, 18, 26, 34, 50, 66, 98, 130, 194, 322, 578, 1090, 2114, 6210, 22594];
    assert(base@ =~= ins_base());
    let mut k: usize = 23;
    while base[k] as usize > insertlen
        invariant
            k < 24,
            base@ == ins_base(),
            k == 23 || insertlen < ins_base()[k + 1],
            last_at_or_below(ins_base(), insertlen as int, 23) == last_at_or_below(ins_base(), insertlen as int, k as int),
        decreases k,
    {
        k = k - 1;
    }
    k as u16
}

/// Copy length code of a copy length. Lengths below 2, which no copy has,
/// give `len - 2` modulo 2^16.
pub fn GetCopyLengthCode(copylen: usize) -> (r: u16)
    ensures
        copylen >= 2 ==> r as int == copy_code(copylen as int),
        copylen >= 2 ==> is_copy_code_of(r as int, copylen as int),
        copylen < 2 ==> r == 65534 + copylen,
{
    if copylen < 2 {
        return (copylen as u16).wrapping_sub(2u16);
    }
    let base: [u32; 24] = [2, 3, 4, 5, 6, 7, 8, 9, 10, 12, 14, 18, 22, 30, 38, 54, 70, 102, 134, 198, 326, 582, 1094, 2118];
    assert(base@ =~= copy_base());
    let mut k: usize = 23;
    while base[k] as usize > copylen
        invariant
            k < 24,
            copylen >= 2,
            base@ == copy_base(),
            k == 23 || copylen < copy_base()[k + 1],
            last_at_or_below(copy_base(), copylen as int, 23) == last_at_or_below(copy_base(), copylen as int, k as int),
        decreases k,
    {
        k = k - 1;
    }
    k as u16
}

/// First command code of the block of 64 codes that serves insert codes
/// `8 * ins_hi ..` and copy codes `8 * copy_hi ..` when the command carries an
/// explicit distance.
pub open spec fn cell_base(ins_hi: int, copy_hi: int) -> int {
    if ins_hi == 0 && copy_hi == 0 {
        128
    } else if ins_hi == 0 && copy_hi == 1 {
        192
    } else if ins_hi == 1 && copy_hi == 0 {
        256
    } else if ins_hi == 1 && copy_hi == 1 {
        320
    } else if ins_hi == 0 && copy_hi == 2 {
        384
    } else if ins_hi == 2 && copy_hi == 0 {
        448
    } else if ins_hi == 1 && copy_hi == 2 {
        512
    } else if ins_hi == 2 && copy_hi == 1 {
        576
    } else {
        640
    }
}

/// The insert-and-copy command code of an insert code and a copy code; with
/// `use_last_distance`, small codes go to the first 128 codes, which reuse the
/// last distance.
pub open spec fn command_code(inscode: int, copycode: int, use_last_distance: bool) -> int {
    let low = (inscode % 8) * 8 + copycode % 8;
    if use_last_distance && inscode < 8 && copycode < 16 {
        (if copycode < 8 { 0int } else { 64int }) + low
    } else {
        cell_base(inscode / 8, copycode / 8) + low
    }
}

/// The insert code range (`0..=2`, in units of 8 codes) of a command code's block.
pub open spec fn cell_ins_hi(cell: int) -> int {
    if cell <= 3 || cell == 6 {
        0
    } else if cell == 4 || cell == 5 || cell == 8 {
        1
    } else {
        2
    }
}

/// The copy code range (`0..=2`, in units of 8 codes) of a command code's block.
pub open spec fn cell_copy_hi(cell: int) -> int {
    if cell == 0 || cell == 2 || cell == 4 || cell == 7 {
        0
    } else if cell == 1 || cell == 3 || cell == 5 || cell == 9 {
        1
    } else {
        2
    }
}

/// The insert code that a command code stands for.
pub open spec fn command_insert_code(cmd: int) -> int {
    cell_ins_hi(cmd / 64) * 8 + (cmd / 8) % 8
}

/// The copy code that a command code stands for.
pub open spec fn command_copy_code(cmd: int) -> int {
    cell_copy_hi(cmd / 64) * 8 + cmd % 8
}

proof fn lemma_cell_magic()
    by (bit_vector)
    ensures
        (0x520d40u32 >> 0u32) & 0xc0u32 == 64,
        (0x520d40u32 >> 2u32) & 0xc0u32 == 64,
        (0x520d40u32 >> 4u32) & 0xc0u32 == 192,
        (0x520d40u32 >> 6u32) & 0xc0u32 == 0,
        (0x520d40u32 >> 8u32) & 0xc0u32 == 0,
        (0x520d40u32 >> 10u32) & 0xc0u32 == 128,
        (0x520d40u32 >> 12u32) & 0xc0u32 == 0,
        (0x520d40u32 >> 14u32) & 0xc0u32 == 64,
        (0x520d40u32 >> 16u32) & 0xc0u32 == 64,
{
}

proof fn lemma_or_low_bits(x: u16, b: u16)
    by (bit_vector)
    requires
        x % 64 == 0,
        b < 64,
    ensures
        x | b == x + b,
{
}

/// Command code of an insert code and a copy code (see `command_code`).
pub fn CombineLengthCodes(inscode: u16, copycode: u16, use_last_distance: i32) -> (r: u16)
    requires
        inscode < 24,
        copycode < 24,
    ensures
        r as int == command_code(inscode as int, copycode as int, use_last_distance != 0),
{
    let bits64: u16 = ((copycode as u32 & 0x7u32) | ((inscode as u32 & 0x7u32) << 3u32)) as u16;
    proof {
        assert(bits64 == (inscode % 8) * 8 + copycode % 8) by (bit_vector)
            requires
                inscode < 24,
                copycode < 24,
                bits64 == ((copycode as u32 & 0x7u32) | ((inscode as u32 & 0x7u32) << 3u32)) as u16;
    }
    if use_last_distance != 0 && inscode < 8 && copycode < 16 {
        if copycode >= 8 {
            proof {
                assert(bits64 | 64u16 == bits64 + 64) by (bit_vector)
                    requires bits64 < 64u16;
            }
            bits64 | 64u16
        } else {
            bits64
        }
    } else {
        proof {
            let i = inscode as u32;
            let c = copycode as u32;
            assert(c >> 3u32 == c / 8 && i >> 3u32 == i / 8) by (bit_vector);
        }
        let hi: u32 = (copycode as u32 >> 3u32) + 3u32 * (inscode as u32 >> 3u32);
        let off1: u32 = 2u32 * hi;
        proof {
            lemma_cell_magic();
            assert(off1 << 5u32 == 32 * off1) by (bit_vector)
                requires off1 <= 16;
        }
        let off2: u32 = (off1 << 5u32) + 0x40u32 + ((0x520d40u32 >> off1) & 0xc0u32);
        proof {
            assert(off2 == cell_base((inscode / 8) as int, (copycode / 8) as int));
            lemma_or_low_bits(off2 as u16, bits64);
        }
        let r: u16 = (off2 as u16) | bits64;
        r
    }
}

/// Every command code made from an insert code and a copy code names them
/// again: the decoder recovers both codes from the command code alone.
pub proof fn lemma_command_code_round_trip(inscode: int, copycode: int, use_last_distance: bool)
    requires
        0 <= inscode < 24,
        0 <= copycode < 24,
    ensures
        command_insert_code(command_code(inscode, copycode, use_last_distance)) == inscode,
        command_copy_code(command_code(inscode, copycode, use_last_distance)) == copycode,
        0 <= command_code(inscode, copycode, use_last_distance) < 704,
{
    let a = inscode % 8;
    let b = copycode % 8;
    let low = a * 8 + b;
    let cmd = command_code(inscode, copycode, use_last_distance);
    let base = cmd - low;
    assert(0 <= low < 64);
    assert(base % 64 == 0 && 0 <= base <= 640);
    let cell = base / 64;
    assert(base == 64 * cell);
    assert(cmd == 64 * cell + low);
    assert(cmd / 64 == cell);
    assert(cmd % 8 == b);
    assert(cmd / 8 == 8 * cell + a);
    assert((cmd / 8) % 8 == a);
    assert(inscode == (inscode / 8) * 8 + a);
    assert(copycode == (copycode / 8) * 8 + b);
}

/// How distances are coded: number of postfix bits, number of direct distance
/// codes, size of the distance alphabet and the largest distance allowed.
#[derive(Clone, Copy, Debug)]
pub struct BrotliDistanceParams {
    pub distance_postfix_bits: u32,
    pub num_direct_distance_codes: u32,
    pub alphabet_size: u32,
    pub max_distance: usize,
}

/// The encoder parameters the backward-reference search reads: the quality
/// level, the window size (log2) and the distance coding.
#[derive(Clone, Copy, Debug)]
pub struct BrotliEncoderParams {
    pub quality: i32,
    pub lgwin: i32,
    pub dist: BrotliDistanceParams,
}

/// One command of the compressed stream: insert `insert_len_` literals, then
/// copy the copy length (low 25 bits of `copy_len_`; the high 7 bits hold the
/// signed difference between the copy length code and the copy length) from
/// the distance coded by `dist_prefix_` and `dist_extra_`, with command code
/// `cmd_prefix_`.
#[derive(Clone, Copy, Debug)]
pub struct Command {
    pub insert_len_: u32,
    pub copy_len_: u32,
    pub dist_extra_: u32,
    pub cmd_prefix_: u16,
    pub dist_prefix_: u16,
}

/// The distance prefix code and the extra-bits value of `distance_code` with
/// `num_direct_codes` direct codes and `postfix_bits` postfix bits, computed
/// with 64-bit wrapping arithmetic: codes below `16 + num_direct_codes` stand
/// for themselves; for the others the code holds the number of extra bits in
/// its top 6 bits and the bucket, prefix bit and postfix in its low 10 bits.
pub open spec fn prefix_encode(distance_code: usize, num_direct_codes: usize, postfix_bits: u64) -> (u16, u32) {
    if distance_code < 16usize.wrapping_add(num_direct_codes) {
        (distance_code as u16, 0u32)
    } else {
        let dist = prefix_dist(distance_code, num_direct_codes, postfix_bits);
        let bucket: u64 = (log2_floor(dist as nat) as u64).wrapping_sub(1);
        let postfix_mask: u64 = ((1u32 << (postfix_bits as u32)).wrapping_sub(1)) as u64;
        let postfix: u64 = dist & postfix_mask;
        let prefix: u64 = (dist >> bucket) & 1;
        let offset: u64 = 2u64.wrapping_add(prefix) << bucket;
        let nbits: u64 = bucket.wrapping_sub(postfix_bits);
        let code = ((nbits << 10u64) | 16u64.wrapping_add(num_direct_codes as u64).wrapping_add(
            2u64.wrapping_mul(nbits.wrapping_sub(1)).wrapping_add(prefix) << postfix_bits,
        ).wrapping_add(postfix)) as u16;
        let extra = (dist.wrapping_sub(offset) >> postfix_bits) as u32;
        (code, extra)
    }
}

/// The value whose bits `prefix_encode` splits: `2^(postfix_bits + 2)` plus
/// the distance code's offset above the direct codes (64-bit wrapping).
pub open spec fn prefix_dist(distance_code: usize, num_direct_codes: usize, postfix_bits: u64) -> u64 {
    (1u64 << postfix_bits.wrapping_add(2)).wrapping_add(
        (distance_code as u64).wrapping_sub(16).wrapping_sub(num_direct_codes as u64),
    )
}

/// Splits a distance code into its prefix code and extra-bits value (see
/// `prefix_encode`).
pub fn PrefixEncodeCopyDistance(
    distance_code: usize,
    num_direct_codes: usize,
    postfix_bits: u64,
    code: &mut u16,
    extra_bits: &mut u32,
)
    requires
        postfix_bits < 32,
        distance_code >= 16usize.wrapping_add(num_direct_codes) ==>
            prefix_dist(distance_code, num_direct_codes, postfix_bits) >= 2,
    ensures
        (*final(code), *final(extra_bits)) == prefix_encode(distance_code, num_direct_codes, postfix_bits),
        postfix_bits <= 3 && num_direct_codes <= 120 && distance_code < 0x100000000 ==> {
            &&& decode_distance_code((*final(code) & 0x3ff) as int, *final(extra_bits) as int, num_direct_codes as int,
                postfix_bits as nat) == distance_code
            &&& (*final(extra_bits) as nat) < pow2((*final(code) >> 10u16) as nat)
        },
{
    if distance_code < 16usize.wrapping_add(num_direct_codes) {
        *code = distance_code as u16;
        *extra_bits = 0u32;
    } else {
        let dist: u64 = (1u64 << postfix_bits.wrapping_add(2u64)).wrapping_add(
            (distance_code as u64).wrapping_sub(16u64).wrapping_sub(num_direct_codes as u64),
        );
        let lg: u32 = Log2FloorNonZero(dist);
        let bucket: u64 = (lg as u64).wrapping_sub(1u64);
        assert(bucket < 64);
        let postfix_mask: u64 = ((1u32 << (postfix_bits as u32)).wrapping_sub(1u32)) as u64;
        let postfix: u64 = dist & postfix_mask;
        let prefix: u64 = (dist >> bucket) & 1u64;
        let offset: u64 = 2u64.wrapping_add(prefix) << bucket;
        let nbits: u64 = bucket.wrapping_sub(postfix_bits);
        *code = ((nbits << 10u64) | 16u64.wrapping_add(num_direct_codes as u64).wrapping_add(
            2u64.wrapping_mul(nbits.wrapping_sub(1u64)).wrapping_add(prefix) << postfix_bits,
        ).wrapping_add(postfix)) as u16;
        *extra_bits = (dist.wrapping_sub(offset) >> postfix_bits) as u32;
    }
    proof {
        if postfix_bits <= 3 && num_direct_codes <= 120 && distance_code < 0x100000000 {
            lemma_prefix_encode_round_trip(distance_code, num_direct_codes, postfix_bits);
        }
    }
}

/// Command code of an insert length and a copy length.
pub fn GetLengthCode(insertlen: usize, copylen: usize, use_last_distance: i32, code: &mut u16)
    requires
        copylen >= 2,
    ensures
        *final(code) as int == command_code(insert_code(insertlen as int), copy_code(copylen as int), use_last_distance != 0),
{
    let inscode: u16 = GetInsertLengthCode(insertlen);
    let copycode: u16 = GetCopyLengthCode(copylen);
    *code = CombineLengthCodes(inscode, copycode, use_last_distance);
}

/// The copy length code that `InitCommand` codes: the copy length plus the
/// signed difference `delta` (32-bit signed arithmetic).
pub open spec fn code_copy_length(copylen: usize, delta: usize) -> int {
    (copylen as i32) as int + (delta as i32) as int
}

/// The command `InitCommand` builds from an insert length, a copy length, the
/// difference between copy length code and copy length, and a distance code.
pub open spec fn init_command(
    dist: BrotliDistanceParams,
    insertlen: usize,
    copylen: usize,
    delta: usize,
    distance_code: usize,
) -> Command {
    let (dist_prefix, dist_extra) = prefix_encode(
        distance_code,
        dist.num_direct_distance_codes as usize,
        dist.distance_postfix_bits as u64,
    );
    Command {
        insert_len_: insertlen as u32,
        copy_len_: (copylen as u32) | (((delta as i8) as u8 as u32) << 25u32),
        dist_extra_: dist_extra,
        cmd_prefix_: command_code(
            insert_code(insertlen as int),
            copy_code(code_copy_length(copylen, delta) as usize as int),
            (dist_prefix & 0x3ff) == 0,
        ) as u16,
        dist_prefix_: dist_prefix,
    }
}

/// The inputs on which `InitCommand` is defined: the distance code can be
/// split with the given distance parameters, and the copy length code is a
/// 32-bit signed value of at least 2.
pub open spec fn init_command_ok(
    dist: BrotliDistanceParams,
    copylen: usize,
    delta: usize,
    distance_code: usize,
) -> bool {
    &&& dist.distance_postfix_bits < 32
    &&& distance_code >= 16usize.wrapping_add(dist.num_direct_distance_codes as usize) ==> prefix_dist(
        distance_code,
        dist.num_direct_distance_codes as usize,
        dist.distance_postfix_bits as u64,
    ) >= 2
    &&& i32::MIN <= code_copy_length(copylen, delta) <= i32::MAX
    &&& (code_copy_length(copylen, delta) as i32) as usize >= 2
}

/// Fills a command (see `init_command`).
pub fn InitCommand(
    xself: &mut Command,
    dist: &BrotliDistanceParams,
    insertlen: usize,
    copylen: usize,
    copylen_code_delta: usize,
    distance_code: usize,
)
    requires
        init_command_ok(*dist, copylen, copylen_code_delta, distance_code),
    ensures
        *final(xself) == init_command(*dist, insertlen, copylen, copylen_code_delta, distance_code),
{
    let delta: u32 = copylen_code_delta as i8 as u8 as u32;
    xself.insert_len_ = insertlen as u32;
    xself.copy_len_ = (copylen as u32) | (delta << 25u32);
    PrefixEncodeCopyDistance(
        distance_code,
        dist.num_direct_distance_codes as usize,
        dist.distance_postfix_bits as u64,
        &mut xself.dist_prefix_,
        &mut xself.dist_extra_,
    );
    let code_len: usize = (copylen as i32 + copylen_code_delta as i32) as usize;
    GetLengthCode(
        insertlen,
        code_len,
        if (xself.dist_prefix_ & 0x3ffu16) == 0 { 1i32 } else { 0i32 },
        &mut xself.cmd_prefix_,
    );
}

/// Copy length of a command: the low 25 bits of `copy_len_`.
pub open spec fn command_copy_len(c: Command) -> u32 {
    c.copy_len_ & 0x1ffffff
}

/// Copy length of a command.
pub fn CommandCopyLen(xself: &Command) -> (r: u32)
    ensures
        r == command_copy_len(*xself),
{
    xself.copy_len_ & 0x1ffffffu32
}

/// The distance code a decoder reads from distance prefix code `dcode` (low
/// 10 bits of the prefix) and extra-bits value `extra`, with `ndirect` direct
/// codes and `npostfix` postfix bits, numbered like the encoder's distance
/// codes (the 16 last-distance codes first).
pub open spec fn decode_distance_code(dcode: int, extra: int, ndirect: int, npostfix: nat) -> int {
    if dcode < 16 + ndirect {
        dcode
    } else {
        let x = dcode - ndirect - 16;
        let ndistbits = (1 + x / pow2(npostfix + 1) as int) as nat;
        let hcode = x / pow2(npostfix) as int;
        let lcode = x % pow2(npostfix) as int;
        let offset = (2 + hcode % 2) * pow2(ndistbits) - 4;
        (offset + extra) * pow2(npostfix) + lcode + ndirect + 16
    }
}

proof fn lemma_code_fields(a: u64, b: u64, c: u16)
    by (bit_vector)
    requires
        a < 32,
        b < 1024,
        c == ((a << 10u64) | b) as u16,
    ensures
        (c & 0x3ff) as u64 == b,
        (c >> 10u16) as u64 == a,
{
}

proof fn lemma_and_one(y: u64)
    by (bit_vector)
    ensures
        y & 1 == y % 2,
{
}

/// Splitting a distance code into prefix code and extra bits loses nothing:
/// the decoder reads the distance code back from them, and the extra-bits
/// value fits in the number of extra bits the prefix code announces (its top
/// 6 bits), for every distance code below 2^32 with at most 3 postfix bits
/// and at most 120 direct codes.
#[verifier::rlimit(60)]
pub proof fn lemma_prefix_encode_round_trip(distance_code: usize, num_direct_codes: usize, postfix_bits: u64)
    requires
        postfix_bits <= 3,
        num_direct_codes <= 120,
        distance_code < 0x100000000,
    ensures
        ({
            let (code, extra) = prefix_encode(distance_code, num_direct_codes, postfix_bits);
            &&& decode_distance_code((code & 0x3ff) as int, extra as int, num_direct_codes as int, postfix_bits as nat)
                == distance_code
            &&& (extra as nat) < pow2((code >> 10u16) as nat)
        }),
{
    let (code, extra) = prefix_encode(distance_code, num_direct_codes, postfix_bits);
    lemma2_to64();
    if distance_code < 16usize.wrapping_add(num_direct_codes) {
        assert(16usize.wrapping_add(num_direct_codes) == 16 + num_direct_codes);
        let c = distance_code as u16;
        assert(c & 0x3ff == c && c >> 10u16 == 0) by (bit_vector)
            requires c < 136;
    } else {
        let p = postfix_bits as nat;
        let nd = num_direct_codes as int;
        assert(16usize.wrapping_add(num_direct_codes) == 16 + num_direct_codes);
        // The value split into bucket, prefix bit and postfix.
        lemma_u64_shl_is_mul(1, (postfix_bits + 2) as u64);
        let dist = prefix_dist(distance_code, num_direct_codes, postfix_bits);
        assert(dist as int == pow2(p + 2) + (distance_code - 16 - nd));
        let lg = log2_floor(dist as nat);
        lemma_log2_bracket(dist as nat);
        let bucket = (lg - 1) as nat;
        assert(pow2(lg) <= dist < pow2(lg + 1));
        lemma_pow2_bracket_exponent(p + 2, lg, dist as nat);
        assert(lg >= p + 2);
        assert(lg <= 32) by {
            if lg > 32 {
                lemma2_to64_rest();
                lemma_pow2_monotone(33, lg);
                assert(pow2(33) == 0x200000000);
            }
        }
        let bucket64 = (lg as u64).wrapping_sub(1);
        assert(bucket64 == bucket);
        lemma_u64_shr_is_div(dist, bucket64);
        let top = dist as nat / pow2(bucket);
        // 2^(bucket+1) <= dist < 2^(bucket+2), so top is 2 or 3.
        lemma_pow2_adds(bucket, 1);
        lemma_pow2_adds(bucket, 2);
        lemma_pow2_pos(bucket);
        lemma_top_bits(dist as nat, pow2(bucket));
        assert(2 <= top <= 3);
        lemma_and_one(dist >> bucket64);
        let prefix = top % 2;
        assert((dist >> bucket64) & 1 == prefix);
        // The postfix.
        lemma_u32_shl_is_mul(1, postfix_bits as u32);
        assert((1u32 << (postfix_bits as u32)).wrapping_sub(1) == pow2(p) - 1);
        assert(low_bits_mask(p) == pow2(p) - 1);
        lemma_u64_low_bits_mask_is_mod(dist, p);
        let postfix = dist as nat % pow2(p);
        // The offset and number of extra bits.
        assert(bucket <= 31);
        lemma_pow2_monotone(bucket, 31);
        assert((2 + prefix) * pow2(bucket) <= 3 * 0x80000000) by (nonlinear_arith)
            requires prefix <= 1, pow2(bucket) <= 0x80000000;
        lemma_u64_shl_is_mul((2 + prefix) as u64, bucket64);
        let offset = (2 + prefix) * pow2(bucket);
        assert(top == 2 + prefix);
        lemma_fundamental_div_mod(dist as int, pow2(bucket) as int);
        lemma_mod_bound(dist as int, pow2(bucket) as int);
        assert(offset <= dist) by (nonlinear_arith)
            requires
                offset == (2 + prefix) * pow2(bucket),
                top == 2 + prefix,
                top == dist as nat / pow2(bucket),
                dist as int == pow2(bucket) * (dist as int / pow2(bucket) as int) + dist as int % pow2(bucket) as int,
                dist as int % pow2(bucket) as int >= 0;
        let nbits = (bucket - p) as nat;
        assert(nbits >= 1);
        assert(nbits <= 31);
        lemma_pow2_adds(nbits, p);
        assert(pow2(bucket) == pow2(nbits) * pow2(p));
        // The low 10 bits of the code.
        let mid = (2 * (nbits - 1) + prefix) as u64;
        assert(mid * pow2(p) <= 61 * 8) by (nonlinear_arith)
            requires mid <= 61, pow2(p) <= 8;
        lemma_u64_shl_is_mul(mid, postfix_bits);
        assert(pow2(p) <= 8);
        let low = 16 + nd + mid * pow2(p) + postfix;
        assert(low < 1024) by (nonlinear_arith)
            requires
                low == 16 + nd + mid * pow2(p) + postfix,
                nd <= 120,
                mid <= 61,
                pow2(p) <= 8,
                postfix < pow2(p);
        lemma_code_fields(nbits as u64, low as u64, code);
        // The extra bits.
        lemma_u64_shr_is_div((dist - offset) as u64, postfix_bits);
        let rem = (dist - offset) as nat;
        assert(rem == dist as nat % pow2(bucket)) by (nonlinear_arith)
            requires
                rem == dist - offset,
                offset == (2 + prefix) * pow2(bucket),
                top == 2 + prefix,
                top == dist as nat / pow2(bucket),
                dist as int == pow2(bucket) * (dist as int / pow2(bucket) as int) + dist as int % pow2(bucket) as int;
        let ex = rem / pow2(p);
        assert(extra as nat == ex);
        lemma_extra_fits(rem, pow2(nbits), pow2(p));
        // Decoding.
        let x = low - nd - 16;
        lemma_decode_fields(nbits, prefix, postfix, p);
        assert(x / pow2(p + 1) as int == nbits - 1);
        assert(x / pow2(p) as int == 2 * (nbits - 1) + prefix);
        assert(x % pow2(p) as int == postfix);
        lemma_pow2_adds(nbits + 1, p);
        lemma_pow2_adds(nbits, p);
        lemma_pow2_adds(2, p);
        let a = (2 + prefix) * pow2(nbits);
        assert(offset == pow2(p) * a) by (nonlinear_arith)
            requires offset == (2 + prefix) * pow2(bucket), pow2(bucket) == pow2(nbits) * pow2(p), a == (2 + prefix) * pow2(nbits);
        lemma_mod_multiples_vanish(a as int, 0, pow2(p) as int);
        lemma_offset_reassembles(dist as nat, offset, pow2(p), postfix, ex, pow2(nbits), prefix, pow2(bucket));
    }
}

proof fn lemma_log2_bracket(n: nat)
    requires
        n >= 1,
    ensures
        pow2(log2_floor(n)) <= n < pow2(log2_floor(n) + 1),
    decreases n,
{
    vstd::arithmetic::power2::lemma_pow2_unfold(log2_floor(n) + 1);
    if n > 1 {
        lemma_log2_bracket(n / 2);
        vstd::arithmetic::power2::lemma_pow2_unfold(log2_floor(n));
    } else {
        lemma2_to64();
    }
}

proof fn lemma_pow2_bracket_exponent(a: nat, b: nat, n: nat)
    requires
        pow2(a) <= n < pow2(b + 1),
    ensures
        a <= b,
{
    if a > b {
        if a > b + 1 {
            lemma_pow2_strictly_increases(b + 1, a);
        }
    }
}

proof fn lemma_pow2_monotone(a: nat, b: nat)
    requires
        a <= b,
    ensures
        pow2(a) <= pow2(b),
{
    if a < b {
        lemma_pow2_strictly_increases(a, b);
    }
}

proof fn lemma_top_bits(dist: nat, q: nat)
    requires
        q > 0,
        2 * q <= dist < 4 * q,
    ensures
        2 <= dist / q <= 3,
{
    lemma_fundamental_div_mod(dist as int, q as int);
    lemma_mod_bound(dist as int, q as int);
    assert(2 <= dist / q <= 3) by (nonlinear_arith)
        requires
            dist == q * (dist / q) + dist % q,
            0 <= dist % q < q,
            2 * q <= dist < 4 * q,
            q > 0;
}

proof fn lemma_extra_fits(rem: nat, a: nat, b: nat)
    requires
        a > 0,
        b > 0,
        rem < a * b,
    ensures
        rem / b < a,
{
    assert(rem / b < a) by (nonlinear_arith)
        requires rem < a * b, a > 0, b > 0;
}

proof fn lemma_decode_fields(nbits: nat, prefix: nat, postfix: nat, p: nat)
    requires
        prefix <= 1,
        postfix < pow2(p),
        nbits >= 1,
    ensures
        ({
            let x = (2 * (nbits - 1) + prefix) * pow2(p) + postfix;
            &&& x / pow2(p + 1) as int == nbits - 1
            &&& x / pow2(p) as int == 2 * (nbits - 1) + prefix
            &&& x % pow2(p) as int == postfix
        }),
{
    let q = pow2(p);
    lemma_pow2_pos(p);
    lemma_pow2_adds(p, 1);
    assert(pow2(1) == 2) by { lemma2_to64(); }
    assert(pow2(p + 1) == 2 * q);
    let h = 2 * (nbits - 1) + prefix;
    let x = (2 * (nbits - 1) + prefix) * q + postfix;
    assert(x == q * h + postfix) by (nonlinear_arith)
        requires x == (2 * (nbits - 1) + prefix) * q + postfix, h == 2 * (nbits - 1) + prefix;
    lemma_div_multiples_vanish_fancy(h as int, postfix as int, q as int);
    lemma_mod_multiples_vanish(h as int, postfix as int, q as int);
    vstd::arithmetic::div_mod::lemma_small_mod(postfix, q);
    let r = prefix * q + postfix;
    assert(x == (2 * q) * (nbits - 1) + r) by (nonlinear_arith)
        requires x == (2 * (nbits - 1) + prefix) * q + postfix, r == prefix * q + postfix;
    assert(r < 2 * q) by (nonlinear_arith)
        requires r == prefix * q + postfix, prefix <= 1, postfix < q;
    lemma_div_multiples_vanish_fancy((nbits - 1) as int, r as int, 2 * q as int);
}

proof fn lemma_offset_reassembles(
    dist: nat,
    offset: nat,
    q: nat,
    postfix: nat,
    ex: nat,
    pn: nat,
    prefix: nat,
    pb: nat,
)
    requires
        q > 0,
        pb == pn * q,
        offset == (2 + prefix) * pb,
        offset <= dist,
        postfix == dist % q,
        ex == ((dist - offset) as nat) / q,
        (offset as int) % (q as int) == 0,
    ensures
        ((2 + prefix) * pn - 4 + ex) * q + postfix == dist as int - 4 * q,
{
    let rem = (dist - offset) as nat;
    lemma_fundamental_div_mod(rem as int, q as int);
    lemma_fundamental_div_mod(dist as int, q as int);
    assert((2 + prefix) * pn * q == offset) by (nonlinear_arith)
        requires offset == (2 + prefix) * pb, pb == pn * q;
    assert(rem % q == dist % q) by {
        lemma_mod_multiples_vanish((offset / q) as int, rem as int, q as int);
        lemma_fundamental_div_mod(offset as int, q as int);
    }
    assert(((2 + prefix) * pn - 4 + ex) * q == (2 + prefix) * pn * q - 4 * q + ex * q) by (nonlinear_arith);
    assert(ex * q + rem % q == rem) by (nonlinear_arith)
        requires rem == q * (rem / q) + rem % q, ex == rem / q;
}

/// Every insert length below `22594 + 2^24` lies in the range of its insert
/// code: at or above the code's base and below the base plus 2 to the
/// code's number of extra bits, so the extra bits code the rest exactly.
pub proof fn lemma_insert_code_covers(len: int)
    requires
        0 <= len < 22594 + 0x1000000,
    ensures
        ins_base()[insert_code(len)] <= len < ins_base()[insert_code(len)] + pow2(ins_extra()[insert_code(len)] as nat),
{
    lemma2_to64();
    lemma_last_at_or_below(ins_base(), len, 23);
    let c = insert_code(len);
    assert(forall|k: int| 0 <= k < 23 ==> #[trigger] ins_base()[k + 1] == ins_base()[k] + pow2(ins_extra()[k] as nat));
}

/// Every copy length from 2 to below `2118 + 2^24` lies in the range of its
/// copy code (see `lemma_insert_code_covers`).
pub proof fn lemma_copy_code_covers(len: int)
    requires
        2 <= len < 2118 + 0x1000000,
    ensures
        copy_base()[copy_code(len)] <= len < copy_base()[copy_code(len)] + pow2(copy_extra()[copy_code(len)] as nat),
{
    lemma2_to64();
    lemma_last_at_or_below(copy_base(), len, 23);
    assert(forall|k: int| 0 <= k < 23 ==> #[trigger] copy_base()[k + 1] == copy_base()[k] + pow2(copy_extra()[k] as nat));
}

proof fn lemma_last_at_or_below(table: Seq<u32>, len: int, k: int)
    requires
        0 <= k < table.len(),
        table[0] <= len,
    ensures
        0 <= last_at_or_below(table, len, k) <= k,
        table[last_at_or_below(table, len, k)] <= len,
        last_at_or_below(table, len, k) == k || len < table[last_at_or_below(table, len, k) + 1],
    decreases k,
{
    if k > 0 && table[k] > len {
        lemma_last_at_or_below(table, len, k - 1);
    }
}


proof fn lemma_last_at_or_below_range(table: Seq<u32>, len: int, k: int)
    requires
        0 <= k,
    ensures
        0 <= last_at_or_below(table, len, k) <= k,
    decreases k,
{
    if k > 0 && table[k] > len {
        lemma_last_at_or_below_range(table, len, k - 1);
    }
}

/// A command code below 128 means "reuse the last distance, no distance
/// symbol follows": `InitCommand` gives one only to a command whose distance
/// code is 0 (the last distance), whatever its lengths and distance code.
pub proof fn lemma_implicit_distance_only_for_last_distance(
    dist: BrotliDistanceParams,
    insertlen: usize,
    copylen: usize,
    delta: usize,
    distance_code: usize,
)
    ensures
        ({
            let c = init_command(dist, insertlen, copylen, delta, distance_code);
            c.cmd_prefix_ < 128 ==> (c.dist_prefix_ & 0x3ff) == 0
        }),
{
    let c = init_command(dist, insertlen, copylen, delta, distance_code);
    let a = insert_code(insertlen as int);
    let b = copy_code(code_copy_length(copylen, delta) as usize as int);
    lemma_last_at_or_below_range(ins_base(), insertlen as int, 23);
    lemma_last_at_or_below_range(copy_base(), code_copy_length(copylen, delta) as usize as int, 23);
    let cc = command_code(a, b, (c.dist_prefix_ & 0x3ff) == 0);
    assert(0 <= cc < 704);
    assert(c.cmd_prefix_ == cc);
    if (c.dist_prefix_ & 0x3ff) != 0 {
        assert(cc >= 128);
    }
}

/// A decoder reads back the distance code of every command `InitCommand`
/// builds: from the command code alone when it is below 128 (the last
/// distance, code 0), else from the distance prefix code and its extra bits;
/// for every distance code below 2^32 with at most 3 postfix bits and at most
/// 120 direct codes.
pub proof fn lemma_command_distance_decodes(
    dist: BrotliDistanceParams,
    insertlen: usize,
    copylen: usize,
    delta: usize,
    distance_code: usize,
)
    requires
        dist.distance_postfix_bits <= 3,
        dist.num_direct_distance_codes <= 120,
        distance_code < 0x100000000,
    ensures
        ({
            let c = init_command(dist, insertlen, copylen, delta, distance_code);
            (if c.cmd_prefix_ < 128 {
                0
            } else {
                decode_distance_code((c.dist_prefix_ & 0x3ff) as int, c.dist_extra_ as int,
                    dist.num_direct_distance_codes as int, dist.distance_postfix_bits as nat)
            }) == distance_code
        }),
{
    let c = init_command(dist, insertlen, copylen, delta, distance_code);
    lemma_implicit_distance_only_for_last_distance(dist, insertlen, copylen, delta, distance_code);
    lemma_prefix_encode_round_trip(distance_code, dist.num_direct_distance_codes as usize, dist.distance_postfix_bits as u64);
}

} // verus!
