use vstd::prelude::*;
use crate::command::{Command, CommandCopyLen, command_copy_len};

verus! {

/// Number of literal symbols.
pub const BROTLI_NUM_LITERAL_SYMBOLS: usize = 256;

/// Number of command symbols.
pub const BROTLI_NUM_COMMAND_SYMBOLS: usize = 704;

/// Largest distance alphabet the cost model keeps.
pub const BROTLI_MAX_EFFECTIVE_DISTANCE_ALPHABET_SIZE: usize = 544;

/// Position (64-bit wrapping) where command `i` of `cmds` starts, the first
/// starting at `start`.
pub open spec fn command_position(cmds: Seq<Command>, start: usize, i: int) -> usize
    decreases i,
{
    if i <= 0 {
        start
    } else {
        command_position(cmds, start, i - 1).wrapping_add(
            (cmds[i - 1].insert_len_ as usize).wrapping_add(command_copy_len(cmds[i - 1]) as usize),
        )
    }
}

/// The literal bytes the first `n` commands insert, read from the ring
/// buffer: for each command, the `insert_len_` bytes from its position on.
pub open spec fn command_literals(rb: Seq<u8>, mask: usize, cmds: Seq<Command>, start: usize, n: int) -> Seq<u8>
    decreases n,
{
    if n <= 0 {
        seq![]
    } else {
        let p = command_position(cmds, start, n - 1);
        command_literals(rb, mask, cmds, start, n - 1) + Seq::new(
            cmds[n - 1].insert_len_ as nat,
            |j: int| rb[(p.wrapping_add(j as usize) & mask) as int],
        )
    }
}

/// Number of entries of `s` equal to `v`.
pub open spec fn count_of<T>(s: Seq<T>, v: T) -> nat
    decreases s.len(),
{
    if s.len() == 0 {
        0
    } else {
        count_of(s.drop_last(), v) + if s.last() == v { 1nat } else { 0nat }
    }
}

/// The command codes of the first `n` commands.
pub open spec fn command_codes(cmds: Seq<Command>, n: int) -> Seq<u16> {
    Seq::new(n as nat, |i: int| cmds[i].cmd_prefix_)
}

/// The distance codes (low 10 bits of the distance prefix) of those of the
/// first `n` commands that carry an explicit distance (command code 128 and
/// up).
pub open spec fn command_distance_codes(cmds: Seq<Command>, n: int) -> Seq<u16>
    decreases n,
{
    if n <= 0 {
        seq![]
    } else if cmds[n - 1].cmd_prefix_ >= 128 {
        command_distance_codes(cmds, n - 1).push(cmds[n - 1].dist_prefix_ & 0x3ff)
    } else {
        command_distance_codes(cmds, n - 1)
    }
}

/// The three histograms the cost model is built from, for the first
/// `num_commands` commands starting at `position - last_insert_len`: how
/// often each byte is inserted as a literal (256 entries), how often each
/// command code occurs (704 entries), and how often each distance code
/// occurs (544 entries); counts are modulo 2^32.
pub fn ZopfliCostModelHistograms(
    position: usize,
    ringbuffer: &[u8],
    ringbuffer_mask: usize,
    commands: &[Command],
    num_commands: usize,
    last_insert_len: usize,
) -> (r: (Vec<u32>, Vec<u32>, Vec<u32>))
    requires
        ringbuffer_mask < ringbuffer@.len(),
        num_commands <= commands@.len(),
        forall|i: int| 0 <= i < num_commands ==> (#[trigger] commands@[i]).cmd_prefix_ < 704,
        forall|i: int| 0 <= i < num_commands && (#[trigger] commands@[i]).cmd_prefix_ >= 128 ==> (commands@[i].dist_prefix_
            & 0x3ff) < 544,
    ensures
        ({
            let start = position.wrapping_sub(last_insert_len);
            let lits = command_literals(ringbuffer@, ringbuffer_mask, commands@, start, num_commands as int);
            let codes = command_codes(commands@, num_commands as int);
            let dcodes = command_distance_codes(commands@, num_commands as int);
            &&& r.0@.len() == 256
            &&& r.1@.len() == 704
            &&& r.2@.len() == 544
            &&& forall|b: int| 0 <= b < 256 ==> #[trigger] r.0@[b] == count_of(lits, b as u8) % 0x100000000
            &&& forall|c: int| 0 <= c < 704 ==> #[trigger] r.1@[c] == count_of(codes, c as u16) % 0x100000000
            &&& forall|d: int| 0 <= d < 544 ==> #[trigger] r.2@[d] == count_of(dcodes, d as u16) % 0x100000000
        }),
{
    let mut histogram_literal: Vec<u32> = vec![0u32; 256];
    let mut histogram_cmd: Vec<u32> = vec![0u32; 704];
    let mut histogram_dist: Vec<u32> = vec![0u32; 544];
    let ghost start = position.wrapping_sub(last_insert_len);
    let mut pos: usize = position.wrapping_sub(last_insert_len);
    let mut i: usize = 0;
    proof {
        assert(command_literals(ringbuffer@, ringbuffer_mask, commands@, start, 0) =~= Seq::<u8>::empty());
        assert(command_codes(commands@, 0) =~= Seq::<u16>::empty());
    }
    while i < num_commands
        invariant
            i <= num_commands <= commands@.len(),
            ringbuffer_mask < ringbuffer@.len(),
            forall|k: int| 0 <= k < num_commands ==> (#[trigger] commands@[k]).cmd_prefix_ < 704,
            forall|k: int| 0 <= k < num_commands && (#[trigger] commands@[k]).cmd_prefix_ >= 128 ==> (commands@[k].dist_prefix_
                & 0x3ff) < 544,
            histogram_literal@.len() == 256,
            histogram_cmd@.len() == 704,
            histogram_dist@.len() == 544,
            pos == command_position(commands@, start, i as int),
            forall|b: int| 0 <= b < 256 ==> #[trigger] histogram_literal@[b]
                == count_of(command_literals(ringbuffer@, ringbuffer_mask, commands@, start, i as int), b as u8) % 0x100000000,
            forall|c: int| 0 <= c < 704 ==> #[trigger] histogram_cmd@[c] == count_of(command_codes(commands@, i as int), c as u16) % 0x100000000,
            forall|d: int| 0 <= d < 544 ==> #[trigger] histogram_dist@[d]
                == count_of(command_distance_codes(commands@, i as int), d as u16) % 0x100000000,
        decreases num_commands - i,
    {
        let inslength: usize = commands[i].insert_len_ as usize;
        let copylength: usize = CommandCopyLen(&commands[i]) as usize;
        let distcode: usize = (commands[i].dist_prefix_ & 0x3ffu16) as usize;
        let cmdcode: usize = commands[i].cmd_prefix_ as usize;
        let ghost codes_before = command_codes(commands@, i as int);
        let ghost dcodes_before = command_distance_codes(commands@, i as int);
        histogram_cmd.set(cmdcode, histogram_cmd[cmdcode].wrapping_add(1u32));
        proof {
            assert(command_codes(commands@, i + 1) =~= codes_before.push(commands@[i as int].cmd_prefix_));
            lemma_count_push(codes_before, commands@[i as int].cmd_prefix_);
        }
        if cmdcode >= 128 {
            histogram_dist.set(distcode, histogram_dist[distcode].wrapping_add(1u32));
            proof {
                lemma_count_push(dcodes_before, commands@[i as int].dist_prefix_ & 0x3ff);
            }
        }
        let ghost lits_before = command_literals(ringbuffer@, ringbuffer_mask, commands@, start, i as int);
        let mut j: usize = 0;
        while j < inslength
            invariant
                j <= inslength,
                inslength == commands@[i as int].insert_len_,
                ringbuffer_mask < ringbuffer@.len(),
                histogram_literal@.len() == 256,
                pos == command_position(commands@, start, i as int),
                forall|b: int| 0 <= b < 256 ==> #[trigger] histogram_literal@[b] == count_of(
                    lits_before + Seq::new(j as nat, |t: int| ringbuffer@[(pos.wrapping_add(t as usize) & ringbuffer_mask) as int]),
                    b as u8,
                ) % 0x100000000,
            decreases inslength - j,
        {
            let w: usize = pos.wrapping_add(j);
            let ix: usize = w & ringbuffer_mask;
            proof {
                assert(ix <= ringbuffer_mask) by (bit_vector)
                    requires ix == w & ringbuffer_mask;
            }
            let byte: usize = ringbuffer[ix] as usize;
            let ghost prefix = lits_before + Seq::new(j as nat, |t: int| ringbuffer@[(pos.wrapping_add(t as usize) & ringbuffer_mask) as int]);
            histogram_literal.set(byte, histogram_literal[byte].wrapping_add(1u32));
            proof {
                let next = lits_before + Seq::new((j + 1) as nat, |t: int| ringbuffer@[(pos.wrapping_add(t as usize) & ringbuffer_mask) as int]);
                assert(next =~= prefix.push(ringbuffer@[ix as int]));
                lemma_count_push(prefix, ringbuffer@[ix as int]);
            }
            j = j + 1;
        }
        proof {
            assert(command_literals(ringbuffer@, ringbuffer_mask, commands@, start, i + 1) =~= lits_before + Seq::new(
                inslength as nat, |t: int| ringbuffer@[(pos.wrapping_add(t as usize) & ringbuffer_mask) as int]));
        }
        pos = pos.wrapping_add(inslength.wrapping_add(copylength));
        i = i + 1;
    }
    (histogram_literal, histogram_cmd, histogram_dist)
}

proof fn lemma_count_push<T>(s: Seq<T>, v: T)
    ensures
        forall|w: T| #[trigger] count_of(s.push(v), w) == count_of(s, w) + if v == w { 1nat } else { 0nat },
{
    assert forall|w: T| #[trigger] count_of(s.push(v), w) == count_of(s, w) + if v == w { 1nat } else { 0nat } by {
        assert(s.push(v).drop_last() =~= s);
    }
}

/// Sum of the first `n` counts of a histogram.
pub open spec fn histogram_total(h: Seq<u32>, n: int) -> nat
    decreases n,
{
    if n <= 0 {
        0
    } else {
        histogram_total(h, n - 1) + h[n - 1] as nat
    }
}

/// Number of zero counts among the first `n` of a histogram.
pub open spec fn histogram_zeros(h: Seq<u32>, n: int) -> nat
    decreases n,
{
    if n <= 0 {
        0
    } else {
        histogram_zeros(h, n - 1) + if h[n - 1] == 0 { 1nat } else { 0nat }
    }
}

/// The two totals a histogram's symbol costs are derived from: the sum of its
/// first `histogram_size` counts, and that sum plus, unless it is a literal
/// histogram, one for each symbol that does not occur (both modulo 2^64).
pub fn SetCostTotals(histogram: &[u32], histogram_size: usize, literal_histogram: i32) -> (r: (u64, u64))
    requires
        histogram_size <= histogram@.len(),
    ensures
        r.0 == histogram_total(histogram@, histogram_size as int) % 0x10000000000000000,
        r.1 == (histogram_total(histogram@, histogram_size as int) + if literal_histogram == 0 {
            histogram_zeros(histogram@, histogram_size as int)
        } else {
            0
        }) % 0x10000000000000000,
{
    let mut sum: u64 = 0;
    let mut i: usize = 0;
    while i < histogram_size
        invariant
            i <= histogram_size <= histogram@.len(),
            sum == histogram_total(histogram@, i as int) % 0x10000000000000000,
        decreases histogram_size - i,
    {
        sum = sum.wrapping_add(histogram[i] as u64);
        i = i + 1;
    }
    let mut missing_symbol_sum: u64 = sum;
    if literal_histogram == 0 {
        i = 0;
        while i < histogram_size
            invariant
                i <= histogram_size <= histogram@.len(),
                sum == histogram_total(histogram@, histogram_size as int) % 0x10000000000000000,
                missing_symbol_sum == (histogram_total(histogram@, histogram_size as int) + histogram_zeros(histogram@, i as int))
                    % 0x10000000000000000,
            decreases histogram_size - i,
        {
            if histogram[i] == 0u32 {
                missing_symbol_sum = missing_symbol_sum.wrapping_add(1u64);
            }
            i = i + 1;
        }
    }
    (sum, missing_symbol_sum)
}

} // verus!
