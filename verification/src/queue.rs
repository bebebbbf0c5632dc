use vstd::prelude::*;
use crate::util::brotli_min_size_t;

verus! {

/// A start position of the search: its position, the distance cache there,
/// the cost of reaching it minus the cost of coding every byte before it as
/// literals (`costdiff`), and the cost of reaching it; both costs are the bit
/// patterns of IEEE-754 single-precision values.
#[derive(Clone, Copy, Debug)]
pub struct PosData {
    pub pos: usize,
    pub distance_cache: [i32; 4],
    pub costdiff: u32,
    pub cost: u32,
}

/// The 8 most promising start positions, in a ring buffer: `idx_` counts the
/// pushes so far; the entry pushed last is the logical entry 0.
#[derive(Clone, Copy, Debug)]
pub struct StartPosQueue {
    pub q_: [PosData; 8],
    pub idx_: usize,
}

/// A single-precision value, given by its bit pattern, as an integer that
/// orders like the value: for all values other than NaN, `a < b` exactly when
/// `cost_order_key(a) < cost_order_key(b)` (both zeros map to 0).
pub open spec fn cost_order_key(bits: u32) -> int {
    if bits >= 0x80000000 {
        -((bits - 0x80000000) as int)
    } else {
        bits as int
    }
}

/// The order key of a single-precision bit pattern (see `cost_order_key`).
pub fn CostOrderKey(bits: u32) -> (r: i64)
    ensures
        r == cost_order_key(bits),
{
    if bits >= 0x80000000u32 {
        -((bits - 0x80000000u32) as i64)
    } else {
        bits as i64
    }
}

/// The single-precision value with bit pattern `bits` is a NaN: all
/// exponent bits set and a non-zero fraction.
pub open spec fn is_nan(bits: u32) -> bool {
    bits & 0x7fffffff > 0x7f800000
}

/// The single-precision value `a` is greater than `b` (given by their bit
/// patterns), as the float comparison `>` decides it: false when either is a
/// NaN.
pub open spec fn cost_greater(a: u32, b: u32) -> bool {
    !is_nan(a) && !is_nan(b) && cost_order_key(a) > cost_order_key(b)
}

/// Whether the single-precision value `a` is greater than `b` (see
/// `cost_greater`).
pub fn CostGreater(a: u32, b: u32) -> (r: bool)
    ensures
        r == cost_greater(a, b),
{
    (a & 0x7fffffffu32) <= 0x7f800000u32 && (b & 0x7fffffffu32) <= 0x7f800000u32 && CostOrderKey(a) > CostOrderKey(b)
}

/// Slot of logical entry `k` when `idx` entries have been pushed.
pub open spec fn queue_slot(k: usize, idx: usize) -> int {
    (k - idx) % 8
}

/// Number of entries the queue holds: the pushes so far, at most 8.
pub open spec fn queue_size(idx: usize) -> nat {
    if idx < 8 { idx as nat } else { 8 }
}

/// The entries of the queue in logical order, the most recently placed first.
pub open spec fn queue_view(q: StartPosQueue) -> Seq<PosData> {
    Seq::new(queue_size(q.idx_), |k: int| q.q_@[queue_slot(k as usize, q.idx_)])
}

/// Empties the queue.
pub fn InitStartPosQueue(xself: &mut StartPosQueue)
    ensures
        final(xself).idx_ == 0,
        final(xself).q_ == old(xself).q_,
        queue_view(*final(xself)) == Seq::<PosData>::empty(),
{
    xself.idx_ = 0;
    assert(queue_view(*xself) =~= Seq::<PosData>::empty());
}

/// Number of entries in the queue.
pub fn StartPosQueueSize(xself: &StartPosQueue) -> (r: usize)
    ensures
        r == queue_size(xself.idx_),
{
    brotli_min_size_t(xself.idx_, 8usize)
}

/// Logical entry `k` of the queue.
pub fn StartPosQueueAt(xself: &StartPosQueue, k: usize) -> (r: &PosData)
    ensures
        *r == xself.q_@[queue_slot(k, xself.idx_)],
        k < queue_size(xself.idx_) ==> *r == queue_view(*xself)[k as int],
{
    let w: usize = k.wrapping_sub(xself.idx_);
    let slot: usize = w & 7usize;
    proof {
        assert(slot == w % 8) by (bit_vector)
            requires slot == w & 7usize;
        lemma_wrapping_sub_mod8(k, xself.idx_);
    }
    &xself.q_[slot]
}

/// One left-to-right pass over `s` from position `j` on that swaps each pair
/// of neighbours whose first entry has the greater `costdiff` (see
/// `cost_greater`; no swap when either is a NaN).
pub open spec fn bubble_pass(s: Seq<PosData>, j: int) -> Seq<PosData>
    decreases s.len() - j,
{
    if j < 0 || j + 1 >= s.len() {
        s
    } else if cost_greater(s[j].costdiff, s[j + 1].costdiff) {
        bubble_pass(s.update(j, s[j + 1]).update(j + 1, s[j]), j + 1)
    } else {
        bubble_pass(s, j + 1)
    }
}

/// The first `len` logical entries of slots `arr` when `idx` entries have
/// been pushed.
pub open spec fn logical_entries(arr: Seq<PosData>, idx: usize, len: nat) -> Seq<PosData> {
    Seq::new(len, |k: int| arr[queue_slot(k as usize, idx)])
}

/// Wrapping subtraction keeps the difference modulo 8.
proof fn lemma_wrapping_sub_mod8(a: usize, b: usize)
    ensures
        (a.wrapping_sub(b) % 8) as int == (a - b) % 8,
{
    assert(usize::MAX == 0xffffffff || usize::MAX == 0xffffffffffffffff);
    if a < b {
        assert(a.wrapping_sub(b) == a - b + usize::MAX + 1);
        assert((usize::MAX + 1) % 8 == 0);
        assert((a - b + (usize::MAX + 1)) % 8 == (a - b) % 8) by (nonlinear_arith)
            requires (usize::MAX + 1) % 8 == 0;
    }
}

proof fn lemma_push_slots(idx0: usize, j: usize)
    requires
        j < 16,
    ensures
        (((((!idx0) & 7usize) + j) as usize & 7usize) as int) == queue_slot(j, idx0.wrapping_add(1)),
        (((!idx0) & 7usize) + j) as usize & 7usize < 8,
        j >= 1 ==> queue_slot(j, idx0.wrapping_add(1)) == queue_slot((j - 1) as usize, idx0),
        (!idx0) & 7usize < 8,
        0 <= queue_slot(j, idx0.wrapping_add(1)) < 8,
        queue_slot(j, idx0.wrapping_add(1)) == ((((!idx0) & 7usize) as int) + j) % 8,
{
    let o: usize = (!idx0) & 7usize;
    assert(o == 7 - idx0 % 8) by (bit_vector)
        requires o == (!idx0) & 7usize;
    let s: usize = (o + j) as usize & 7usize;
    assert(s == (o + j) % 8) by (bit_vector)
        requires s == (o + j) as usize & 7usize, o < 8usize, j < 16usize;
    assert(usize::MAX == 0xffffffff || usize::MAX == 0xffffffffffffffff);
    if idx0 == usize::MAX {
        assert(idx0.wrapping_add(1) == 0);
        assert(idx0 % 8 == 7);
    } else {
        assert(idx0.wrapping_add(1) == idx0 + 1);
    }
}

proof fn lemma_consecutive_slots_differ(o: usize)
    by (bit_vector)
    requires
        o < 16,
    ensures
        (o & 7usize) != ((o + 1) as usize & 7usize),
{
}

proof fn lemma_swap_logical(arr: Seq<PosData>, idx0: usize, len: nat, i: int, s1: int, s2: int)
    requires
        arr.len() == 8,
        1 <= i < len <= 8,
        s1 == queue_slot((i - 1) as usize, idx0.wrapping_add(1)),
        s2 == queue_slot(i as usize, idx0.wrapping_add(1)),
    ensures
        ({
            let before = logical_entries(arr, idx0.wrapping_add(1), len);
            logical_entries(arr.update(s1, arr[s2]).update(s2, arr[s1]), idx0.wrapping_add(1), len)
                == before.update(i - 1, before[i]).update(i, before[i - 1])
        }),
{
    let idx1 = idx0.wrapping_add(1);
    let before = logical_entries(arr, idx1, len);
    let after = logical_entries(arr.update(s1, arr[s2]).update(s2, arr[s1]), idx1, len);
    assert forall|k: int| 0 <= k < len implies #[trigger] after[k] == before.update(i - 1, before[i]).update(i, before[i - 1])[k] by {
        let sk = queue_slot(k as usize, idx1);
        assert(0 <= sk < 8);
        if k != i - 1 {
            assert(sk != s1);
        }
        if k != i {
            assert(sk != s2);
        }
    }
    assert(after =~= before.update(i - 1, before[i]).update(i, before[i - 1]));
}

/// Places `posdata` as the newest entry and moves it back past every entry
/// with a smaller `costdiff` in one pass of neighbour swaps; when the queue
/// was full, the oldest slot is overwritten (see `bubble_pass`).
pub fn StartPosQueuePush(xself: &mut StartPosQueue, posdata: &PosData)
    ensures
        final(xself).idx_ == old(xself).idx_.wrapping_add(1),
        queue_view(*final(xself)) == bubble_pass(
            (seq![*posdata] + queue_view(*old(xself))).take(queue_size(old(xself).idx_.wrapping_add(1)) as int),
            0,
        ),
{
    let idx0: usize = xself.idx_;
    let mut offset: usize = !idx0 & 7usize;
    xself.idx_ = idx0.wrapping_add(1usize);
    let idx1: usize = xself.idx_;
    let len: usize = StartPosQueueSize(xself);
    let ghost old_arr = xself.q_@;
    let ghost init = (seq![*posdata] + queue_view(*old(xself))).take(len as int);
    proof {
        lemma_push_slots(idx0, 0);
    }
    xself.q_[offset] = *posdata;
    proof {
        assert forall|k: int| 0 <= k < len implies #[trigger] logical_entries(xself.q_@, idx1, len as nat)[k] == init[k] by {
            lemma_push_slots(idx0, k as usize);
            lemma_push_slots(idx0, 0);
            if k >= 1 {
                assert(queue_slot(k as usize, idx1) == queue_slot((k - 1) as usize, idx0));
                assert(queue_slot(k as usize, idx1) != queue_slot(0, idx1));
            }
        }
        assert(logical_entries(xself.q_@, idx1, len as nat) =~= init);
    }
    let ghost offset0 = offset;
    let mut i: usize = 1;
    while i < len
        invariant
            1 <= i,
            len <= 8,
            i <= len || len == 0,
            xself.idx_ == idx1,
            len == queue_size(idx1),
            offset0 == !idx0 & 7usize,
            idx1 == idx0.wrapping_add(1),
            offset == offset0 + i - 1,
            offset0 < 8,
            bubble_pass(init, 0) == bubble_pass(logical_entries(xself.q_@, idx1, len as nat), i - 1),
        decreases len - i,
    {
        proof {
            lemma_push_slots(idx0, (i - 1) as usize);
            lemma_push_slots(idx0, i);
            lemma_consecutive_slots_differ(offset);
        }
        let s1: usize = offset & 7usize;
        let s2: usize = (offset + 1) & 7usize;
        let ghost before = logical_entries(xself.q_@, idx1, len as nat);
        let ghost arr = xself.q_@;
        if CostGreater(xself.q_[s1].costdiff, xself.q_[s2].costdiff) {
            let tmp: PosData = xself.q_[s1];
            xself.q_[s1] = xself.q_[s2];
            xself.q_[s2] = tmp;
            proof {
                lemma_swap_logical(arr, idx0, len as nat, i as int, s1 as int, s2 as int);
            }
        }
        offset = offset + 1;
        i = i + 1;
    }
    proof {
        assert(queue_view(*xself) =~= logical_entries(xself.q_@, idx1, len as nat));
        if len > 0 {
            assert(bubble_pass(logical_entries(xself.q_@, idx1, len as nat), i - 1)
                == logical_entries(xself.q_@, idx1, len as nat));
        }
    }
}

/// No entry has a NaN `costdiff`.
pub open spec fn no_nan_costdiff(s: Seq<PosData>) -> bool {
    forall|a: int| 0 <= a < s.len() ==> !is_nan(#[trigger] s[a].costdiff)
}

/// Entries in ascending order of `costdiff`.
pub open spec fn sorted_by_costdiff(s: Seq<PosData>) -> bool {
    forall|a: int, b: int| 0 <= a < b < s.len() ==> cost_order_key(#[trigger] s[a].costdiff) <= cost_order_key(#[trigger] s[b].costdiff)
}

/// Where `x` goes in `t`, ascending by `costdiff`: after every leading entry
/// with a strictly smaller `costdiff`.
pub open spec fn insert_position(t: Seq<PosData>, x: PosData, j: int) -> int
    decreases t.len() - j,
{
    if j < 0 || j >= t.len() || cost_order_key(x.costdiff) <= cost_order_key(t[j].costdiff) {
        j
    } else {
        insert_position(t, x, j + 1)
    }
}

proof fn lemma_pass_sorted_tail(s: Seq<PosData>, j: int)
    requires
        0 <= j,
        no_nan_costdiff(s),
        forall|a: int, b: int| j <= a < b < s.len() ==> cost_order_key(#[trigger] s[a].costdiff) <= cost_order_key(#[trigger] s[b].costdiff),
    ensures
        bubble_pass(s, j) == s,
    decreases s.len() - j,
{
    if j + 1 < s.len() {
        assert(cost_order_key(s[j].costdiff) <= cost_order_key(s[j + 1].costdiff));
        lemma_pass_sorted_tail(s, j + 1);
    }
}

proof fn lemma_pass_inserts(t: Seq<PosData>, x: PosData, j: int)
    requires
        0 <= j <= t.len(),
        sorted_by_costdiff(t),
        no_nan_costdiff(t),
        !is_nan(x.costdiff),
        forall|a: int| 0 <= a < j ==> cost_order_key(#[trigger] t[a].costdiff) < cost_order_key(x.costdiff),
    ensures
        bubble_pass(t.take(j) + seq![x] + t.skip(j), j) == t.take(insert_position(t, x, j)) + seq![x]
            + t.skip(insert_position(t, x, j)),
    decreases t.len() - j,
{
    let s = t.take(j) + seq![x] + t.skip(j);
    if j == t.len() {
    } else if cost_order_key(x.costdiff) <= cost_order_key(t[j].costdiff) {
        assert forall|a: int, b: int| j <= a < b < s.len() implies cost_order_key(#[trigger] s[a].costdiff)
            <= cost_order_key(#[trigger] s[b].costdiff) by {
            if a == j {
                assert(s[b] == t[b - 1]);
                if b - 1 > j {
                    assert(cost_order_key(t[j].costdiff) <= cost_order_key(t[b - 1].costdiff));
                }
            } else {
                assert(s[a] == t[a - 1]);
                assert(s[b] == t[b - 1]);
            }
        }
        lemma_pass_sorted_tail(s, j);
    } else {
        assert(s[j] == x);
        assert(s[j + 1] == t[j]);
        let s2 = s.update(j, s[j + 1]).update(j + 1, s[j]);
        assert(s2 =~= t.take(j + 1) + seq![x] + t.skip(j + 1));
        lemma_pass_inserts(t, x, j + 1);
    }
}

/// A queue kept in ascending order of `costdiff` stays so: pushing `x` onto
/// entries `t` (of which the first `n - 1` stay) puts `x` after exactly the
/// entries with a smaller `costdiff` (before those with an equal one) and
/// leaves the result in ascending order, whenever no cost difference is a
/// NaN.
pub proof fn lemma_push_keeps_queue_sorted(t: Seq<PosData>, x: PosData, n: nat)
    requires
        sorted_by_costdiff(t),
        no_nan_costdiff(t),
        !is_nan(x.costdiff),
        1 <= n <= t.len() + 1,
    ensures
        ({
            let kept = t.take(n - 1);
            let p = insert_position(kept, x, 0);
            &&& bubble_pass((seq![x] + t).take(n as int), 0) == kept.take(p) + seq![x] + kept.skip(p)
            &&& sorted_by_costdiff(bubble_pass((seq![x] + t).take(n as int), 0))
        }),
{
    let kept = t.take(n - 1);
    assert(sorted_by_costdiff(kept));
    assert((seq![x] + t).take(n as int) =~= kept.take(0) + seq![x] + kept.skip(0));
    lemma_pass_inserts(kept, x, 0);
    lemma_insert_position_facts(kept, x, 0);
    let p = insert_position(kept, x, 0);
    let r = kept.take(p) + seq![x] + kept.skip(p);
    assert forall|a: int, b: int| 0 <= a < b < r.len() implies cost_order_key(#[trigger] r[a].costdiff)
        <= cost_order_key(#[trigger] r[b].costdiff) by {
        if b < p {
            assert(r[a] == kept[a] && r[b] == kept[b]);
        } else if b == p {
            assert(r[a] == kept[a]);
        } else if a < p {
            assert(r[a] == kept[a] && r[b] == kept[b - 1]);
        } else if a == p {
            assert(r[b] == kept[b - 1]);
            if b - 1 > p {
                assert(cost_order_key(kept[p].costdiff) <= cost_order_key(kept[b - 1].costdiff));
            }
        } else {
            assert(r[a] == kept[a - 1] && r[b] == kept[b - 1]);
        }
    }
}

proof fn lemma_insert_position_facts(t: Seq<PosData>, x: PosData, j: int)
    requires
        0 <= j <= t.len(),
    ensures
        j <= insert_position(t, x, j) <= t.len(),
        forall|a: int| j <= a < insert_position(t, x, j) ==> cost_order_key(#[trigger] t[a].costdiff) < cost_order_key(x.costdiff),
        insert_position(t, x, j) < t.len() ==> cost_order_key(x.costdiff) <= cost_order_key(t[insert_position(t, x, j)].costdiff),
    decreases t.len() - j,
{
    if j < t.len() && cost_order_key(x.costdiff) > cost_order_key(t[j].costdiff) {
        lemma_insert_position_facts(t, x, j + 1);
    }
}

} // verus!
