use vstd::prelude::*;
use vstd::arithmetic::power2::{pow2, lemma2_to64, lemma2_to64_rest, lemma_pow2_unfold, lemma_pow2_pos};

verus! {

/// The smaller of two sizes.
pub fn brotli_min_size_t(a: usize, b: usize) -> (r: usize)
    ensures
        r == (if a < b { a } else { b }),
{
    if a < b {
        a
    } else {
        b
    }
}

/// The larger of two sizes.
pub fn brotli_max_size_t(a: usize, b: usize) -> (r: usize)
    ensures
        r == (if a > b { a } else { b }),
{
    if a > b {
        a
    } else {
        b
    }
}

/// Floor of the base-2 logarithm of a positive integer.
pub open spec fn log2_floor(n: nat) -> nat
    decreases n,
{
    if n <= 1 {
        0
    } else {
        1 + log2_floor(n / 2)
    }
}

/// The exponent that brackets `n` between two consecutive powers of two is its
/// logarithm.
pub proof fn lemma_log2_floor_unique(n: nat, k: nat)
    requires
        pow2(k) <= n < pow2(k + 1),
    ensures
        log2_floor(n) == k,
    decreases k,
{
    lemma_pow2_unfold(k + 1);
    if k > 0 {
        lemma_pow2_unfold(k);
        lemma_log2_floor_unique(n / 2, (k - 1) as nat);
    } else {
        assert(pow2(0) == 1) by {
            lemma2_to64();
        }
    }
}

/// Floor of the base-2 logarithm of a non-zero 64-bit value: the exponent of
/// the highest set bit.
pub fn Log2FloorNonZero(n: u64) -> (r: u32)
    requires
        n != 0,
    ensures
        r < 64,
        pow2(r as nat) <= n < pow2(r as nat + 1),
        r as nat == log2_floor(n as nat),
{
    let mut v: u64 = n;
    let mut r: u32 = 0;
    proof {
        lemma2_to64();
    }
    while v > 1
        invariant
            1 <= v,
            r < 64,
            pow2(r as nat) * v <= n < pow2(r as nat) * (v + 1),
        decreases v,
    {
        proof {
            lemma_pow2_unfold(r as nat + 1);
            lemma_pow2_pos(r as nat);
            let p = pow2(r as nat);
            let h = v / 2;
            assert(p * v == 2 * p * h + p * (v % 2)) by (nonlinear_arith)
                requires h == v / 2;
            assert(p * (v + 1) <= 2 * p * (h + 1)) by (nonlinear_arith)
                requires h == v / 2, p > 0;
            assert(2 * p * h <= p * v) by (nonlinear_arith)
                requires h == v / 2, p > 0;
            if r >= 63 {
                lemma2_to64_rest();
                assert(p * v >= 2 * p) by (nonlinear_arith)
                    requires v >= 2, p > 0;
                assert(false);
            }
        }
        v = v / 2;
        r = r + 1;
    }
    proof {
        lemma_pow2_unfold(r as nat + 1);
        assert(v == 1);
        assert(pow2(r as nat) * (v + 1) == 2 * pow2(r as nat)) by (nonlinear_arith)
            requires v == 1;
        lemma_log2_floor_unique(n as nat, r as nat);
    }
    r
}

} // verus!
