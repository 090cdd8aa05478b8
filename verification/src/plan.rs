//! The bucket plan: how many buckets the sort uses, how wide each one is,
//! and which bucket a value falls in.

use vstd::prelude::*;
use vstd::arithmetic::div_mod::{
    lemma_div_is_ordered, lemma_div_pos_is_pos, lemma_fundamental_div_mod,
    lemma_mod_division_less_than_divisor, lemma_multiply_divide_lt,
};
use vstd::arithmetic::power2::{lemma2_to64, lemma2_to64_rest, lemma_pow2_unfold, pow2};

verus! {

/// The ceiling of the base-two logarithm; zero for arguments of at most one.
pub open spec fn ceil_log2(n: nat) -> nat
    decreases n,
{
    if n <= 1 {
        0
    } else {
        1 + ceil_log2((n + 1) / 2)
    }
}

/// The number of buckets the plan uses for an input of length `n`:
/// `ceil(log2(n))`, raised to at least one bucket.
pub open spec fn num_buckets_for(n: nat) -> nat {
    if ceil_log2(n) == 0 {
        1
    } else {
        ceil_log2(n)
    }
}

/// The width of one bucket: the ceiling of `(hi - lo + 1) / nb`, written
/// without intermediate rounding as `(hi - lo) / nb + 1`.
pub open spec fn step_for(lo: int, hi: int, nb: int) -> int
    recommends
        lo <= hi,
        nb >= 1,
{
    (hi - lo) / nb + 1
}

/// The bucket a value falls in: how many whole steps it sits above `lo`.
pub open spec fn bucket_of(v: int, lo: int, step: int) -> int
    recommends
        step >= 1,
{
    (v - lo) / step
}

/// An argument no larger than a power of two has that exponent as a bound
/// on its ceiling logarithm.
proof fn lemma_ceil_log2_le(n: nat, k: nat)
    requires
        n <= pow2(k),
    ensures
        ceil_log2(n) <= k,
    decreases n,
{
    if n > 1 {
        if k == 0 {
            assert(pow2(0) == 1) by {
                lemma2_to64();
            }
        }
        lemma_pow2_unfold(k);
        assert((n + 1) / 2 <= pow2((k - 1) as nat));
        lemma_ceil_log2_le((n + 1) / 2, (k - 1) as nat);
    }
}

/// The ceiling logarithm of a machine-sized length stays below 64.
proof fn lemma_ceil_log2_of_usize(n: usize)
    ensures
        ceil_log2(n as nat) <= 64,
{
    lemma2_to64();
    lemma2_to64_rest();
    assert(n as nat <= pow2(64));
    lemma_ceil_log2_le(n as nat, 64);
}

/// Computes the bucket count of the plan: the ceiling of `log2(n)`,
/// raised to at least one.
pub fn num_buckets(n: usize) -> (r: usize)
    ensures
        r as nat == num_buckets_for(n as nat),
        r >= 1,
{
    proof {
        lemma_ceil_log2_of_usize(n);
    }
    let mut m: usize = n;
    let mut k: usize = 0;
    while m > 1
        invariant
            k + ceil_log2(m as nat) == ceil_log2(n as nat),
            ceil_log2(n as nat) <= 64,
        decreases m,
    {
        proof {
            assert(ceil_log2(m as nat) == 1 + ceil_log2(((m + 1) / 2) as nat));
            assert((m - 1) / 2 + 1 == (m + 1) / 2);
        }
        m = (m - 1) / 2 + 1;
        k = k + 1;
    }
    proof {
        assert(ceil_log2(m as nat) == 0);
    }
    if k == 0 {
        1
    } else {
        k
    }
}

/// Computes the bucket width of the plan in arithmetic wide enough for the
/// whole `i32` range: the ceiling of `(hi - lo + 1) / nb`.
pub fn compute_step(lo: i32, hi: i32, nb: usize) -> (r: u64)
    requires
        lo <= hi,
        nb >= 1,
    ensures
        r as int == step_for(lo as int, hi as int, nb as int),
        r >= 1,
{
    let d: u64 = (hi as i64 - lo as i64) as u64;
    proof {
        lemma_div_pos_is_pos(d as int, nb as int);
        lemma_div_is_ordered(d as int, u32::MAX as int, nb as int);
    }
    d / (nb as u64) + 1
}

/// Every value between the extremes falls in a bucket below the count.
pub proof fn lemma_bucket_in_range(v: int, lo: int, hi: int, nb: int)
    requires
        nb >= 1,
        lo <= v,
        v <= hi,
    ensures
        0 <= bucket_of(v, lo, step_for(lo, hi, nb)),
        bucket_of(v, lo, step_for(lo, hi, nb)) < nb,
{
    let d = hi - lo;
    let q = d / nb;
    let s = q + 1;
    lemma_div_pos_is_pos(d, nb);
    lemma_div_pos_is_pos(v - lo, s);
    lemma_fundamental_div_mod(d, nb);
    lemma_mod_division_less_than_divisor(d, nb);
    assert(s * nb == nb * q + nb) by (nonlinear_arith)
        requires
            s == q + 1,
    ;
    assert(d < s * nb);
    lemma_div_is_ordered(v - lo, d, s);
    lemma_multiply_divide_lt(d, s, nb);
}

/// A value in a later bucket is strictly larger.
pub proof fn lemma_bucket_order(x: int, y: int, lo: int, step: int)
    requires
        step >= 1,
        bucket_of(x, lo, step) < bucket_of(y, lo, step),
    ensures
        x < y,
{
    if y <= x {
        lemma_div_is_ordered(y - lo, x - lo, step);
    }
}

} // verus!
