//! The weight semiring.
//!
//! Weights are nonnegative integers with saturating addition and saturating
//! multiplication; a higher weight is preferred.  `0` is the additive and `1`
//! the multiplicative identity.  Grouped transitions add their weights, runs
//! multiply the weights of their members.

use vstd::prelude::*;

verus! {

/// Saturating weight addition: the exact sum where it fits in `u64`,
/// `u64::MAX` otherwise.
pub open spec fn w_add(a: u64, b: u64) -> u64 {
    if a + b > u64::MAX {
        u64::MAX
    } else {
        (a + b) as u64
    }
}

/// Saturating weight multiplication: the exact product where it fits in
/// `u64`, `u64::MAX` otherwise.
pub open spec fn w_mul(a: u64, b: u64) -> u64 {
    if a * b > u64::MAX {
        u64::MAX
    } else {
        (a * b) as u64
    }
}

/// Executable weight addition.
pub fn weight_add(a: u64, b: u64) -> (r: u64)
    ensures
        r == w_add(a, b),
{
    a.saturating_add(b)
}

/// Executable weight multiplication.
pub fn weight_mul(a: u64, b: u64) -> (r: u64)
    ensures
        r == w_mul(a, b),
{
    match a.checked_mul(b) {
        Some(p) => p,
        None => u64::MAX,
    }
}

/// A saturating sum is an upper bound for both summands.
pub proof fn lemma_w_add_upper_bound(a: u64, b: u64)
    ensures
        a <= w_add(a, b),
        b <= w_add(a, b),
{
}

/// Saturating multiplication is monotone in both arguments.
pub proof fn lemma_w_mul_mono(a1: u64, a2: u64, b1: u64, b2: u64)
    requires
        a1 <= a2,
        b1 <= b2,
    ensures
        w_mul(a1, b1) <= w_mul(a2, b2),
{
    assert(a1 * b1 <= a2 * b2) by (nonlinear_arith)
        requires
            a1 <= a2,
            b1 <= b2,
    ;
}

} // verus!
