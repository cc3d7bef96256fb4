//! Fixed-point quantities.
//!
//! Every quantity of the engine is a whole number of millionths: shares,
//! demand, footprints and weights alike. [`ONE`] stands for 1.

use vstd::prelude::*;

verus! {

/// The number that stands for 1.
pub const ONE: u64 = 1_000_000;

/// The product of a quantity and a share of at most one, rounded down.
pub open spec fn spec_scale(amount: u64, share: u64) -> nat {
    ((amount as nat) * (share as nat) / (ONE as nat)) as nat
}

/// No share of a quantity exceeds the quantity, and the whole is all of it.
pub proof fn lemma_scale_within(amount: u64, share: u64)
    requires
        share <= ONE,
    ensures
        spec_scale(amount, share) <= amount,
        spec_scale(amount, ONE) == amount,
        spec_scale(amount, 0) == 0,
{
    assert((amount as nat) * (share as nat) / (ONE as nat) <= amount) by (nonlinear_arith)
        requires
            share <= ONE,
            ONE == 1_000_000,
    ;
    assert((amount as nat) * (ONE as nat) / (ONE as nat) == amount) by (nonlinear_arith)
        requires
            ONE == 1_000_000,
    ;
    assert((amount as nat) * 0 / (ONE as nat) == 0) by (nonlinear_arith)
        requires
            ONE == 1_000_000,
    ;
}

/// Multiplies a quantity by a share of at most one, rounding down.
pub fn scale(amount: u64, share: u64) -> (part: u64)
    requires
        share <= ONE,
    ensures
        part == spec_scale(amount, share),
{
    proof {
        lemma_scale_within(amount, share);
    }
    (product(amount, share) / (ONE as u128)) as u64
}

/// The product of two quantities, in units of [`ONE`] times [`ONE`]. It is
/// always within the range of `u128`.
pub fn product(a: u64, b: u64) -> (wide: u128)
    ensures
        wide == (a as nat) * (b as nat),
{
    assert((a as nat) * (b as nat) <= u64::MAX * u64::MAX) by (nonlinear_arith)
        requires
            a <= u64::MAX,
            b <= u64::MAX,
    ;
    (a as u128) * (b as u128)
}

} // verus!
