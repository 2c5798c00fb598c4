//! Fixed-point number representation used throughout the library.
//!
//! Ratings, latent factors and error values are real numbers in the
//! mathematical description of the algorithm.  The library represents such a
//! number exactly as an `i64` count of units of `1 / SCALE`, so every
//! computation is integer arithmetic and every result is pinned down by a
//! specification.  A product of two fixed-point numbers carries a factor
//! `SCALE * SCALE` and is brought back to scale with a truncating division
//! (rounding toward zero), the single rounding rule of the library.

use vstd::prelude::*;

verus! {

/// Number of fixed-point units per whole rating unit: a stored value `q`
/// stands for the real number `q / SCALE`.
pub const SCALE: i64 = 1_000_000;

/// Half of one unit, used when rounding to the nearest whole rating.
pub const HALF_SCALE: i64 = 500_000;

/// Largest magnitude any stored matrix entry may take (1000 rating units).
/// A training run whose factors or predictions leave this range reports a
/// numeric-overflow condition instead of continuing with wrapped values.
pub const VAL_MAX: i64 = 1_000_000_000;

/// Largest accepted row count, column count and latent dimensionality.
/// Together with `VAL_MAX` it keeps every intermediate product inside `i128`.
pub const DIM_MAX: usize = 10_000;

/// Truncating division: the quotient rounded toward zero, defined for a
/// positive divisor.  This is the rounding applied whenever a scaled product
/// is divided back down.
pub open spec fn t_div(a: int, b: int) -> int {
    if a >= 0 {
        a / b
    } else {
        -((-a) / b)
    }
}

/// The magnitude of a truncated quotient never exceeds the magnitude of the
/// dividend, and the quotient keeps the dividend's sign.
pub proof fn lemma_t_div_bounds(a: int, b: int)
    requires
        b >= 1,
    ensures
        a >= 0 ==> 0 <= t_div(a, b) <= a,
        a < 0 ==> a <= t_div(a, b) <= 0,
{
    if a >= 0 {
        vstd::arithmetic::div_mod::lemma_div_pos_is_pos(a, b);
        vstd::arithmetic::div_mod::lemma_div_nonincreasing(a, b);
    } else {
        vstd::arithmetic::div_mod::lemma_div_pos_is_pos(-a, b);
        vstd::arithmetic::div_mod::lemma_div_nonincreasing(-a, b);
    }
}


/// A bound on the dividend yields the corresponding bound on the truncated
/// quotient.
pub proof fn lemma_t_div_mag(a: int, b: int, abound: int)
    requires
        b >= 1,
        0 <= abound,
        -abound <= a <= abound,
    ensures
        -(abound / b) <= t_div(a, b) <= abound / b,
{
    lemma_t_div_bounds(a, b);
    vstd::arithmetic::div_mod::lemma_div_pos_is_pos(abound, b);
    if a >= 0 {
        vstd::arithmetic::div_mod::lemma_div_is_ordered(a, abound, b);
        vstd::arithmetic::div_mod::lemma_div_pos_is_pos(a, b);
    } else {
        vstd::arithmetic::div_mod::lemma_div_is_ordered(-a, abound, b);
        vstd::arithmetic::div_mod::lemma_div_pos_is_pos(-a, b);
    }
}


/// Truncating division of an `i128`, executable counterpart of `t_div`.
pub fn div_trunc(a: i128, b: i128) -> (r: i128)
    requires
        b >= 1,
    ensures
        r == t_div(a as int, b as int),
{
    proof {
        lemma_t_div_bounds(a as int, b as int);
    }
    let r = a.checked_div(b);
    match r {
        Some(q) => q,
        None => {
            proof {
                assert(false);
            }
            0
        },
    }
}

/// A product of two values bounded in magnitude is bounded by the product of
/// the bounds.
pub proof fn lemma_mul_bounds(a: int, b: int, bound_a: int, bound_b: int)
    requires
        -bound_a <= a <= bound_a,
        -bound_b <= b <= bound_b,
    ensures
        -(bound_a * bound_b) <= a * b <= bound_a * bound_b,
{
    assert(-(bound_a * bound_b) <= a * b <= bound_a * bound_b) by (nonlinear_arith)
        requires
            -bound_a <= a <= bound_a,
            -bound_b <= b <= bound_b,
    ;
}

} // verus!
