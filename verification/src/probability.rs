//! Probabilities as fixed-point numbers.

use crate::sums::total;
use vstd::prelude::*;

verus! {

/// The probability one. A probability `x` is held as the integer `x * ONE`,
/// so the unit of probability is `1 / ONE`, a millionth of a millionth.
pub const ONE: u64 = 1_000_000_000_000;

/// The distance between two successive densities below which the iteration
/// stops: a thousand units, which is a thousandth of a millionth.
pub const TOLERANCE: u64 = 1_000;

/// `d` is a probability distribution: its entries add up to `ONE`.
pub open spec fn is_density(d: Seq<u64>) -> bool {
    total(d) == ONE
}

/// Dividing and multiplying back does not exceed the dividend.
pub proof fn lemma_floor_times(a: int, b: int)
    requires
        0 <= a,
        0 < b,
    ensures
        0 <= a / b,
        (a / b) * b <= a,
{
    vstd::arithmetic::div_mod::lemma_fundamental_div_mod(a, b);
    vstd::arithmetic::div_mod::lemma_mod_bound(a, b);
    vstd::arithmetic::div_mod::lemma_div_pos_is_pos(a, b);
    assert(b * (a / b) == (a / b) * b) by (nonlinear_arith);
}

/// The quotient of a difference is no more than the difference of the
/// quotients.
pub proof fn lemma_floor_of_difference(x: int, y: int, t: int)
    requires
        0 <= y <= x,
        0 < t,
    ensures
        (x - y) / t <= x / t - y / t,
{
    let q1: int = (x - y) / t;
    let q2: int = y / t;
    lemma_floor_times(x - y, t);
    lemma_floor_times(y, t);
    assert((q1 + q2) * t == q1 * t + q2 * t) by (nonlinear_arith);
    vstd::arithmetic::div_mod::lemma_div_is_ordered((q1 + q2) * t, x, t);
    vstd::arithmetic::div_mod::lemma_div_by_multiple(q1 + q2, t);
}

/// The part `ONE * part / whole` of a whole lies between 0 and `ONE`, and
/// grows with the part.
pub proof fn lemma_scaled_part(part: int, more: int, whole: int)
    requires
        0 <= part <= more <= whole,
        0 < whole,
    ensures
        0 <= ONE * part / whole <= ONE * more / whole <= ONE,
        ONE * whole / whole == ONE,
        ONE * 0 / whole == 0,
{
    vstd::arithmetic::div_mod::lemma_div_multiples_vanish(ONE as int, whole);
    assert(whole * ONE == ONE * whole);
    vstd::arithmetic::div_mod::lemma_div_is_ordered(ONE * part, ONE * more, whole);
    vstd::arithmetic::div_mod::lemma_div_is_ordered(ONE * more, ONE * whole, whole);
    vstd::arithmetic::div_mod::lemma_div_pos_is_pos(ONE * part, whole);
    vstd::arithmetic::div_mod::lemma_div_of0(whole);
}

/// The increments of `ONE * j / p` are at least one unit each, where there
/// are no more than `ONE` of them.
pub proof fn lemma_increment_positive(p: int, j: int)
    requires
        0 < p <= ONE,
        0 <= j < p,
    ensures
        0 <= ONE * j / p,
        1 <= ONE * (j + 1) / p - ONE * j / p <= ONE,
{
    lemma_scaled_part(j, j + 1, p);
    vstd::arithmetic::div_mod::lemma_div_plus_one(ONE * j, p);
    vstd::arithmetic::div_mod::lemma_div_is_ordered(p + ONE * j, ONE * (j + 1), p);
}

} // verus!
