//! Quotients rounded the way binary floating point rounds them, in whole numbers.
//!
//! A byte count is shown as a quotient with two decimals. The quotient is the one
//! that arithmetic on 64-bit binary floating-point numbers gives: the count is
//! rounded to 53 significant bits, the quotient of that by the unit is rounded to
//! 53 significant bits, and the result is rounded to hundredths. Each rounding
//! goes to the nearest value and, exactly halfway between two values, to the even
//! one. Here the three steps are carried out on whole numbers, so that the result
//! can be stated and proved.
//!
//! A count of 1005 bytes, for one, is not shown as 1.01 thousands: the binary
//! number nearest to 1.005 lies a little below it, so 1.00 is shown.

use vstd::prelude::*;

verus! {

/// Two to the power of 52: the least significand of 53 bits.
pub const SIGNIFICAND_MIN: u128 = 4503599627370496;

/// Two to the power of 53: the end of the significands of 53 bits.
pub const SIGNIFICAND_END: u128 = 9007199254740992;

/// The whole number nearest to `numerator / denominator`; halfway between two
/// whole numbers, the even one.
pub open spec fn nearest(numerator: nat, denominator: nat) -> nat
    recommends
        denominator > 0,
{
    let quotient = numerator / denominator;
    let rest = numerator % denominator;
    if 2 * rest > denominator || (2 * rest == denominator && quotient % 2 == 1) {
        quotient + 1
    } else {
        quotient
    }
}

/// The least of `step`, `2 * step`, `4 * step`, ... that divides `n` down to fewer
/// than 54 bits.
pub open spec fn coarseness(n: nat, step: nat) -> nat
    decreases n - step,
{
    if step == 0 || n < step * SIGNIFICAND_END as nat {
        step
    } else {
        coarseness(n, 2 * step)
    }
}

/// `n` rounded to 53 significant bits.
pub open spec fn significant(n: nat) -> nat {
    let step = coarseness(n, 1);
    nearest(n, step) * step
}

/// The first of `p`, `2 * p`, `4 * p`, ... that is not below `bound`.
pub open spec fn lifted(p: nat, bound: nat) -> nat
    decreases
            (if p < bound {
                bound - p
            } else {
                0
            }),
{
    if p == 0 || p >= bound {
        p
    } else {
        lifted(2 * p, bound)
    }
}

/// The power of two by which `p` is multiplied to give `lifted(p, bound)`.
pub open spec fn lift(p: nat, bound: nat) -> nat
    decreases
            (if p < bound {
                bound - p
            } else {
                0
            }),
{
    if p == 0 || p >= bound {
        1
    } else {
        2 * lift(2 * p, bound)
    }
}

/// A hundred times `n / unit`, rounded in the three steps described at the head
/// of this file: `significand / lift` is the quotient with 53 significant bits,
/// as long as `n / unit` is below two to the power of 52.
pub open spec fn hundredths(n: nat, unit: nat) -> nat {
    let value = significant(n);
    let bound = (unit * SIGNIFICAND_MIN) as nat;
    let significand = nearest(lifted(value, bound), unit);
    nearest(significand * 100, lift(value, bound))
}

/// The whole number nearest to `numerator / denominator`; halfway between two
/// whole numbers, the even one.
pub fn round_to_nearest(numerator: u128, denominator: u128) -> (rounded: u128)
    requires
        denominator > 0,
    ensures
        rounded == nearest(numerator as nat, denominator as nat),
        rounded <= numerator,
{
    let quotient: u128 = numerator / denominator;
    let rest: u128 = numerator % denominator;
    assert(quotient <= numerator) by (nonlinear_arith)
        requires
            quotient == numerator / denominator,
            denominator > 0,
    ;
    assert(rest < denominator);
    assert(rest > 0 ==> quotient < numerator) by (nonlinear_arith)
        requires
            quotient == numerator / denominator,
            rest == numerator % denominator,
            denominator > 0,
    ;
    if rest > denominator - rest || (rest == denominator - rest && quotient % 2 == 1) {
        quotient + 1
    } else {
        quotient
    }
}

/// `n` rounded to 53 significant bits.
pub fn round_to_significant(n: u64) -> (value: u128)
    ensures
        value == significant(n as nat),
        n > 0 ==> value > 0,
        value <= 0x2_0000_0000_0000_0000,
{
    let wide: u128 = n as u128;
    let mut step: u128 = 1;
    while wide >= step * SIGNIFICAND_END
        invariant
            wide == n,
            step >= 1,
            step == 1 || step * SIGNIFICAND_MIN <= wide,
            coarseness(n as nat, 1) == coarseness(n as nat, step as nat),
        decreases wide - step,
    {
        step = step * 2;
    }
    let kept = round_to_nearest(wide, step);
    proof {
        let quotient = wide / step;
        assert(quotient * step <= wide) by (nonlinear_arith)
            requires
                quotient == wide / step,
                step > 0,
        ;
        assert(wide >= step ==> quotient >= 1) by (nonlinear_arith)
            requires
                quotient == wide / step,
                step > 0,
        ;
        assert(kept * step <= quotient * step + step && (kept >= 1 ==> kept * step >= step))
            by (nonlinear_arith)
            requires
                quotient <= kept <= quotient + 1,
                step > 0,
        ;
    }
    kept * step
}

/// A hundred times `n / unit`, rounded in the three steps described at the head
/// of this file.
pub fn hundredths_of(n: u64, unit: u64) -> (rounded: u128)
    requires
        0 < unit <= 1_000_000_000,
    ensures
        rounded == hundredths(n as nat, unit as nat),
{
    if n == 0 {
        assert(significant(0) == 0) by (nonlinear_arith)
            requires
                significant(0) == nearest(0, coarseness(0, 1)) * coarseness(0, 1),
                nearest(0, coarseness(0, 1)) == 0,
        ;
        return 0;
    }
    let value = round_to_significant(n);
    let bound: u128 = (unit as u128) * SIGNIFICAND_MIN;
    let mut p: u128 = value;
    let mut scale: u128 = 1;
    while p < bound
        invariant
            0 < p,
            0 < scale <= p,
            p <= 0x2_0000_0000_0000_0000 || p < 2 * bound,
            bound == unit * SIGNIFICAND_MIN,
            0 < unit <= 1_000_000_000,
            lifted(value as nat, bound as nat) == lifted(p as nat, bound as nat),
            lift(value as nat, bound as nat) == scale * lift(p as nat, bound as nat),
        decreases
                (if p < bound {
                    bound - p
                } else {
                    0
                }),
    {
        assert(scale * (2 * lift(2 * p as nat, bound as nat)) == (scale * 2) * lift(
            2 * p as nat,
            bound as nat,
        )) by (nonlinear_arith);
        p = p * 2;
        scale = scale * 2;
    }
    assert(scale * 1 == scale);
    let significand = round_to_nearest(p, unit as u128);
    round_to_nearest(significand * 100, scale)
}

} // verus!
