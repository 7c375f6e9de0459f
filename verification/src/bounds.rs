//! How large the results of arithmetic on doubles are, and how they are ordered.

use crate::double::signed;
use crate::rating::{zero_rating, OrdF64, HIDDEN_BIT, INFINITY_BITS};
use crate::rounding::{
    lemma_nearest_exists, lemma_power_units, lemma_rounding_keeps_order, lemma_rounds_at_least,
    lemma_rounds_at_most, lemma_rounds_to_itself, lemma_step, lemma_units_at, lemma_units_increase,
    lemma_units_is_units_at, lemma_units_of_zero, lemma_units_order, lemma_zero, nearest, rounded,
    units_at,
};
use vstd::arithmetic::power2::{
    lemma2_to64, lemma2_to64_rest, lemma_pow2_adds, lemma_pow2_pos, lemma_pow2_unfold, pow2,
};
use vstd::prelude::*;

verus! {

/// The parts of a double with a sign and a magnitude.
pub proof fn lemma_signed(negative: bool, magnitude: int)
    requires
        0 <= magnitude <= INFINITY_BITS,
    ensures
        signed(negative, magnitude).negative() == negative,
        signed(negative, magnitude).magnitude() == magnitude,
        signed(negative, magnitude).units() == units_at(magnitude),
{
    lemma_units_is_units_at(signed(negative, magnitude));
}

/// Whole numbers that fit in 64 bits, and how large their doubles are.
pub proof fn lemma_whole(n: nat)
    requires
        n <= u64::MAX,
    ensures
        OrdF64::whole(n).finite(),
        !OrdF64::whole(n).negative(),
        0 <= OrdF64::whole(n).units() <= pow2(1074 + 64),
        n >= 1 ==> OrdF64::whole(n).units() >= pow2(1074) && OrdF64::whole(n).magnitude() > 0,
        n == 0 ==> OrdF64::whole(n) == zero_rating(),
{
    let one = pow2(1074) as int;
    let num = n * one;
    let m = rounded(num, 1);
    lemma_pow2_pos(1074);
    assert(0 <= num) by (nonlinear_arith)
        requires
            num == n * one,
            one > 0,
    ;
    lemma_nearest_exists(num, 1);
    lemma_power_units(64);
    lemma_power_units(0);
    lemma_pow2_adds(64, 1074);
    lemma2_to64_rest();
    assert(num <= pow2(64) * one) by (nonlinear_arith)
        requires
            num == n * one,
            n <= pow2(64),
            one > 0,
    ;
    let top = (1023 + 64) * HIDDEN_BIT;
    let bottom = (1023 + 0) * HIDDEN_BIT;
    lemma_rounds_at_most(num, 1, m, top);
    lemma_signed(false, m);
    let _ = lemma_step(m);
    if m < top {
        lemma_units_increase(m, top);
    }
    if n == 0 {
        lemma_zero(1);
    }
    if n >= 1 {
        assert(one <= num) by (nonlinear_arith)
            requires
                num == n * one,
                n >= 1,
                one > 0,
        ;
        lemma_rounds_at_least(num, 1, m, bottom);
        if bottom < m {
            lemma_units_increase(bottom, m);
        }
    }
}

/// Doubles of whole numbers keep their order.
pub proof fn lemma_wholes_keep_order(a: nat, b: nat)
    requires
        a <= b <= u64::MAX,
    ensures
        OrdF64::whole(a).magnitude() <= OrdF64::whole(b).magnitude(),
        OrdF64::whole(a).units() <= OrdF64::whole(b).units(),
{
    let one = pow2(1074) as int;
    lemma_pow2_pos(1074);
    assert(0 <= a * one <= b * one) by (nonlinear_arith)
        requires
            a <= b,
            one > 0,
    ;
    lemma_nearest_exists(a * one, 1);
    lemma_nearest_exists(b * one, 1);
    let (x, y) = (rounded(a * one, 1), rounded(b * one, 1));
    lemma_rounding_keeps_order(a * one, 1, x, b * one, 1, y);
    lemma_signed(false, x);
    lemma_signed(false, y);
    lemma_whole(a);
    lemma_whole(b);
    lemma_units_order(OrdF64::whole(a), OrdF64::whole(b));
}

/// Whole numbers below two to the power 53 are doubles themselves.
pub proof fn lemma_whole_is_exact(n: nat)
    requires
        n < 2 * HIDDEN_BIT,
    ensures
        OrdF64::whole(n).units() == n * pow2(1074),
{
    if n == 0 {
        lemma_whole(0);
        lemma_units_of_zero();
    } else {
        lemma2_to64();
        let k = lemma_top_bit(n, 0);
        let up = (52 - k) as nat;
        let scale = (1022 + k) as nat;
        let q = n * pow2(up) as int;
        lemma2_to64_rest();
        lemma_pow2_adds(k, up);
        lemma_pow2_adds((k + 1) as nat, up);
        lemma_pow2_pos(up);
        assert(pow2(k) * pow2(up) <= q < pow2((k + 1) as nat) * pow2(up)) by (nonlinear_arith)
            requires
                q == n * pow2(up),
                pow2(k) <= n < pow2((k + 1) as nat),
                pow2(up) > 0,
        ;
        lemma_units_at(scale, q);
        lemma_pow2_adds(up, scale);
        assert(q * pow2(scale) == n * (pow2(up) * pow2(scale))) by (nonlinear_arith)
            requires
                q == n * pow2(up),
        ;
        let m = scale * HIDDEN_BIT + q;
        lemma_rounds_to_itself(m);
        lemma_signed(false, m);
        assert(n * pow2(1074) as int == units_at(m));
    }
}

/// The place of the highest bit of a number.
pub proof fn lemma_top_bit(n: nat, from: nat) -> (k: nat)
    requires
        0 < n < 2 * HIDDEN_BIT,
        from <= 52,
        pow2(from) <= n,
    ensures
        k <= 52,
        pow2(k) <= n < pow2((k + 1) as nat),
    decreases 53 - from,
{
    lemma2_to64_rest();
    if n < pow2((from + 1) as nat) {
        from
    } else {
        assert(from < 52);
        lemma_top_bit(n, (from + 1) as nat)
    }
}

/// The double of one.
pub proof fn lemma_one()
    ensures
        OrdF64::whole(1).bits == 0x3ff0_0000_0000_0000,
        OrdF64::whole(1).units() == pow2(1074),
        rounded(pow2(1074) as int, 1) == 0x3ff0_0000_0000_0000,
{
    let m = (1023 + 0) * HIDDEN_BIT;
    lemma_power_units(0);
    lemma_rounds_to_itself(m);
    assert(1 * pow2(1074) as int == pow2(1074));
    lemma_signed(false, m);
}

/// How large the sum of two doubles is of which none is below zero.
pub proof fn lemma_sum_bound(a: OrdF64, b: OrdF64, j: nat)
    requires
        a.finite(),
        b.finite(),
        !a.negative(),
        b.negative() ==> b.magnitude() == 0,
        a.units() <= pow2(1074 + j),
        b.units() <= pow2(1074 + j),
        j < 1023,
    ensures
        a.plus(b).finite(),
        !a.plus(b).negative(),
        a.units() <= a.plus(b).units() <= pow2(1074 + j + 1),
{
    let sum = a.units() + b.units();
    let top = (1023 + (j + 1)) * HIDDEN_BIT;
    lemma_units_order(a, b);
    lemma_units_order(b, zero_rating());
    lemma_units_of_zero();
    lemma_units_is_units_at(a);
    lemma_power_units(j + 1);
    lemma_pow2_unfold(1074 + j + 1);
    lemma_nearest_exists(sum, 1);
    let m = rounded(sum, 1);
    lemma_rounds_at_most(sum, 1, m, top);
    lemma_rounds_at_least(sum, 1, m, a.magnitude());
    lemma_zero(1);
    lemma_signed(false, m);
    let _ = lemma_step(m);
    if m < top {
        lemma_units_increase(m, top);
    }
    if a.magnitude() < m {
        lemma_units_increase(a.magnitude(), m);
    }
}

/// The sum of two doubles that are not below zero, by its place in numeric
/// order.
pub proof fn lemma_sum_order(a: OrdF64, b: OrdF64)
    requires
        a.finite(),
        b.finite(),
        a.negative() ==> a.magnitude() == 0,
        b.negative() ==> b.magnitude() == 0,
    ensures
        a.units() >= 0,
        b.units() >= 0,
        a.plus(b).order() == rounded(a.units() + b.units(), 1),
        nearest(a.units() + b.units(), 1, a.plus(b).order()),
        a.plus(b).negative() ==> a.plus(b).magnitude() == 0,
{
    let sum = a.units() + b.units();
    lemma_units_order(a, b);
    lemma_units_order(a, zero_rating());
    lemma_units_order(b, zero_rating());
    lemma_units_of_zero();
    lemma_zero(1);
    lemma_nearest_exists(sum, 1);
    lemma_signed(false, rounded(sum, 1));
    lemma_signed(a.negative() && b.negative(), 0);
}

/// Adding more gives no less.
pub proof fn lemma_sums_keep_order(a: OrdF64, b: OrdF64, c: OrdF64)
    requires
        a.finite(),
        !b.nan(),
        !c.nan(),
        a.negative() ==> a.magnitude() == 0,
        b.negative() ==> b.magnitude() == 0,
        c.negative() ==> c.magnitude() == 0,
        b.magnitude() <= c.magnitude(),
    ensures
        !a.plus(b).nan(),
        !a.plus(c).nan(),
        a.plus(b).order() <= a.plus(c).order(),
{
    if c.finite() {
        lemma_sum_order(a, b);
        lemma_sum_order(a, c);
        lemma_units_order(b, c);
        lemma_rounding_keeps_order(
            a.units() + b.units(),
            1,
            a.plus(b).order(),
            a.units() + c.units(),
            1,
            a.plus(c).order(),
        );
    } else if b.finite() {
        lemma_sum_order(a, b);
    }
}

/// Multiplying by more gives no less.
pub proof fn lemma_products_keep_order(a: OrdF64, b: OrdF64, c: OrdF64)
    requires
        a.finite(),
        b.finite(),
        c.finite(),
        a.negative() ==> a.magnitude() == 0,
        !b.negative(),
        !c.negative(),
        b.magnitude() <= c.magnitude(),
    ensures
        !a.times(b).nan(),
        !a.times(c).nan(),
        a.times(b).negative() ==> a.times(b).magnitude() == 0,
        a.times(c).negative() ==> a.times(c).magnitude() == 0,
        a.times(b).magnitude() <= a.times(c).magnitude(),
{
    let den = pow2(1074) as int;
    let (n1, n2) = (a.units() * b.units(), a.units() * c.units());
    lemma_pow2_pos(1074);
    lemma_units_order(b, c);
    lemma_units_order(a, zero_rating());
    lemma_units_of_zero();
    assert(0 <= n1 <= n2 && (a.units() == 0 ==> n1 == 0 && n2 == 0)) by (nonlinear_arith)
        requires
            n1 == a.units() * b.units(),
            n2 == a.units() * c.units(),
            0 <= a.units(),
            0 <= b.units() <= c.units(),
    ;
    assert(n1 * den <= n2 * den) by (nonlinear_arith)
        requires
            n1 <= n2,
            den > 0,
    ;
    lemma_nearest_exists(n1, den);
    lemma_nearest_exists(n2, den);
    lemma_rounding_keeps_order(n1, den, rounded(n1, den), n2, den, rounded(n2, den));
    lemma_zero(den);
    lemma_signed(a.negative(), rounded(n1, den));
    lemma_signed(a.negative(), rounded(n2, den));
}

/// A quotient by something no smaller is at most one.
pub proof fn lemma_part_of_one(a: OrdF64, b: OrdF64)
    requires
        a.finite(),
        b.finite(),
        !a.negative(),
        !b.negative(),
        0 <= a.units() <= b.units(),
        b.units() > 0,
    ensures
        a.over(b).finite(),
        !a.over(b).negative(),
        0 <= a.over(b).units() <= pow2(1074),
{
    let one = pow2(1074) as int;
    let num = a.units() * one;
    let top = (1023 + 0) * HIDDEN_BIT;
    lemma_pow2_pos(1074);
    lemma_power_units(0);
    assert(0 <= num <= b.units() * units_at(top)) by (nonlinear_arith)
        requires
            num == a.units() * one,
            units_at(top) == one,
            0 <= a.units() <= b.units(),
            one > 0,
    ;
    lemma_nearest_exists(num, b.units());
    let m = rounded(num, b.units());
    lemma_rounds_at_most(num, b.units(), m, top);
    lemma_signed(false, m);
    let _ = lemma_step(m);
    if m < top {
        lemma_units_increase(m, top);
    }
}

/// A quotient by one or more is no larger than the dividend.
pub proof fn lemma_quotient_shrinks(a: OrdF64, b: OrdF64)
    requires
        a.finite(),
        b.finite(),
        b.units() >= pow2(1074),
    ensures
        a.over(b).magnitude() <= a.magnitude(),
        a.over(b).negative() == (a.negative() != b.negative()),
{
    let one = pow2(1074) as int;
    let num = a.units() * one;
    lemma_pow2_pos(1074);
    lemma_units_is_units_at(a);
    let _ = lemma_step(a.magnitude());
    assert(0 <= num <= b.units() * a.units()) by (nonlinear_arith)
        requires
            num == a.units() * one,
            one <= b.units(),
            0 <= a.units(),
            one > 0,
    ;
    lemma_nearest_exists(num, b.units());
    let m = rounded(num, b.units());
    lemma_rounds_at_most(num, b.units(), m, a.magnitude());
    lemma_signed(a.negative() != b.negative(), m);
}

/// A quotient of doubles that are not negative.
pub proof fn lemma_quotient_order(a: OrdF64, b: OrdF64)
    requires
        a.finite(),
        b.finite(),
        !a.negative(),
        !b.negative(),
        b.magnitude() > 0,
    ensures
        !a.over(b).nan(),
        !a.over(b).negative(),
        b.units() > 0,
        nearest(a.units() * pow2(1074), b.units(), a.over(b).magnitude()),
{
    lemma_units_order(a, b);
    lemma_units_order(zero_rating(), b);
    lemma_units_of_zero();
    assert(a.units() * pow2(1074) >= 0) by (nonlinear_arith)
        requires
            a.units() >= 0,
    ;
    lemma_nearest_exists(a.units() * pow2(1074), b.units());
    lemma_signed(false, rounded(a.units() * pow2(1074), b.units()));
}

/// The difference of two doubles that are not negative is no larger than the
/// larger one.
pub proof fn lemma_difference_shrinks(a: OrdF64, b: OrdF64)
    requires
        a.finite(),
        b.finite(),
        !a.negative(),
        !b.negative(),
    ensures
        a.minus(b).magnitude() <= a.magnitude() || a.minus(b).magnitude() <= b.magnitude(),
        a.minus(b).finite(),
{
    let c = b.negated();
    lemma_signed(true, b.magnitude());
    lemma_units_is_units_at(a);
    lemma_units_is_units_at(b);
    lemma_units_order(a, b);
    let sum = a.units() - b.units();
    if sum > 0 {
        lemma_nearest_exists(sum, 1);
        lemma_rounds_at_most(sum, 1, rounded(sum, 1), a.magnitude());
        lemma_signed(false, rounded(sum, 1));
    } else if sum < 0 {
        lemma_nearest_exists(-sum, 1);
        lemma_rounds_at_most(-sum, 1, rounded(-sum, 1), b.magnitude());
        lemma_signed(true, rounded(-sum, 1));
    }
}

/// What is left of one.
pub proof fn lemma_rest_of_one(a: OrdF64)
    requires
        !a.nan(),
        !a.negative(),
    ensures
        ({
            let one = OrdF64::whole(1);
            let rest = one.minus(a);
            &&& !rest.nan()
            &&& !a.below(one) ==> rest.order() <= 0
            &&& !a.below(one) && rest.order() == 0 ==> rest == zero_rating()
            &&& a.below(one) ==> {
                &&& !rest.negative()
                &&& rest.magnitude() <= one.magnitude()
                &&& pow2(1074) - a.units() > 0
                &&& nearest(pow2(1074) - a.units(), 1, rest.magnitude())
            }
        }),
{
    let one = OrdF64::whole(1);
    lemma_one();
    lemma_signed(true, a.magnitude());
    if a.finite() {
        lemma_units_is_units_at(a);
        lemma_units_is_units_at(one);
        lemma_units_order(a, one);
        let sum = one.units() - a.units();
        if sum > 0 {
            lemma_nearest_exists(sum, 1);
            lemma_rounds_at_most(sum, 1, rounded(sum, 1), one.magnitude());
            lemma_signed(false, rounded(sum, 1));
        } else if sum < 0 {
            lemma_nearest_exists(-sum, 1);
            lemma_signed(true, rounded(-sum, 1));
            lemma_units_at(0, 1);
            lemma2_to64();
            assert(units_at(1) == 1 * pow2(0));
            lemma_rounds_at_least(-sum, 1, rounded(-sum, 1), 1);
        }
    }
}

} // verus!
