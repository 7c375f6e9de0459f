//! What arithmetic on doubles comes to: the nearest double in general, and on
//! whole numbers what it comes to on the numbers themselves.

use crate::bounds::{lemma_signed, lemma_top_bit, lemma_whole, lemma_whole_is_exact};
use crate::double::signed;
use crate::rating::{max_rating, zero_rating, OrdF64, BRACKET_SIZE, HIDDEN_BIT, INFINITY_BITS};
use crate::rounding::{
    lemma_cancel, lemma_nearest_exists, lemma_rounded, lemma_rounds_to_itself, lemma_step,
    lemma_units_at, lemma_units_increase, lemma_units_is_units_at, lemma_units_of_zero,
    lemma_units_order, lemma_zero, nearest, rounded, units_at,
};
use vstd::arithmetic::div_mod::{lemma_div_is_ordered, lemma_fundamental_div_mod_converse};
use vstd::arithmetic::power2::{
    lemma2_to64, lemma2_to64_rest, lemma_pow2_adds, lemma_pow2_pos, pow2,
};
use vstd::prelude::*;

verus! {

/// The distance of two numbers.
pub open spec fn distance(a: int, b: int) -> int {
    if a < b {
        b - a
    } else {
        a - b
    }
}

/// No other finite double is closer than the nearest one.
pub proof fn law_nearest_is_closest(num: int, den: int, magnitude: int, other: int)
    requires
        den > 0,
        nearest(num, den, magnitude),
        magnitude < INFINITY_BITS,
        0 <= other < INFINITY_BITS,
    ensures
        distance(num, den * units_at(magnitude)) <= distance(num, den * units_at(other)),
{
    let (u, o) = (units_at(magnitude), units_at(other));
    if other < magnitude {
        let t = units_at(magnitude - 1);
        if other < magnitude - 1 {
            lemma_units_increase(other, magnitude - 1);
        }
        let _ = lemma_step(magnitude - 1);
        assert(den * o <= den * t && den * t < den * u && den * (t + u) == den * t + den * u)
            by (nonlinear_arith)
            requires
                den > 0,
                o <= t < u,
        ;
    } else if magnitude < other {
        let v = units_at(magnitude + 1);
        if magnitude + 1 < other {
            lemma_units_increase(magnitude + 1, other);
        }
        let _ = lemma_step(magnitude);
        assert(den * v <= den * o && den * u < den * v && den * (u + v) == den * u + den * v)
            by (nonlinear_arith)
            requires
                den > 0,
                u < v <= o,
        ;
    }
}

/// Which bits are a finite double, an infinity, or no number; and which are
/// below zero.
pub proof fn law_kinds_of_doubles(double: OrdF64)
    ensures
        double.finite() <==> double.bits % 0x8000_0000_0000_0000 < 0x7ff0_0000_0000_0000,
        double.nan() <==> double.bits % 0x8000_0000_0000_0000 > 0x7ff0_0000_0000_0000,
        double.negative() <==> double.bits >= 0x8000_0000_0000_0000,
{
}

/// The comparison of finite doubles is that of their values.
pub proof fn law_comparison_goes_by_value(a: OrdF64, b: OrdF64)
    requires
        a.finite(),
        b.finite(),
    ensures
        a.below(b) <==> a.value() < b.value(),
        a.rank() < b.rank() ==> a.value() <= b.value(),
        a.value() < b.value() ==> a.rank() < b.rank(),
{
    lemma_units_order(a, b);
    lemma_units_order(a, zero_rating());
    lemma_units_order(b, zero_rating());
    lemma_units_of_zero();
}

/// A sum that is a double is exact.
pub proof fn law_sum_is_exact_where_it_can_be(a: OrdF64, b: OrdF64, c: OrdF64)
    requires
        a.finite(),
        b.finite(),
        c.finite(),
        c.value() == a.value() + b.value(),
    ensures
        a.plus(b).finite(),
        a.plus(b).value() == c.value(),
{
    let sum = a.value() + b.value();
    let n = if sum < 0 {
        -sum
    } else {
        sum
    };
    lemma_units_order(c, zero_rating());
    lemma_units_of_zero();
    lemma_units_is_units_at(c);
    lemma_rounds_to_itself(c.magnitude());
    lemma_signed(sum < 0, c.magnitude());
    lemma_signed(a.negative() && b.negative(), 0);
    lemma_zero(1);
}

/// A difference that is a double is exact.
pub proof fn law_difference_is_exact_where_it_can_be(a: OrdF64, b: OrdF64, c: OrdF64)
    requires
        a.finite(),
        b.finite(),
        c.finite(),
        c.value() == a.value() - b.value(),
    ensures
        a.minus(b).finite(),
        a.minus(b).value() == c.value(),
{
    lemma_signed(!b.negative(), b.magnitude());
    lemma_units_is_units_at(b);
    law_sum_is_exact_where_it_can_be(a, b.negated(), c);
}

/// Sums and differences are nearest to the exact ones.
pub proof fn law_sums_are_nearest(a: OrdF64, b: OrdF64)
    requires
        a.finite(),
        b.finite(),
    ensures
        ({
            let exact = a.value() + b.value();
            nearest(
                if exact < 0 {
                    -exact
                } else {
                    exact
                },
                1,
                a.plus(b).magnitude(),
            ) && (exact < 0 ==> a.plus(b).negative()) && (exact > 0 ==> !a.plus(b).negative())
        }),
        ({
            let exact = a.value() - b.value();
            nearest(
                if exact < 0 {
                    -exact
                } else {
                    exact
                },
                1,
                a.minus(b).magnitude(),
            ) && (exact < 0 ==> a.minus(b).negative()) && (exact > 0 ==> !a.minus(b).negative())
        }),
{
    lemma_sum_is_nearest(a, b);
    lemma_signed(!b.negative(), b.magnitude());
    lemma_units_is_units_at(b);
    lemma_sum_is_nearest(a, b.negated());
}

proof fn lemma_sum_is_nearest(a: OrdF64, b: OrdF64)
    requires
        a.finite(),
        b.finite(),
    ensures
        ({
            let exact = a.value() + b.value();
            nearest(
                if exact < 0 {
                    -exact
                } else {
                    exact
                },
                1,
                a.plus(b).magnitude(),
            ) && (exact < 0 ==> a.plus(b).negative()) && (exact > 0 ==> !a.plus(b).negative())
        }),
{
    let exact = a.value() + b.value();
    let n = if exact < 0 {
        -exact
    } else {
        exact
    };
    lemma_nearest_exists(n, 1);
    lemma_signed(exact < 0, rounded(n, 1));
    lemma_signed(a.negative() && b.negative(), 0);
    lemma_zero(1);
}

/// Products and quotients are nearest to the exact ones.
pub proof fn law_products_and_quotients_are_nearest(a: OrdF64, b: OrdF64)
    requires
        a.finite(),
        b.finite(),
    ensures
        nearest(a.units() * b.units(), pow2(1074) as int, a.times(b).magnitude()),
        a.times(b).negative() == (a.negative() != b.negative()),
        b.magnitude() > 0 ==> b.units() > 0 && nearest(
            a.units() * pow2(1074),
            b.units(),
            a.over(b).magnitude(),
        ) && a.over(b).negative() == (a.negative() != b.negative()),
{
    let one = pow2(1074) as int;
    lemma_pow2_pos(1074);
    lemma_units_order(a, b);
    lemma_units_order(b, zero_rating());
    lemma_units_of_zero();
    assert(a.units() * b.units() >= 0 && a.units() * one >= 0) by (nonlinear_arith)
        requires
            a.units() >= 0,
            b.units() >= 0,
            one >= 0,
    ;
    lemma_nearest_exists(a.units() * b.units(), one);
    lemma_signed(a.negative() != b.negative(), rounded(a.units() * b.units(), one));
    if b.magnitude() > 0 {
        lemma_nearest_exists(a.units() * one, b.units());
        lemma_signed(a.negative() != b.negative(), rounded(a.units() * one, b.units()));
    }
}

/// A fraction that is a double rounds to it.
proof fn lemma_exact_fraction(num: int, den: int, double: OrdF64)
    requires
        den > 0,
        double.finite(),
        num == den * double.units(),
    ensures
        rounded(num, den) == double.magnitude(),
{
    let m = double.magnitude();
    lemma_units_is_units_at(double);
    lemma_rounds_to_itself(m);
    let u = units_at(m);
    if m > 0 {
        let t = units_at(m - 1);
        let _ = lemma_step(m - 1);
        assert(den * (t + u) < 2 * num) by (nonlinear_arith)
            requires
                num == den * u,
                den > 0,
                t < u,
        ;
    }
    let v = units_at(m + 1);
    let _ = lemma_step(m);
    assert(2 * num < den * (u + v)) by (nonlinear_arith)
        requires
            num == den * u,
            den > 0,
            u < v,
    ;
    lemma_rounded(num, den, m);
}

/// Doubles with equal units and no sign are equal.
proof fn lemma_equal_units(a: OrdF64, b: OrdF64)
    requires
        a.finite(),
        b.finite(),
        !a.negative(),
        !b.negative(),
        a.units() == b.units(),
    ensures
        a == b,
{
    lemma_units_order(a, b);
}

/// Whole numbers are added, subtracted, multiplied and divided as such, as long
/// as they have at most 53 bits.
pub proof fn law_arithmetic_on_whole_numbers(m: nat, n: nat)
    requires
        m < 0x20_0000_0000_0000,
        n < 0x20_0000_0000_0000,
    ensures
        m + n < 0x20_0000_0000_0000 ==> OrdF64::whole(m).plus(OrdF64::whole(n)) == OrdF64::whole(
            m + n,
        ),
        n <= m ==> OrdF64::whole(m).minus(OrdF64::whole(n)) == OrdF64::whole((m - n) as nat),
        m * n < 0x20_0000_0000_0000 ==> OrdF64::whole(m).times(OrdF64::whole(n)) == OrdF64::whole(
            m * n,
        ),
        0 < n && m * n < 0x20_0000_0000_0000 ==> OrdF64::whole(m * n).over(OrdF64::whole(n))
            == OrdF64::whole(m),
        OrdF64::whole(m).below(OrdF64::whole(n)) <==> m < n,
        OrdF64::whole(m).rank() < OrdF64::whole(n).rank() <==> m < n,
{
    let (a, b) = (OrdF64::whole(m), OrdF64::whole(n));
    let one = pow2(1074) as int;
    lemma_pow2_pos(1074);
    lemma_whole(m);
    lemma_whole(n);
    lemma_whole_is_exact(m);
    lemma_whole_is_exact(n);
    lemma_units_order(a, b);
    assert(m < n <==> m * one < n * one) by (nonlinear_arith)
        requires
            one > 0,
    ;
    assert(m == n <==> m * one == n * one) by (nonlinear_arith)
        requires
            one > 0,
    ;
    if m + n < 0x20_0000_0000_0000 {
        let c = OrdF64::whole(m + n);
        lemma_whole(m + n);
        lemma_whole_is_exact(m + n);
        assert(m * one + n * one == (m + n) * one) by (nonlinear_arith);
        law_sum_is_exact_where_it_can_be(a, b, c);
        law_sums_are_nearest(a, b);
        lemma_not_negative_sum(a, b);
        lemma_equal_units(a.plus(b), c);
    }
    if n <= m {
        let c = OrdF64::whole((m - n) as nat);
        lemma_whole((m - n) as nat);
        lemma_whole_is_exact((m - n) as nat);
        assert(m * one - n * one == (m - n) * one) by (nonlinear_arith);
        law_difference_is_exact_where_it_can_be(a, b, c);
        lemma_not_negative_difference(a, b);
        lemma_equal_units(a.minus(b), c);
    }
    if m * n < 0x20_0000_0000_0000 {
        let c = OrdF64::whole(m * n);
        lemma_whole(m * n);
        lemma_whole_is_exact(m * n);
        assert((m * one) * (n * one) == one * ((m * n) * one)) by (nonlinear_arith);
        lemma_exact_fraction(a.units() * b.units(), one, c);
        lemma_signed(false, c.magnitude());
        if 0 < n {
            assert(((m * n) * one) * one == (n * one) * (m * one)) by (nonlinear_arith);
            lemma_exact_fraction(c.units() * one, b.units(), a);
            lemma_signed(false, a.magnitude());
        }
    }
}

proof fn lemma_not_negative_sum(a: OrdF64, b: OrdF64)
    requires
        a.finite(),
        b.finite(),
        !a.negative(),
        !b.negative(),
    ensures
        !a.plus(b).negative(),
{
    lemma_units_order(a, b);
    lemma_nearest_exists(a.units() + b.units(), 1);
    lemma_signed(false, rounded(a.units() + b.units(), 1));
    lemma_signed(false, 0);
}

proof fn lemma_not_negative_difference(a: OrdF64, b: OrdF64)
    requires
        a.finite(),
        b.finite(),
        !a.negative(),
        !b.negative(),
        b.units() <= a.units(),
    ensures
        !a.minus(b).negative(),
{
    lemma_signed(true, b.magnitude());
    lemma_units_is_units_at(b);
    lemma_nearest_exists(a.units() - b.units(), 1);
    lemma_signed(false, rounded(a.units() - b.units(), 1));
    lemma_signed(false, 0);
}

/// The brackets are 200 points wide: a rating is in bracket `k` where it is at
/// least 200 times `k` and below the next bracket.
pub proof fn law_brackets_are_two_hundred_wide(rating: OrdF64, k: nat)
    requires
        rating.finite(),
        !rating.negative(),
        k <= 0xffff_ffff,
        200 * k * pow2(1074) <= rating.units() < 200 * (k + 1) * pow2(1074),
    ensures
        rating.bracket() == k,
{
    let size = (BRACKET_SIZE * pow2(1074)) as int;
    let rest = rating.units() - k * size;
    lemma_pow2_pos(1074);
    assert(k * size == 200 * k * pow2(1074) && (k + 1) * size == 200 * (k + 1) * pow2(1074) && (k
        + 1) * size == k * size + size) by (nonlinear_arith)
        requires
            size == 200 * pow2(1074),
    ;
    lemma_fundamental_div_mod_converse(rating.units(), size, k as int, rest);
}

/// A rating in the range from zero to 3000 is kept as it is, one below as zero,
/// and one above as 3000.
pub proof fn law_ratings_are_kept_in_range(rating: OrdF64)
    requires
        rating.finite(),
    ensures
        OrdF64::whole(3000) == max_rating(),
        rating.value() < 0 ==> rating.clamped() == OrdF64::whole(0),
        rating.value() > OrdF64::whole(3000).value() ==> rating.clamped() == OrdF64::whole(3000),
        0 <= rating.value() <= OrdF64::whole(3000).value() ==> rating.clamped().value()
            == rating.value(),
        !rating.clamped().negative(),
{
    let top = max_rating();
    lemma_whole(0);
    lemma_whole(3000);
    lemma_whole_is_exact(3000);
    lemma_top_units();
    lemma_equal_units(OrdF64::whole(3000), top);
    law_comparison_goes_by_value(rating, zero_rating());
    law_comparison_goes_by_value(top, rating);
    lemma_units_order(rating, zero_rating());
    lemma_units_of_zero();
}

proof fn lemma_top_units()
    ensures
        max_rating().units() == 3000 * pow2(1074),
        max_rating().finite(),
{
    let top = max_rating();
    let q = 3000 * 0x200_0000_0000int;
    assert(top.magnitude() / (HIDDEN_BIT as int) == 0x40a && top.magnitude() % (HIDDEN_BIT as int)
        == 0x7_7000_0000_0000);
    assert(top.significand() == q && top.scale() == 1033);
    lemma2_to64_rest();
    lemma_pow2_adds(41, 1033);
    assert(q * pow2(1033) == 3000 * (pow2(41) * pow2(1033))) by (nonlinear_arith)
        requires
            q == 3000 * pow2(41),
    ;
}

/// A common factor does not change which double is nearest.
pub proof fn lemma_nearest_scales(num: int, den: int, factor: int, magnitude: int)
    requires
        factor > 0,
        nearest(num * factor, den * factor, magnitude),
    ensures
        nearest(num, den, magnitude),
{
    if magnitude > 0 {
        lemma_scaled_middle(num, den, factor, units_at(magnitude - 1) + units_at(magnitude));
    }
    if magnitude < INFINITY_BITS {
        lemma_scaled_middle(num, den, factor, units_at(magnitude) + units_at(magnitude + 1));
    }
}

proof fn lemma_scaled_middle(num: int, den: int, factor: int, sum: int)
    requires
        factor > 0,
    ensures
        (den * factor) * sum < 2 * (num * factor) <==> den * sum < 2 * num,
        (den * factor) * sum == 2 * (num * factor) <==> den * sum == 2 * num,
        (den * factor) * sum > 2 * (num * factor) <==> den * sum > 2 * num,
{
    assert((den * factor) * sum == (den * sum) * factor && 2 * (num * factor) == (2 * num) * factor)
        by (nonlinear_arith);
    lemma_cancel(den * sum, 2 * num, factor);
}

/// Some double is a whole number of 53 bits times a power of two units.
pub proof fn lemma_short_numbers_are_doubles(n: nat, k: nat) -> (double: OrdF64)
    requires
        0 < n < 0x20_0000_0000_0000,
        52 <= k <= 1074,
    ensures
        double.finite(),
        !double.negative(),
        double.units() == n * pow2(k),
{
    lemma2_to64();
    let top = lemma_top_bit(n, 0);
    let up = (52 - top) as nat;
    let scale = (k + top - 52) as nat;
    let q = n * pow2(up) as int;
    lemma2_to64_rest();
    lemma_pow2_adds(top, up);
    lemma_pow2_adds((top + 1) as nat, up);
    lemma_pow2_adds(up, scale);
    lemma_pow2_pos(up);
    assert(pow2(top) * pow2(up) <= q < pow2((top + 1) as nat) * pow2(up)) by (nonlinear_arith)
        requires
            q == n * pow2(up),
            pow2(top) <= n < pow2((top + 1) as nat),
            pow2(up) > 0,
    ;
    lemma_units_at(scale, q);
    assert(q * pow2(scale) == n * (pow2(up) * pow2(scale))) by (nonlinear_arith)
        requires
            q == n * pow2(up),
    ;
    let m = scale * HIDDEN_BIT + q;
    assert(m < INFINITY_BITS) by (nonlinear_arith)
        requires
            m == scale * HIDDEN_BIT + q,
            scale <= 1074,
            q < 2 * HIDDEN_BIT,
            HIDDEN_BIT == 0x10_0000_0000_0000,
            INFINITY_BITS == 0x7ff0_0000_0000_0000,
    ;
    lemma_signed(false, m);
    signed(false, m)
}

/// The bits of a whole number.
pub proof fn lemma_bits_of_whole(n: nat, scale: nat, k: nat, bits: u64)
    requires
        scale + k == 1074,
        scale < 1074,
        HIDDEN_BIT <= n * pow2(k) < 2 * HIDDEN_BIT,
        bits == scale * HIDDEN_BIT + n * pow2(k),
        n < 0x20_0000_0000_0000,
    ensures
        OrdF64::whole(n) == (OrdF64 { bits }),
{
    let q = n * pow2(k) as int;
    lemma_units_at(scale, q);
    lemma_pow2_adds(k, scale);
    assert(q * pow2(scale) == n * (pow2(k) * pow2(scale))) by (nonlinear_arith)
        requires
            q == n * pow2(k),
    ;
    lemma_whole(n);
    lemma_whole_is_exact(n);
    let double = OrdF64 { bits };
    assert(bits < INFINITY_BITS) by (nonlinear_arith)
        requires
            bits == scale * HIDDEN_BIT + q,
            scale < 1074,
            q < 2 * HIDDEN_BIT,
            HIDDEN_BIT == 0x10_0000_0000_0000,
            INFINITY_BITS == 0x7ff0_0000_0000_0000,
    ;
    lemma_units_is_units_at(double);
    lemma_equal_units(OrdF64::whole(n), double);
}

/// What the bits of a double say: an exponent and a fraction, with one bit more
/// in front where the exponent is not zero.
pub proof fn law_units_by_the_bits(double: OrdF64)
    ensures
        ({
            let magnitude = double.bits as int % 0x8000_0000_0000_0000;
            let exponent = magnitude / 0x10_0000_0000_0000;
            let fraction = magnitude % 0x10_0000_0000_0000;
            &&& exponent == 0 ==> double.units() == fraction
            &&& exponent > 0 ==> double.units() == (0x10_0000_0000_0000 + fraction) * pow2(
                (exponent - 1) as nat,
            )
            &&& double.bits >= 0x8000_0000_0000_0000 ==> double.value() == -double.units()
            &&& double.bits < 0x8000_0000_0000_0000 ==> double.value() == double.units()
        }),
{
    lemma2_to64();
    let magnitude = double.bits as int % 0x8000_0000_0000_0000;
    assert(double.magnitude() == magnitude);
    if magnitude < 0x10_0000_0000_0000 {
        assert(double.significand() * pow2(0) == magnitude) by (nonlinear_arith)
            requires
                double.significand() == magnitude,
                pow2(0) == 1,
        ;
    }
}

/// The total order: it tells all doubles apart, positive numbers come in the
/// order of their values, negative ones before them, and negative zero just
/// before zero.
pub proof fn law_total_order(a: OrdF64, b: OrdF64)
    requires
        a.finite(),
        b.finite(),
    ensures
        a.rank() == b.rank() <==> a == b,
        a.value() < b.value() ==> a.rank() < b.rank(),
        a.value() == b.value() && a.bits > b.bits ==> a.rank() < b.rank(),
{
    law_comparison_goes_by_value(a, b);
    lemma_units_order(a, b);
    lemma_units_order(a, zero_rating());
    lemma_units_order(b, zero_rating());
    lemma_units_of_zero();
}

/// Half way between two doubles the even one is nearest.
pub proof fn law_ties_go_to_the_even_double(num: int, den: int, magnitude: int)
    requires
        den > 0,
        0 <= magnitude,
        magnitude + 1 < INFINITY_BITS,
        distance(num, den * units_at(magnitude)) == distance(num, den * units_at(magnitude + 1)),
    ensures
        nearest(num, den, magnitude) ==> magnitude % 2 == 0,
        nearest(num, den, magnitude + 1) ==> magnitude % 2 == 1,
{
    let (u, v) = (units_at(magnitude), units_at(magnitude + 1));
    let _ = lemma_step(magnitude);
    assert(den * u < den * v && den * (u + v) == den * u + den * v) by (nonlinear_arith)
        requires
            den > 0,
            u < v,
    ;
}

/// A whole number becomes the nearest double, and stays itself up to 53 bits.
pub proof fn law_whole_numbers_become_doubles(n: nat)
    requires
        n <= 0xffff_ffff_ffff_ffff,
    ensures
        OrdF64::whole(n).finite(),
        !OrdF64::whole(n).negative(),
        nearest(n * pow2(1074) as int, 1, OrdF64::whole(n).magnitude()),
        n < 0x20_0000_0000_0000 ==> OrdF64::whole(n).units() == n * pow2(1074),
{
    lemma_whole(n);
    if n < 0x20_0000_0000_0000 {
        lemma_whole_is_exact(n);
    }
    lemma_pow2_pos(1074);
    assert(n * pow2(1074) as int >= 0) by (nonlinear_arith);
    lemma_nearest_exists(n * pow2(1074) as int, 1);
    lemma_signed(false, rounded(n * pow2(1074) as int, 1));
}

/// The larger and the smaller of two doubles, the distance from zero, and the
/// double brought into a range, by their values.
pub proof fn law_choices_go_by_value(a: OrdF64, b: OrdF64, c: OrdF64)
    requires
        a.finite(),
        b.finite(),
        c.finite(),
        b.value() <= c.value(),
    ensures
        a.value() < b.value() ==> a.larger(b) == b && a.smaller(b) == a,
        a.value() > b.value() ==> a.larger(b) == a && a.smaller(b) == b,
        a.value() == b.value() ==> a.larger(b) == a && a.smaller(b) == a,
        a.absolute().value() == distance(a.value(), 0),
        !a.absolute().negative(),
        a.value() < b.value() ==> a.within(b, c) == b,
        a.value() > c.value() ==> a.within(b, c) == c,
        b.value() <= a.value() <= c.value() ==> a.within(b, c) == a,
        a.negated().value() == -a.value(),
{
    law_comparison_goes_by_value(a, b);
    law_comparison_goes_by_value(b, a);
    law_comparison_goes_by_value(c, a);
    lemma_units_order(a, a);
    lemma_units_is_units_at(a);
    lemma_units_is_units_at(a.absolute());
    lemma_signed(!a.negative(), a.magnitude());
}

/// Ratings below zero and what is no number are in bracket zero, and ratings
/// beyond all brackets are in the highest one.
pub proof fn law_brackets_of_other_doubles(rating: OrdF64)
    ensures
        rating.negative() || rating.nan() ==> rating.bracket() == 0,
        !rating.negative() && !rating.nan() && !rating.finite() ==> rating.bracket()
            == 0xffff_ffff,
        rating.finite() && !rating.negative() && rating.units() >= 200 * 0xffff_ffff * pow2(1074)
            ==> rating.bracket() == 0xffff_ffff,
{
    let size = (BRACKET_SIZE * pow2(1074)) as int;
    lemma_pow2_pos(1074);
    if rating.finite() && rating.units() >= 200 * 0xffff_ffff * pow2(1074) {
        assert(0xffff_ffff * size == 200 * 0xffff_ffff * pow2(1074)) by (nonlinear_arith)
            requires
                size == 200 * pow2(1074),
        ;
        lemma_div_is_ordered(0xffff_ffff * size, rating.units(), size);
        lemma_fundamental_div_mod_converse(0xffff_ffff * size, size, 0xffff_ffff, 0);
    }
}

/// Where an infinity takes part it is the sum, and what is divided by it comes to
/// zero.
pub proof fn law_infinities_prevail(a: OrdF64, b: OrdF64)
    ensures
        !a.finite() ==> a.plus(b) == a,
        a.finite() && !b.finite() ==> a.plus(b) == b,
        a.finite() && !b.finite() ==> a.over(b).magnitude() == 0 && a.over(b).negative() == (
        a.negative() != b.negative()),
{
    lemma_signed(a.negative() != b.negative(), 0);
}

/// What is no number is not compared, gives way to any other double, and is not
/// brought into a range. Infinities lie beyond all finite doubles.
pub proof fn law_comparisons_of_other_doubles(a: OrdF64, b: OrdF64)
    ensures
        a.nan() || b.nan() ==> !a.below(b),
        a.nan() ==> a.larger(b) == b && a.smaller(b) == b,
        !a.nan() && b.nan() ==> a.larger(b) == a && a.smaller(b) == a,
        a.finite() && !b.finite() && !b.nan() ==> (a.below(b) <==> !b.negative()) && (b.below(a)
            <==> b.negative()),
        a.absolute().bits == a.bits as int % 0x8000_0000_0000_0000,
        a.nan() ==> a.clamped() == a,
        !a.finite() && !a.nan() ==> a.clamped() == if a.negative() {
            OrdF64::whole(0)
        } else {
            OrdF64::whole(3000)
        },
{
    lemma_whole(0);
    law_ratings_are_kept_in_range(zero_rating());
}

} // verus!
