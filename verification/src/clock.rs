//! Waiting times in seconds.

use crate::arithmetic_laws::{
    law_arithmetic_on_whole_numbers, law_products_and_quotients_are_nearest, law_sums_are_nearest,
    lemma_nearest_scales, lemma_short_numbers_are_doubles,
};
use crate::bounds::{
    lemma_one, lemma_part_of_one, lemma_quotient_order, lemma_sum_bound, lemma_sum_order,
    lemma_sums_keep_order, lemma_whole, lemma_whole_is_exact, lemma_wholes_keep_order,
};
use crate::rounding::{
    lemma_rounding_keeps_order, lemma_rounds_at_least, lemma_rounds_at_most,
    lemma_units_is_units_at, lemma_units_order, nearest,
};
use crate::rating::OrdF64;
use vstd::arithmetic::power2::{
    lemma2_to64, lemma_pow2_adds, lemma_pow2_pos, lemma_pow2_strictly_increases, pow2,
};
use vstd::prelude::*;

verus! {

/// How many nanoseconds a second has.
pub const NANOS_PER_SEC: u64 = 1_000_000_000;

/// A time in nanoseconds as seconds: the whole seconds and the rest, added as
/// doubles.
pub open spec fn seconds(ns: u64) -> OrdF64 {
    let rest = OrdF64::whole((ns % NANOS_PER_SEC) as nat).over(OrdF64::whole(NANOS_PER_SEC as nat));
    OrdF64::whole((ns / NANOS_PER_SEC) as nat).plus(rest)
}

/// A time in nanoseconds as seconds.
pub fn as_seconds(ns: u64) -> (secs: OrdF64)
    ensures
        secs == seconds(ns),
        secs.finite(),
        !secs.negative(),
{
    let whole = OrdF64::from_whole(ns / NANOS_PER_SEC);
    let rest = OrdF64::from_whole(ns % NANOS_PER_SEC);
    let second = OrdF64::from_whole(NANOS_PER_SEC);
    proof {
        lemma_whole((ns / NANOS_PER_SEC) as nat);
        lemma_whole((ns % NANOS_PER_SEC) as nat);
        lemma_whole(NANOS_PER_SEC as nat);
        lemma_seconds(ns);
    }
    whole.sum(rest.quotient(second))
}

/// A time in seconds is finite.
pub proof fn lemma_seconds(ns: u64)
    ensures
        seconds(ns).finite(),
        !seconds(ns).negative(),
{
    let whole = OrdF64::whole((ns / NANOS_PER_SEC) as nat);
    let rest = (ns % NANOS_PER_SEC) as nat;
    lemma_whole((ns / NANOS_PER_SEC) as nat);
    lemma_rest(rest, rest);
    lemma_pow2_strictly_increases(1074, 1074 + 64);
    lemma_sum_bound(whole, OrdF64::whole(rest).over(OrdF64::whole(NANOS_PER_SEC as nat)), 64);
}

/// The part of a second as a double.
proof fn lemma_rest(a: nat, b: nat)
    requires
        a <= b < NANOS_PER_SEC,
    ensures
        ({
            let second = OrdF64::whole(NANOS_PER_SEC as nat);
            let (x, y) = (OrdF64::whole(a).over(second), OrdF64::whole(b).over(second));
            &&& x.finite() && !x.negative()
            &&& y.finite() && !y.negative()
            &&& x.magnitude() <= y.magnitude()
            &&& 0 <= x.units() <= pow2(1074)
        }),
{
    let second = OrdF64::whole(NANOS_PER_SEC as nat);
    let (wa, wb) = (OrdF64::whole(a), OrdF64::whole(b));
    lemma_whole(a);
    lemma_whole(b);
    lemma_whole(NANOS_PER_SEC as nat);
    lemma_pow2_pos(1074);
    lemma_wholes_keep_order(a, b);
    lemma_wholes_keep_order(a, NANOS_PER_SEC as nat);
    lemma_wholes_keep_order(b, NANOS_PER_SEC as nat);
    lemma_part_of_one(wa, second);
    lemma_part_of_one(wb, second);
    lemma_quotient_order(wa, second);
    lemma_quotient_order(wb, second);
    let (m, n, u, d) = (wa.units(), wb.units(), pow2(1074) as int, second.units());
    assert((m * u) * d <= (n * u) * d) by (nonlinear_arith)
        requires
            m <= n,
            u > 0,
            d > 0,
    ;
    lemma_rounding_keeps_order(
        m * u,
        d,
        wa.over(second).magnitude(),
        n * u,
        d,
        wb.over(second).magnitude(),
    );
}

/// A longer time has no fewer seconds.
pub proof fn law_seconds_keep_order(shorter: u64, longer: u64)
    requires
        shorter <= longer,
    ensures
        !seconds(longer).below(seconds(shorter)),
{
    let second = OrdF64::whole(NANOS_PER_SEC as nat);
    let (s1, r1) = ((shorter / NANOS_PER_SEC) as nat, (shorter % NANOS_PER_SEC) as nat);
    let (s2, r2) = ((longer / NANOS_PER_SEC) as nat, (longer % NANOS_PER_SEC) as nat);
    let (w1, w2) = (OrdF64::whole(s1), OrdF64::whole(s2));
    let (p1, p2) = (OrdF64::whole(r1).over(second), OrdF64::whole(r2).over(second));
    lemma_whole(s1);
    lemma_whole(s2);
    if s1 == s2 {
        lemma_rest(r1, r2);
        lemma_sums_keep_order(w1, p1, p2);
    } else {
        lemma_rest(r1, r1);
        lemma_rest(r2, r2);
        lemma_whole_is_exact(s1);
        lemma_whole_is_exact(s2);
        lemma_sum_order(w1, p1);
        lemma_sum_order(w2, p2);
        assert(s1 * pow2(1074) + pow2(1074) <= s2 * pow2(1074)) by (nonlinear_arith)
            requires
                s1 + 1 <= s2,
        ;
        lemma_rounding_keeps_order(
            w1.units() + p1.units(),
            1,
            w1.plus(p1).order(),
            w2.units() + p2.units(),
            1,
            w2.plus(p2).order(),
        );
    }
}

/// Whole seconds are whole numbers.
pub proof fn law_whole_seconds(secs: u64, ns: u64)
    requires
        ns == secs * 1_000_000_000,
    ensures
        seconds(ns) == OrdF64::whole(secs as nat),
{
    let whole = OrdF64::whole(secs as nat);
    let second = OrdF64::whole(1_000_000_000);
    assert(ns / 1_000_000_000 == secs && ns % 1_000_000_000 == 0);
    lemma_whole(0);
    lemma_whole(secs as nat);
    lemma_whole(1_000_000_000);
    law_arithmetic_on_whole_numbers(0, 1_000_000_000);
    law_arithmetic_on_whole_numbers(secs as nat, 0);
}

/// A time in seconds is the whole seconds and the nearest double to the rest,
/// added and rounded once.
pub proof fn law_seconds_are_nearest(ns: u64) -> (rest: OrdF64)
    ensures
        rest.finite(),
        !rest.negative(),
        nearest((ns % 1_000_000_000) * pow2(1074), 1_000_000_000, rest.magnitude()),
        nearest((ns / 1_000_000_000) * pow2(1074) + rest.units(), 1, seconds(ns).magnitude()),
        seconds(ns).finite(),
        !seconds(ns).negative(),
{
    let (s, r) = ((ns / 1_000_000_000) as nat, (ns % 1_000_000_000) as nat);
    let second = OrdF64::whole(1_000_000_000);
    let rest = OrdF64::whole(r).over(second);
    let one = pow2(1074) as int;
    lemma_pow2_pos(1074);
    lemma_seconds(ns);
    lemma_rest(r, r);
    lemma_whole(s);
    lemma_whole(r);
    lemma_whole(1_000_000_000);
    lemma_whole_is_exact(s);
    lemma_whole_is_exact(r);
    lemma_whole_is_exact(1_000_000_000);
    law_products_and_quotients_are_nearest(OrdF64::whole(r), second);
    lemma_nearest_scales(r * one, 1_000_000_000, one, rest.magnitude());
    law_sums_are_nearest(OrdF64::whole(s), rest);
    rest
}

/// A time has reached a number of seconds where its nanoseconds have. Up to
/// four million seconds rounding never brings it there early.
pub proof fn law_seconds_are_reached_in_time(ns: u64, secs: u64)
    ensures
        secs * 1_000_000_000 <= ns ==> !seconds(ns).below(OrdF64::whole(secs as nat)),
        ns < secs * 1_000_000_000 && secs <= 4_000_000 ==> seconds(ns).below(
            OrdF64::whole(secs as nat),
        ),
{
    let (s, r) = ((ns / 1_000_000_000) as nat, (ns % 1_000_000_000) as nat);
    let one = pow2(1074) as int;
    let mark = OrdF64::whole(secs as nat);
    let rest = law_seconds_are_nearest(ns);
    let sum = s * one + rest.units();
    lemma_pow2_pos(1074);
    lemma_whole(secs as nat);
    lemma_units_is_units_at(mark);
    lemma_units_is_units_at(rest);
    if secs * 1_000_000_000 <= ns {
        lemma_whole_is_exact(secs as nat);
        assert(secs * one <= s * one) by (nonlinear_arith)
            requires
                secs <= s,
                one > 0,
        ;
        lemma_units_order(rest, rest);
        lemma_rounds_at_least(sum, 1, seconds(ns).magnitude(), mark.magnitude());
    } else if secs <= 4_000_000 {
        let part = pow2(1044) as int;
        lemma2_to64();
        lemma_pow2_adds(30, 1044);
        lemma_whole_is_exact(secs as nat);
        let almost_one = lemma_short_numbers_are_doubles(0x3fff_ffff, 1044);
        let almost = lemma_short_numbers_are_doubles(((s + 1) * 0x4000_0000 - 1) as nat, 1044);
        lemma_units_is_units_at(almost_one);
        lemma_units_is_units_at(almost);
        assert(one == 0x4000_0000 * part);
        assert(r * one <= 1_000_000_000 * almost_one.units()) by (nonlinear_arith)
            requires
                r <= 999_999_999,
                one == 0x4000_0000 * part,
                almost_one.units() == 0x3fff_ffff * part,
                part >= 0,
        ;
        lemma_rounds_at_most(r * one, 1_000_000_000, rest.magnitude(), almost_one.magnitude());
        lemma_units_order(rest, almost_one);
        assert(s * one + 0x3fff_ffff * part == ((s + 1) * 0x4000_0000 - 1) * part)
            by (nonlinear_arith)
            requires
                one == 0x4000_0000 * part,
        ;
        lemma_rounds_at_most(sum, 1, seconds(ns).magnitude(), almost.magnitude());
        assert(almost.units() < mark.units()) by (nonlinear_arith)
            requires
                almost.units() == ((s + 1) * 0x4000_0000 - 1) * part,
                mark.units() == secs * one,
                one == 0x4000_0000 * part,
                s + 1 <= secs,
                part > 0,
        ;
        lemma_pow2_pos(1044);
        lemma_units_order(almost, mark);
    }
}

/// A time is never taken for one that is a second longer: while less than a
/// whole second is missing to a number of seconds, rounding may bring a time
/// there, and before that it does not.
pub proof fn law_seconds_are_not_reached_long_before(ns: u64, secs: u64)
    requires
        ns / 1_000_000_000 + 1 < secs,
    ensures
        seconds(ns).below(OrdF64::whole(secs as nat)),
{
    let s = (ns / 1_000_000_000) as nat;
    let one = pow2(1074) as int;
    let (next, later) = (OrdF64::whole(s + 1), OrdF64::whole(s + 2));
    let rest = law_seconds_are_nearest(ns);
    lemma_pow2_pos(1074);
    lemma_rest((ns % 1_000_000_000) as nat, (ns % 1_000_000_000) as nat);
    assert((ns % 1_000_000_000) * one <= 1_000_000_000 * one) by (nonlinear_arith)
        requires
            ns % 1_000_000_000 <= 1_000_000_000,
            one > 0,
    ;
    lemma_one();
    lemma_units_is_units_at(OrdF64::whole(1));
    lemma_rounds_at_most(
        (ns % 1_000_000_000) * one,
        1_000_000_000,
        rest.magnitude(),
        OrdF64::whole(1).magnitude(),
    );
    lemma_units_order(rest, OrdF64::whole(1));
    lemma_whole(s + 1);
    lemma_whole(s + 2);
    lemma_whole(secs as nat);
    lemma_whole_is_exact(s + 1);
    lemma_whole_is_exact(s + 2);
    assert(s * one + one == (s + 1) * one && (s + 1) * one < (s + 2) * one) by (nonlinear_arith)
        requires
            one > 0,
    ;
    lemma_units_is_units_at(next);
    lemma_rounds_at_most(
        s * one + rest.units(),
        1,
        seconds(ns).magnitude(),
        next.magnitude(),
    );
    lemma_units_order(next, later);
    lemma_wholes_keep_order(s + 2, secs as nat);
}

} // verus!
