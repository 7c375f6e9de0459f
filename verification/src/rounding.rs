//! Rounding to doubles.
//!
//! Exact values are fractions of units, where a unit is the smallest positive
//! double, two to the power -1074.

use crate::rating::{lemma_units_grow, zero_rating, OrdF64, HIDDEN_BIT, INFINITY_BITS, SIGN_BIT};
use vstd::arithmetic::div_mod::lemma_fundamental_div_mod;
use vstd::arithmetic::power2::{
    lemma2_to64, lemma2_to64_rest, lemma_pow2_adds, lemma_pow2_pos, lemma_pow2_strictly_increases,
    lemma_pow2_unfold, pow2,
};
use vstd::prelude::*;

verus! {

/// The absolute value, in units, of the doubles with the given bits behind the
/// sign.
pub open spec fn units_at(magnitude: int) -> int {
    (OrdF64 { bits: magnitude as u64 }).units()
}

/// Whether `magnitude` belongs to the double nearest to a fraction of units.
/// Half way between two doubles the even one is nearest, and half a step above
/// the largest finite double infinity begins.
pub open spec fn nearest(num: int, den: int, magnitude: int) -> bool {
    &&& 0 <= magnitude <= INFINITY_BITS
    &&& magnitude > 0 ==> {
        let middle = den * (units_at(magnitude - 1) + units_at(magnitude));
        middle < 2 * num || (middle == 2 * num && magnitude % 2 == 0)
    }
    &&& magnitude < INFINITY_BITS ==> {
        let middle = den * (units_at(magnitude) + units_at(magnitude + 1));
        2 * num < middle || (2 * num == middle && magnitude % 2 == 0)
    }
}

/// The magnitude of the double nearest to a fraction of units.
pub open spec fn rounded(num: int, den: int) -> int {
    choose|magnitude: int| nearest(num, den, magnitude)
}

/// What a significand with its scale comes to.
pub proof fn lemma_units_at(scale: nat, q: int)
    requires
        0 <= q <= 2 * HIDDEN_BIT,
        scale == 0 || HIDDEN_BIT <= q,
        scale < 2046,
    ensures
        units_at(scale * HIDDEN_BIT + q) == q * pow2(scale),
        0 <= scale * HIDDEN_BIT + q < SIGN_BIT,
{
    let m = scale * HIDDEN_BIT + q;
    let d = OrdF64 { bits: m as u64 };
    assert(d.magnitude() == m);
    lemma2_to64();
    if q == 2 * HIDDEN_BIT {
        assert(m == (scale + 2) * HIDDEN_BIT);
        assert(d.scale() == scale + 1 && d.significand() == HIDDEN_BIT);
        lemma_pow2_unfold((scale + 1) as nat);
        assert(HIDDEN_BIT * (2 * pow2(scale)) == (2 * HIDDEN_BIT) * pow2(scale)) by (nonlinear_arith);
    } else if q >= HIDDEN_BIT {
        assert(m == (scale + 1) * HIDDEN_BIT + (q - HIDDEN_BIT));
        assert(d.scale() == scale && d.significand() == q);
    } else {
        assert(d.scale() == 0 && d.significand() == q);
    }
}

/// Zero has no units.
pub proof fn lemma_units_of_zero()
    ensures
        zero_rating().units() == 0,
        units_at(0) == 0,
{
    lemma2_to64();
    lemma_units_at(0, 0);
}

/// The units of a double are those at its magnitude.
pub proof fn lemma_units_is_units_at(a: OrdF64)
    ensures
        a.units() == units_at(a.magnitude()),
{
    assert((OrdF64 { bits: a.magnitude() as u64 }).magnitude() == a.magnitude());
}

/// The next double is one step of the scale away.
pub proof fn lemma_step(m: int) -> (r: (nat, int))
    requires
        0 <= m < INFINITY_BITS,
    ensures
        ({
            let (scale, q) = r;
            &&& m == scale * HIDDEN_BIT + q
            &&& 0 <= q < 2 * HIDDEN_BIT
            &&& scale == 0 || HIDDEN_BIT <= q
            &&& scale < 2046
            &&& units_at(m) == q * pow2(scale)
            &&& units_at(m + 1) == (q + 1) * pow2(scale)
            &&& 0 <= units_at(m) < units_at(m + 1)
        }),
{
    let scale: nat = if m < HIDDEN_BIT {
        0
    } else {
        (m / (HIDDEN_BIT as int) - 1) as nat
    };
    let q = m - scale * HIDDEN_BIT;
    assert(m + 1 == scale * HIDDEN_BIT + (q + 1));
    lemma_units_at(scale, q);
    lemma_units_at(scale, q + 1);
    lemma_pow2_pos(scale);
    assert(0 <= q * pow2(scale) < (q + 1) * pow2(scale)) by (nonlinear_arith)
        requires
            q >= 0,
            pow2(scale) > 0,
    ;
    (scale, q)
}

/// Larger doubles have more units.
pub proof fn lemma_units_increase(a: int, b: int)
    requires
        0 <= a < b <= INFINITY_BITS,
    ensures
        0 <= units_at(a) < units_at(b),
{
    let _ = lemma_step(a);
    lemma_units_grow(OrdF64 { bits: (a + 1) as u64 }, OrdF64 { bits: b as u64 });
}

/// Doubles with larger magnitudes have more units.
pub proof fn lemma_units_order(a: OrdF64, b: OrdF64)
    requires
        a.finite(),
        b.finite(),
    ensures
        a.units() >= 0,
        b.units() >= 0,
        a.magnitude() < b.magnitude() <==> a.units() < b.units(),
        a.magnitude() == b.magnitude() <==> a.units() == b.units(),
{
    let (ma, mb) = (a.magnitude(), b.magnitude());
    lemma_units_is_units_at(a);
    lemma_units_is_units_at(b);
    let _ = lemma_step(ma);
    let _ = lemma_step(mb);
    if ma < mb {
        lemma_units_increase(ma, mb);
    } else if mb < ma {
        lemma_units_increase(mb, ma);
    }
}

/// The units of powers of two.
pub proof fn lemma_power_units(j: nat)
    requires
        j <= 1023,
    ensures
        units_at((1023 + j) * HIDDEN_BIT) == pow2(1074 + j),
        0 <= (1023 + j) * HIDDEN_BIT < INFINITY_BITS,
{
    lemma2_to64_rest();
    lemma_units_at((1022 + j) as nat, HIDDEN_BIT as int);
    lemma_pow2_adds(52, (1022 + j) as nat);
}

/// A fraction between two neighbouring doubles rounds to the nearer one, and
/// half way to the even one.
proof fn lemma_between(num: int, den: int, m: int)
    requires
        den > 0,
        0 <= m < INFINITY_BITS,
        den * units_at(m) <= num < den * units_at(m + 1),
    ensures
        ({
            let middle = den * (units_at(m) + units_at(m + 1));
            nearest(
                num,
                den,
                if 2 * num < middle || (2 * num == middle && m % 2 == 0) {
                    m
                } else {
                    m + 1
                },
            )
        }),
{
    let (u, v) = (units_at(m), units_at(m + 1));
    let _ = lemma_step(m);
    assert(den * (u + v) == den * u + den * v) by (nonlinear_arith);
    if m > 0 {
        let t = units_at(m - 1);
        let _ = lemma_step(m - 1);
        assert(den * (t + u) < 2 * (den * u)) by (nonlinear_arith)
            requires
                den > 0,
                t < u,
        ;
    }
    if m + 1 < INFINITY_BITS {
        let w = units_at(m + 2);
        let _ = lemma_step(m + 1);
        assert(2 * (den * v) < den * (v + w)) by (nonlinear_arith)
            requires
                den > 0,
                v < w,
        ;
    }
}

/// From the units of infinity on everything rounds to infinity.
proof fn lemma_beyond(num: int, den: int)
    requires
        den > 0,
        den * units_at(INFINITY_BITS as int) <= num,
    ensures
        nearest(num, den, INFINITY_BITS as int),
{
    let m = INFINITY_BITS as int;
    let (t, u) = (units_at(m - 1), units_at(m));
    let _ = lemma_step(m - 1);
    assert(den * (t + u) < 2 * (den * u)) by (nonlinear_arith)
        requires
            den > 0,
            t < u,
    ;
}

/// One double is nearest.
pub proof fn lemma_nearest_is_unique(num: int, den: int, a: int, b: int)
    requires
        den > 0,
        nearest(num, den, a),
        nearest(num, den, b),
    ensures
        a == b,
    decreases (if a > b { 1int } else { 0 }),
{
    if a > b {
        lemma_nearest_is_unique(num, den, b, a);
    } else if a < b {
        let (ua, va) = (units_at(a), units_at(a + 1));
        let (tb, ub) = (units_at(b - 1), units_at(b));
        let _ = lemma_step(a);
        let _ = lemma_step(b - 1);
        if a + 1 < b {
            lemma_units_increase(a, b - 1);
            lemma_units_increase(a + 1, b);
            assert(den * (ua + va) < den * (tb + ub)) by (nonlinear_arith)
                requires
                    den > 0,
                    ua < tb,
                    va < ub,
            ;
        }
    }
}

/// The nearest double is the rounded one.
pub proof fn lemma_rounded(num: int, den: int, magnitude: int)
    requires
        den > 0,
        nearest(num, den, magnitude),
    ensures
        rounded(num, den) == magnitude,
{
    lemma_nearest_is_unique(num, den, magnitude, rounded(num, den));
}

/// Some double is nearest.
pub proof fn lemma_nearest_exists(num: int, den: int)
    requires
        den > 0,
        num >= 0,
    ensures
        nearest(num, den, rounded(num, den)),
{
    lemma2_to64();
    lemma_units_at(0, 0);
    assert(units_at(0) == 0);
    assert(den * units_at(0) <= num) by (nonlinear_arith)
        requires
            units_at(0) == 0,
            num >= 0,
    ;
    lemma_nearest_exists_from(num, den, 0);
}

proof fn lemma_nearest_exists_from(num: int, den: int, m: int)
    requires
        den > 0,
        0 <= m <= INFINITY_BITS,
        den * units_at(m) <= num,
    ensures
        nearest(num, den, rounded(num, den)),
    decreases INFINITY_BITS - m,
{
    if m == INFINITY_BITS {
        lemma_beyond(num, den);
    } else if num < den * units_at(m + 1) {
        lemma_between(num, den, m);
    } else {
        lemma_nearest_exists_from(num, den, m + 1);
    }
}

/// Nothing rounds to zero.
pub proof fn lemma_zero(den: int)
    requires
        den > 0,
    ensures
        rounded(0, den) == 0,
{
    lemma_units_at(0, 0);
    lemma_units_at(0, 1);
    lemma2_to64();
    let (u, v) = (units_at(0), units_at(1));
    assert(v == 1 * pow2(0));
    assert(den * (u + v) > 0) by (nonlinear_arith)
        requires
            den > 0,
            u == 0,
            v == 1,
    ;
    lemma_rounded(0, den, 0);
}

/// A double rounds to itself.
pub proof fn lemma_rounds_to_itself(m: int)
    requires
        0 <= m < INFINITY_BITS,
    ensures
        nearest(units_at(m), 1, m),
        rounded(units_at(m), 1) == m,
{
    let _ = lemma_step(m);
    lemma_between(units_at(m), 1, m);
    lemma_rounded(units_at(m), 1, m);
}

/// What is at most a double does not round above it.
pub proof fn lemma_rounds_at_most(num: int, den: int, magnitude: int, bound: int)
    requires
        den > 0,
        nearest(num, den, magnitude),
        0 <= bound <= INFINITY_BITS,
        num <= den * units_at(bound),
    ensures
        magnitude <= bound,
{
    if magnitude > bound {
        let (t, u, v) = (units_at(magnitude - 1), units_at(magnitude), units_at(bound));
        let _ = lemma_step(magnitude - 1);
        if bound < magnitude - 1 {
            lemma_units_increase(bound, magnitude - 1);
        }
        assert(2 * (den * v) < den * (t + u)) by (nonlinear_arith)
            requires
                den > 0,
                v <= t < u,
        ;
    }
}

/// What is at least a double does not round below it.
pub proof fn lemma_rounds_at_least(num: int, den: int, magnitude: int, bound: int)
    requires
        den > 0,
        nearest(num, den, magnitude),
        0 <= bound <= INFINITY_BITS,
        den * units_at(bound) <= num,
    ensures
        bound <= magnitude,
{
    if magnitude < bound {
        let (t, u, v) = (units_at(magnitude), units_at(magnitude + 1), units_at(bound));
        let _ = lemma_step(magnitude);
        if magnitude + 1 < bound {
            lemma_units_increase(magnitude + 1, bound);
        }
        assert(den * (t + u) < 2 * (den * v)) by (nonlinear_arith)
            requires
                den > 0,
                t < u <= v,
        ;
    }
}

/// A larger fraction does not round to a smaller double.
pub proof fn lemma_rounding_keeps_order(n1: int, d1: int, a: int, n2: int, d2: int, b: int)
    requires
        d1 > 0,
        d2 > 0,
        n1 * d2 <= n2 * d1,
        nearest(n1, d1, a),
        nearest(n2, d2, b),
    ensures
        a <= b,
{
    if a > b {
        let (ub, vb) = (units_at(b), units_at(b + 1));
        let (ta, ua) = (units_at(a - 1), units_at(a));
        let _ = lemma_step(b);
        let _ = lemma_step(a - 1);
        if b + 1 < a {
            lemma_units_increase(b, a - 1);
            lemma_units_increase(b + 1, a);
        }
        let (x, y) = (ta + ua, ub + vb);
        // d1 * x <= 2 * n1 and 2 * n2 <= d2 * y, where y <= x.
        assert(d2 * (d1 * x) <= d2 * (2 * n1) && d1 * (2 * n2) <= d1 * (d2 * y)) by (nonlinear_arith)
            requires
                d1 > 0,
                d2 > 0,
                d1 * x <= 2 * n1,
                2 * n2 <= d2 * y,
        ;
        assert(d2 * (2 * n1) <= d1 * (2 * n2)) by (nonlinear_arith)
            requires
                n1 * d2 <= n2 * d1,
        ;
        if b + 1 < a {
            assert(d1 * (d2 * y) < d2 * (d1 * x)) by (nonlinear_arith)
                requires
                    y < x,
                    d1 > 0,
                    d2 > 0,
            ;
        } else {
            // Both stand half way, and only one of two neighbours is even.
            assert(d1 * (d2 * y) == d2 * (d1 * x)) by (nonlinear_arith)
                requires
                    y == x,
            ;
            assert(d1 * x == 2 * n1) by (nonlinear_arith)
                requires
                    d2 * (d1 * x) == d2 * (2 * n1),
                    d2 > 0,
            ;
            assert(2 * n2 == d2 * y) by (nonlinear_arith)
                requires
                    d1 * (2 * n2) == d1 * (d2 * y),
                    d1 > 0,
            ;
        }
    }
}

/// Whether a fraction of units is `m` times two to the power `e`, or, where
/// something was cut off, lies strictly between that and the next multiple.
/// Both sides are scaled up so that no exponent is negative.
pub open spec fn held(num: int, den: int, m: int, e: int, cut: bool) -> bool {
    let (t, x) = (pow2(2200) as int, pow2((e + 2200) as nat) * den);
    &&& e >= -2200
    &&& if cut {
        m * x < num * t < (m + 1) * x
    } else {
        num * t == m * x
    }
}

/// The magnitude of the double nearest to `m` times two to the power `e`
/// units, or to a little more where something was cut off.
pub(crate) fn round_off(m: u128, e: i64, cut: bool, Ghost(num): Ghost<int>, Ghost(den): Ghost<int>) -> (magnitude:
    u64)
    requires
        0 < m < 0x8000_0000_0000_0000_0000_0000_0000_0000,
        -2200 <= e <= 5000,
        den > 0,
        held(num, den, m as int, e as int, cut),
        cut ==> m >= 0x40_0000_0000_0000,
    ensures
        nearest(num, den, magnitude as int),
{
    let b: u64 = bit_length(m);
    let drop: i64 = if b as i64 - 53 >= -e {
        b as i64 - 53
    } else {
        -e
    };
    let scale: i64 = e + drop;
    let ghost w = pow2(scale as nat) * den;
    proof {
        lemma2_to64_rest();
        if cut && b < 54 {
            lemma_pow2_strictly_increases(b as nat, 54);
        }
        lemma_scales(den, e as int, drop as int);
    }
    if drop >= 128 {
        proof {
            lemma_tiny(num, den, m as int, e as int, cut);
        }
        return 0;
    }
    let (q, up): (u64, bool) = if drop <= 0 {
        let p: u128 = power_of_two((-drop) as u64);
        proof {
            lemma_lifted(num, den, m as int, e as int, b as nat, (-drop) as nat);
        }
        ((m * p) as u64, false)
    } else {
        let p: u128 = power_of_two(drop as u64);
        let (q, r): (u128, u128) = (m / p, m % p);
        proof {
            lemma_fundamental_div_mod(m as int, p as int);
            assert(q * p == p * q) by (nonlinear_arith);
            lemma_dropped(num, den, m as int, e as int, cut, drop as nat, q as int, r as int);
            lemma_quotient(m as int, b as nat, drop as nat, q as int, r as int);
        }
        let half: u128 = p / 2;
        (q as u64, r > half || (r == half && (cut || q % 2 == 1)))
    };
    assert(0 <= q < 2 * HIDDEN_BIT && (scale == 0 || q >= HIDDEN_BIT));
    assert(q * w <= num < (q + 1) * w);
    if scale >= 2046 {
        proof {
            lemma_huge(num, den, scale as nat, q as int);
        }
        return INFINITY_BITS;
    }
    let magnitude: u64 = scale as u64 * HIDDEN_BIT + q;
    proof {
        lemma_units_at(scale as nat, q as int);
        lemma_units_at(scale as nat, q + 1);
        let y = pow2(scale as nat) as int;
        assert(den * (q * y) == q * w && den * ((q + 1) * y) == (q + 1) * w && den * (q * y + (q + 1)
            * y) == (2 * q + 1) * w) by (nonlinear_arith)
            requires
                w == y * den,
        ;
        lemma_between(num, den, magnitude as int);
    }
    if up {
        magnitude + 1
    } else {
        magnitude
    }
}

/// Two to a power.
pub(crate) fn power_of_two(k: u64) -> (p: u128)
    requires
        k <= 127,
    ensures
        p == pow2(k as nat),
        0 < p <= 0x8000_0000_0000_0000_0000_0000_0000_0000,
{
    let mut p: u128 = 1;
    proof {
        lemma2_to64();
        lemma_pow2_127();
        lemma_pow2_pos(k as nat);
    }
    for i in 0..k
        invariant
            k <= 127,
            p == pow2(i as nat),
            pow2(127) == 0x8000_0000_0000_0000_0000_0000_0000_0000,
    {
        proof {
            lemma_pow2_unfold((i + 1) as nat);
            if i + 1 < 127 {
                lemma_pow2_strictly_increases((i + 1) as nat, 127);
            }
        }
        p = p * 2;
    }
    proof {
        if k < 127 {
            lemma_pow2_strictly_increases(k as nat, 127);
        }
    }
    p
}

/// How many bits a number has.
fn bit_length(m: u128) -> (b: u64)
    requires
        0 < m < 0x8000_0000_0000_0000_0000_0000_0000_0000,
    ensures
        1 <= b <= 127,
        pow2((b - 1) as nat) <= m < pow2(b as nat),
{
    let mut b: u64 = 0;
    let mut p: u128 = 1;
    proof {
        lemma2_to64();
        lemma_pow2_127();
    }
    while p <= m
        invariant
            0 < m < 0x8000_0000_0000_0000_0000_0000_0000_0000,
            pow2(127) == 0x8000_0000_0000_0000_0000_0000_0000_0000,
            b <= 127,
            p == pow2(b as nat),
            b == 0 ==> p == 1,
            b > 0 ==> pow2((b - 1) as nat) <= m,
        decreases 127 - b,
    {
        proof {
            if b == 127 {
                assert(false);
            }
            lemma_pow2_unfold((b + 1) as nat);
        }
        p = p * 2;
        b = b + 1;
    }
    b
}

/// A positive factor does not change how two numbers compare.
pub proof fn lemma_cancel(a: int, b: int, t: int)
    requires
        t > 0,
    ensures
        a * t < b * t <==> a < b,
        a * t == b * t <==> a == b,
        a * t > b * t <==> a > b,
{
    assert((a < b ==> a * t < b * t) && (a > b ==> a * t > b * t)) by (nonlinear_arith)
        requires
            t > 0,
    ;
}

proof fn lemma_pow2_127()
    ensures
        pow2(127) == 0x8000_0000_0000_0000_0000_0000_0000_0000,
{
    lemma2_to64_rest();
    lemma_pow2_adds(63, 64);
    assert(pow2(63) * pow2(64) == 0x8000_0000_0000_0000 * 0x1_0000_0000_0000_0000);
}

/// Powers of two for the scaled comparison.
proof fn lemma_scales(den: int, e: int, drop: int)
    requires
        den > 0,
        e >= -2200,
        e + drop >= 0,
    ensures
        ({
            let (t, x) = (pow2(2200) as int, pow2((e + 2200) as nat) * den);
            let w = pow2((e + drop) as nat) * den;
            &&& t > 0
            &&& x > 0
            &&& w > 0
            &&& drop >= 0 ==> pow2(drop as nat) * x == w * t
            &&& drop <= 0 ==> x == pow2((-drop) as nat) * (w * t)
        }),
{
    let t = pow2(2200) as int;
    let p = pow2((e + 2200) as nat) as int;
    let y = pow2((e + drop) as nat) as int;
    lemma_pow2_pos(2200);
    lemma_pow2_pos((e + 2200) as nat);
    lemma_pow2_pos((e + drop) as nat);
    lemma_pow2_adds((e + drop) as nat, 2200);
    assert(p * den > 0 && y * den > 0) by (nonlinear_arith)
        requires
            p > 0,
            y > 0,
            den > 0,
    ;
    if drop >= 0 {
        let s = pow2(drop as nat) as int;
        lemma_pow2_adds(drop as nat, (e + 2200) as nat);
        assert(s * (p * den) == (y * den) * t) by (nonlinear_arith)
            requires
                s * p == y * t,
        ;
    }
    if drop <= 0 {
        let s = pow2((-drop) as nat) as int;
        lemma_pow2_adds((-drop) as nat, (e + drop + 2200) as nat);
        assert(p * den == s * ((y * den) * t)) by (nonlinear_arith)
            requires
                p == s * (y * t),
        ;
    }
}

/// Where the fraction stands between two neighbours once low bits are dropped.
proof fn lemma_dropped(num: int, den: int, m: int, e: int, cut: bool, drop: nat, q: int, r: int)
    requires
        den > 0,
        held(num, den, m, e, cut),
        drop >= 1,
        e + drop >= 0,
        m == q * pow2(drop) + r,
        0 <= r < pow2(drop),
    ensures
        ({
            let half = pow2((drop - 1) as nat);
            let w = pow2((e + drop) as nat) * den;
            &&& pow2(drop) == 2 * half
            &&& q * w <= num < (q + 1) * w
            &&& r < half ==> 2 * num < (2 * q + 1) * w
            &&& r == half && !cut ==> 2 * num == (2 * q + 1) * w
            &&& r > half || (r == half && cut) ==> 2 * num > (2 * q + 1) * w
        }),
{
    let (t, x) = (pow2(2200) as int, pow2((e + 2200) as nat) * den);
    let w = pow2((e + drop) as nat) * den;
    let s = pow2(drop) as int;
    let half = pow2((drop - 1) as nat) as int;
    lemma_scales(den, e, drop as int);
    lemma_pow2_unfold(drop);
    assert(m * x == q * (w * t) + r * x) by (nonlinear_arith)
        requires
            m == q * s + r,
            s * x == w * t,
    ;
    assert((m + 1) * x == q * (w * t) + (r + 1) * x) by (nonlinear_arith)
        requires
            m == q * s + r,
            s * x == w * t,
    ;
    assert(w * t == 2 * (half * x)) by (nonlinear_arith)
        requires
            s * x == w * t,
            s == 2 * half,
    ;
    assert(0 <= r * x && (r + 1) * x <= w * t && r * x < w * t) by (nonlinear_arith)
        requires
            0 <= r < s,
            s * x == w * t,
            x > 0,
    ;
    if r < half {
        assert((r + 1) * x <= half * x) by (nonlinear_arith)
            requires
                r < half,
                x > 0,
        ;
        assert(r * x < half * x) by (nonlinear_arith)
            requires
                r < half,
                x > 0,
        ;
    } else if r > half {
        assert(r * x > half * x) by (nonlinear_arith)
            requires
                r > half,
                x > 0,
        ;
    }
    let low = q * (w * t);
    assert(low == (q * w) * t && low + w * t == ((q + 1) * w) * t && 2 * low + w * t == ((2 * q + 1)
        * w) * t) by (nonlinear_arith)
        requires
            low == q * (w * t),
    ;
    let n = num * t;
    assert(2 * n == (2 * num) * t) by (nonlinear_arith)
        requires
            n == num * t,
    ;
    lemma_cancel(q * w, num, t);
    lemma_cancel(num, (q + 1) * w, t);
    lemma_cancel(2 * num, (2 * q + 1) * w, t);
}

/// Less than half a unit rounds to zero.
proof fn lemma_tiny(num: int, den: int, m: int, e: int, cut: bool)
    requires
        den > 0,
        0 < m < 0x8000_0000_0000_0000_0000_0000_0000_0000,
        e <= -128,
        held(num, den, m, e, cut),
    ensures
        nearest(num, den, 0),
{
    let (t, x) = (pow2(2200) as int, pow2((e + 2200) as nat) * den);
    lemma_scales(den, e, -e);
    lemma_pow2_127();
    lemma_pow2_unfold(128);
    if e < -128 {
        lemma_pow2_strictly_increases(128, (-e) as nat);
    }
    lemma2_to64();
    let s = pow2((-e) as nat) as int;
    assert(pow2(0) * den == den) by (nonlinear_arith)
        requires
            pow2(0) == 1,
    ;
    assert(2 * ((m + 1) * x) <= den * t) by (nonlinear_arith)
        requires
            2 * (m + 1) <= s,
            s * x == den * t,
            x > 0,
    ;
    assert(m * x < (m + 1) * x) by (nonlinear_arith)
        requires
            x > 0,
    ;
    assert((2 * num) * t == 2 * (num * t)) by (nonlinear_arith);
    lemma_cancel(2 * num, den, t);
    lemma_units_at(0, 0);
    lemma_units_at(0, 1);
}

/// A significand that is filled up with zeros is exact.
proof fn lemma_lifted(num: int, den: int, m: int, e: int, b: nat, k: nat)
    requires
        den > 0,
        held(num, den, m, e, false),
        b >= 1,
        pow2((b - 1) as nat) <= m < pow2(b),
        b + k <= 53,
        e - k >= 0,
    ensures
        ({
            let (q, w) = (m * pow2(k), pow2((e - k) as nat) * den);
            &&& 0 <= q < 2 * HIDDEN_BIT
            &&& b + k == 53 ==> q >= HIDDEN_BIT
            &&& num == q * w
            &&& num < (q + 1) * w
            &&& 2 * num < (2 * q + 1) * w
        }),
{
    let (t, x) = (pow2(2200) as int, pow2((e + 2200) as nat) * den);
    let s = pow2(k) as int;
    let (q, w) = (m * s, pow2((e - k) as nat) * den);
    lemma_scales(den, e, -k);
    lemma2_to64_rest();
    lemma_pow2_pos(k);
    lemma_pow2_adds(b, k);
    lemma_pow2_adds((b - 1) as nat, k);
    if b + k < 53 {
        lemma_pow2_strictly_increases(b + k, 53);
    }
    assert(pow2((b - 1) as nat) * s <= q < pow2(b) * s && q >= 0) by (nonlinear_arith)
        requires
            pow2((b - 1) as nat) <= m < pow2(b),
            s > 0,
            q == m * s,
    ;
    assert(num * t == (q * w) * t) by (nonlinear_arith)
        requires
            num * t == m * x,
            x == s * (w * t),
            q == m * s,
    ;
    lemma_cancel(num, q * w, t);
    assert(q * w < (q + 1) * w && 2 * (q * w) < (2 * q + 1) * w) by (nonlinear_arith)
        requires
            w > 0,
    ;
}

/// What is left of a number when its low bits are dropped.
proof fn lemma_quotient(m: int, b: nat, drop: nat, q: int, r: int)
    requires
        b >= 1,
        drop >= 1,
        pow2((b - 1) as nat) <= m < pow2(b),
        m == q * pow2(drop) + r,
        0 <= r < pow2(drop),
        b <= drop + 53,
        q >= 0,
    ensures
        q < 2 * HIDDEN_BIT,
        b == drop + 53 ==> q >= HIDDEN_BIT,
{
    let s = pow2(drop) as int;
    lemma2_to64_rest();
    lemma_pow2_pos(drop);
    lemma_pow2_adds(53, drop);
    lemma_pow2_adds(52, drop);
    if b < drop + 53 {
        lemma_pow2_strictly_increases(b, drop + 53);
    }
    assert(q < pow2(53)) by (nonlinear_arith)
        requires
            q * s + r < pow2(53) * s,
            r >= 0,
            s > 0,
    ;
    if b == drop + 53 {
        assert(q >= pow2(52)) by (nonlinear_arith)
            requires
                q * s + r >= pow2(52) * s,
                r < s,
                s > 0,
        ;
    }
}

/// A scale beyond that of the finite doubles is that of infinity.
proof fn lemma_huge(num: int, den: int, scale: nat, q: int)
    requires
        den > 0,
        scale >= 2046,
        q >= HIDDEN_BIT,
        q * (pow2(scale) * den) <= num,
    ensures
        nearest(num, den, INFINITY_BITS as int),
{
    lemma_units_at(2045, 2 * HIDDEN_BIT as int);
    lemma_pow2_unfold(2046);
    lemma_pow2_pos(2046);
    if scale > 2046 {
        lemma_pow2_strictly_increases(2046, scale);
    }
    assert(den * ((2 * HIDDEN_BIT) * pow2(2045)) <= q * (pow2(scale) * den)) by (nonlinear_arith)
        requires
            2 * pow2(2045) <= pow2(scale),
            HIDDEN_BIT <= q,
            den > 0,
    ;
    lemma_beyond(num, den);
}

} // verus!
