//! Arithmetic on doubles, computed with integers.
//!
//! Every operation returns the double nearest to the exact result.

use crate::rating::{OrdF64, HIDDEN_BIT, INFINITY_BITS, SIGN_BIT};
use crate::rounding::{
    held, lemma_cancel, lemma_rounded, lemma_units_at, lemma_units_order, lemma_zero, nearest,
    power_of_two, round_off, rounded, units_at,
};
use vstd::arithmetic::div_mod::lemma_fundamental_div_mod;
use vstd::arithmetic::power2::{
    lemma2_to64, lemma2_to64_rest, lemma_pow2_adds, lemma_pow2_pos, lemma_pow2_strictly_increases,
    lemma_pow2_unfold, pow2,
};
use vstd::prelude::*;

verus! {

/// The double with the given sign and magnitude.
pub open spec fn signed(negative: bool, magnitude: int) -> OrdF64 {
    if negative {
        OrdF64 { bits: (SIGN_BIT + magnitude) as u64 }
    } else {
        OrdF64 { bits: magnitude as u64 }
    }
}

impl OrdF64 {
    /// The value of a finite double in units.
    pub open spec fn value(self) -> int {
        if self.negative() {
            -self.units()
        } else {
            self.units()
        }
    }

    /// The double nearest to a whole number.
    pub open spec fn whole(n: nat) -> OrdF64 {
        signed(false, rounded(n * pow2(1074) as int, 1))
    }

    /// The opposite.
    pub open spec fn negated(self) -> OrdF64 {
        signed(!self.negative(), self.magnitude())
    }

    /// The sum of two doubles that are numbers, and not opposite infinities.
    pub open spec fn plus(self, other: OrdF64) -> OrdF64 {
        let sum = self.value() + other.value();
        if !self.finite() {
            self
        } else if !other.finite() {
            other
        } else if sum == 0 {
            signed(self.negative() && other.negative(), 0)
        } else if sum < 0 {
            signed(true, rounded(-sum, 1))
        } else {
            signed(false, rounded(sum, 1))
        }
    }

    /// The difference of two doubles that are numbers, and not infinities of
    /// one sign.
    pub open spec fn minus(self, other: OrdF64) -> OrdF64 {
        self.plus(other.negated())
    }

    /// The product of two finite doubles.
    pub open spec fn times(self, other: OrdF64) -> OrdF64 {
        signed(
            self.negative() != other.negative(),
            rounded(self.units() * other.units(), pow2(1074) as int),
        )
    }

    /// The quotient of a finite double and a divisor that is a number and not
    /// zero.
    pub open spec fn over(self, other: OrdF64) -> OrdF64 {
        signed(
            self.negative() != other.negative(),
            if other.finite() {
                rounded(self.units() * pow2(1074), other.units())
            } else {
                0
            },
        )
    }

    /// The significand and the scale.
    fn parts(self) -> (parts: (u64, i64))
        requires
            self.finite(),
        ensures
            parts.0 == self.significand(),
            parts.1 == self.scale(),
            parts.0 < 2 * HIDDEN_BIT,
            0 <= parts.1 < 2046,
            parts.1 > 0 ==> parts.0 >= HIDDEN_BIT,
            parts.0 == 0 <==> self.magnitude() == 0,
            self.units() == parts.0 * pow2(parts.1 as nat),
    {
        let m: u64 = self.magnitude_bits();
        if m < HIDDEN_BIT {
            (m, 0)
        } else {
            (HIDDEN_BIT + m % HIDDEN_BIT, (m / HIDDEN_BIT - 1) as i64)
        }
    }

    /// The double nearest to a whole number.
    pub fn from_whole(n: u64) -> (double: OrdF64)
        ensures
            double == Self::whole(n as nat),
            !double.nan(),
    {
        if n == 0 {
            proof {
                lemma_zero(1);
            }
            return OrdF64 { bits: 0 };
        }
        let ghost num = n * pow2(1074) as int;
        proof {
            lemma_pow2_adds(1074, 2200);
            let (a, t, x) = (pow2(1074) as int, pow2(2200) as int, pow2(3274) as int);
            assert((n * a) * t == n * (x * 1)) by (nonlinear_arith)
                requires
                    a * t == x,
            ;
        }
        let magnitude: u64 = round_off(n as u128, 1074, false, Ghost(num), Ghost(1));
        proof {
            lemma_rounded(num, 1, magnitude as int);
        }
        OrdF64 { bits: magnitude }
    }

    /// The product of two finite doubles.
    pub fn product(self, other: OrdF64) -> (double: OrdF64)
        requires
            self.finite(),
            other.finite(),
        ensures
            double == self.times(other),
            !double.nan(),
    {
        let negative: bool = (self.bits < SIGN_BIT) != (other.bits < SIGN_BIT);
        let (sa, ea): (u64, i64) = self.parts();
        let (sb, eb): (u64, i64) = other.parts();
        let ghost num = self.units() * other.units();
        let ghost den = pow2(1074) as int;
        proof {
            lemma_pow2_pos(1074);
        }
        if sa == 0 || sb == 0 {
            proof {
                assert(num == 0) by (nonlinear_arith)
                    requires
                        num == (sa * pow2(ea as nat)) * (sb * pow2(eb as nat)),
                        sa == 0 || sb == 0,
                ;
                lemma_zero(den);
            }
            return with_sign(negative, 0);
        }
        proof {
            assert(0 < sa * sb < 0x80_0000_0000_0000 * 0x80_0000_0000_0000) by (nonlinear_arith)
                requires
                    0 < sa < 0x80_0000_0000_0000,
                    0 < sb < 0x80_0000_0000_0000,
            ;
            lemma_product_scales(sa as int, sb as int, ea as nat, eb as nat);
        }
        let m: u128 = sa as u128 * sb as u128;
        let magnitude: u64 = round_off(m, ea + eb - 1074, false, Ghost(num), Ghost(den));
        proof {
            lemma_rounded(num, den, magnitude as int);
        }
        with_sign(negative, magnitude)
    }

    /// The quotient of a finite double and a divisor that is a number and not
    /// zero.
    pub fn quotient(self, other: OrdF64) -> (double: OrdF64)
        requires
            self.finite(),
            !other.nan(),
            other.magnitude() > 0,
        ensures
            double == self.over(other),
            !double.nan(),
    {
        let negative: bool = (self.bits < SIGN_BIT) != (other.bits < SIGN_BIT);
        if !other.is_finite() {
            return with_sign(negative, 0);
        }
        let (sa, ea): (u64, i64) = self.parts();
        let (sb, eb): (u64, i64) = other.parts();
        let ghost num = self.units() * pow2(1074);
        let ghost den = other.units();
        proof {
            lemma_pow2_pos(eb as nat);
            assert(den > 0) by (nonlinear_arith)
                requires
                    den == sb * pow2(eb as nat),
                    sb > 0,
                    pow2(eb as nat) > 0,
            ;
        }
        if sa == 0 {
            proof {
                assert(num == 0) by (nonlinear_arith)
                    requires
                        num == (sa * pow2(ea as nat)) * pow2(1074),
                        sa == 0,
                ;
                lemma_zero(den);
            }
            return with_sign(negative, 0);
        }
        let mut top: u64 = sa;
        let mut lift: u64 = 0;
        proof {
            lemma2_to64();
            lemma2_to64_rest();
        }
        while top < HIDDEN_BIT
            invariant
                0 < sa <= top < 2 * HIDDEN_BIT,
                lift <= 52,
                top == sa * pow2(lift as nat),
                pow2(52) == HIDDEN_BIT,
            decreases 2 * HIDDEN_BIT - top,
        {
            proof {
                lemma_pow2_unfold((lift + 1) as nat);
                let p = pow2(lift as nat) as int;
                assert(p <= top && sa * (2 * p) == 2 * top) by (nonlinear_arith)
                    requires
                        top == sa * p,
                        sa >= 1,
                        p >= 0,
                ;
                if lift >= 52 {
                    assert(false);
                }
            }
            top = top * 2;
            lift = lift + 1;
        }
        let n: u128 = top as u128 * 0x1_0000_0000_0000_0000;
        let m: u128 = n / sb as u128;
        let r: u128 = n % sb as u128;
        proof {
            lemma_fundamental_div_mod(n as int, sb as int);
            assert(m >= 0x40_0000_0000_0000 && m < 0x8000_0000_0000_0000_0000_0000_0000_0000)
                by (nonlinear_arith)
                requires
                    n == sb * m + r,
                    0 <= r < sb,
                    0 < sb < 0x20_0000_0000_0000,
                    0x10_0000_0000_0000_0000_0000_0000_0000 <= n < 0x20_0000_0000_0000_0000_0000_0000_0000,
            ;
            lemma_quotient_scales(
                sa as int,
                sb as int,
                ea as nat,
                eb as nat,
                lift as nat,
                m as int,
                r as int,
            );
        }
        let e: i64 = ea - eb - lift as i64 + 1010;
        let magnitude: u64 = round_off(m, e, r != 0, Ghost(num), Ghost(den));
        proof {
            lemma_rounded(num, den, magnitude as int);
        }
        with_sign(negative, magnitude)
    }

    /// The sum of two doubles that are numbers, and not opposite infinities.
    pub fn sum(self, other: OrdF64) -> (double: OrdF64)
        requires
            !self.nan(),
            !other.nan(),
            self.finite() || other.finite() || self == other,
        ensures
            double == self.plus(other),
            !double.nan(),
    {
        if !self.is_finite() {
            return self;
        }
        if !other.is_finite() {
            return other;
        }
        let minus_self: bool = self.bits >= SIGN_BIT;
        let minus_other: bool = other.bits >= SIGN_BIT;
        let (ua, ub): (u64, u64) = (self.magnitude_bits(), other.magnitude_bits());
        proof {
            lemma_units_order(self, other);
        }
        if minus_self == minus_other {
            let magnitude: u64 = if ua < ub {
                add_up(other, self)
            } else {
                add_up(self, other)
            };
            proof {
                lemma_zero(1);
                lemma_rounded(self.units() + other.units(), 1, magnitude as int);
            }
            with_sign(minus_self, magnitude)
        } else if ua == ub {
            OrdF64 { bits: 0 }
        } else if ua < ub {
            with_sign(minus_other, take_off(other, self))
        } else {
            with_sign(minus_self, take_off(self, other))
        }
    }

    /// The difference of two doubles that are numbers, and not infinities of
    /// one sign.
    pub fn difference(self, other: OrdF64) -> (double: OrdF64)
        requires
            !self.nan(),
            !other.nan(),
            self.finite() || other.finite() || self != other,
        ensures
            double == self.minus(other),
            !double.nan(),
    {
        let negated = with_sign(other.bits < SIGN_BIT, other.magnitude_bits());
        self.sum(negated)
    }
}

fn with_sign(negative: bool, magnitude: u64) -> (double: OrdF64)
    requires
        magnitude <= INFINITY_BITS,
    ensures
        double == signed(negative, magnitude as int),
{
    if negative {
        OrdF64 { bits: SIGN_BIT + magnitude }
    } else {
        OrdF64 { bits: magnitude }
    }
}

/// Two finite doubles on one scale, the larger one exactly. Of the smaller one
/// something may be cut off.
fn align(a: OrdF64, b: OrdF64) -> (r: (u128, u128, i64, bool))
    requires
        a.finite(),
        b.finite(),
        b.magnitude() <= a.magnitude(),
    ensures
        ({
            let (ma, mb, e, cut) = r;
            let p = pow2(e as nat) as int;
            &&& 0 <= e < 2046
            &&& p > 0
            &&& ma < 0x20_0000_0000_0000_0000_0000_0000_0000
            &&& mb < 0x20_0000_0000_0000
            &&& cut ==> ma >= 0x10_0000_0000_0000_0000_0000_0000_0000
            &&& a.units() == ma * p
            &&& !cut ==> b.units() == mb * p
            &&& cut ==> mb * p < b.units() < (mb + 1) * p
        }),
{
    let (sa, ea): (u64, i64) = a.parts();
    let (sb, eb): (u64, i64) = b.parts();
    let d: u64 = (ea - eb) as u64;
    proof {
        lemma2_to64();
        lemma2_to64_rest();
        lemma_pow2_pos(ea as nat);
        lemma_pow2_pos(eb as nat);
    }
    if d <= 64 {
        let p: u128 = power_of_two(d);
        proof {
            lemma_pow2_adds(d as nat, eb as nat);
            if d < 64 {
                lemma_pow2_strictly_increases(d as nat, 64);
            }
            let y = pow2(eb as nat) as int;
            assert(sa * p < 0x20_0000_0000_0000_0000_0000_0000_0000 && sa * (p * y) == (sa * p) * y)
                by (nonlinear_arith)
                requires
                    0 <= sa < 0x20_0000_0000_0000,
                    0 <= p <= 0x1_0000_0000_0000_0000,
            ;
        }
        (sa as u128 * p, sb as u128, eb, false)
    } else {
        let k: u64 = d - 64;
        let e: i64 = ea - 64;
        let ma: u128 = sa as u128 * 0x1_0000_0000_0000_0000;
        proof {
            lemma_pow2_adds(64, e as nat);
            lemma_pow2_pos(e as nat);
            let y = pow2(e as nat) as int;
            let s = 0x1_0000_0000_0000_0000int;
            assert(sa * (s * y) == (sa * s) * y) by (nonlinear_arith);
            lemma_pow2_adds(k as nat, eb as nat);
        }
        if k >= 64 {
            proof {
                if k > 64 {
                    lemma_pow2_strictly_increases(64, k as nat);
                }
                let (y, z, p) = (pow2(e as nat) as int, pow2(eb as nat) as int, pow2(k as nat) as int);
                assert(0 <= sb * z < p * z) by (nonlinear_arith)
                    requires
                        0 <= sb < p,
                        z > 0,
                ;
                assert(sb != 0 ==> sb * z > 0) by (nonlinear_arith)
                    requires
                        sb >= 0,
                        z > 0,
                ;
            }
            (ma, 0, e, sb != 0)
        } else {
            let p: u64 = power_of_two(k) as u64;
            let (q, r): (u64, u64) = (sb / p, sb % p);
            proof {
                lemma_fundamental_div_mod(sb as int, p as int);
                let (y, z) = (pow2(e as nat) as int, pow2(eb as nat) as int);
                assert(sb * z == q * y + r * z && 0 <= r * z < y) by (nonlinear_arith)
                    requires
                        sb == p * q + r,
                        0 <= r < p,
                        p * z == y,
                        z > 0,
                ;
                assert(r != 0 ==> r * z > 0) by (nonlinear_arith)
                    requires
                        r >= 0,
                        z > 0,
                ;
                assert((q + 1) * y == q * y + y) by (nonlinear_arith);
                assert(q <= sb) by (nonlinear_arith)
                    requires
                        sb == p * q + r,
                        r >= 0,
                        p >= 1,
                        q >= 0,
                ;
            }
            (ma, q as u128, e, r != 0)
        }
    }
}

/// The magnitude of the sum of two absolute values.
fn add_up(a: OrdF64, b: OrdF64) -> (magnitude: u64)
    requires
        a.finite(),
        b.finite(),
        b.magnitude() <= a.magnitude(),
    ensures
        nearest(a.units() + b.units(), 1, magnitude as int),
{
    let (ma, mb, e, cut): (u128, u128, i64, bool) = align(a, b);
    let ghost num = a.units() + b.units();
    let ghost p = pow2(e as nat) as int;
    proof {
        assert((ma + mb) * p == ma * p + mb * p && (ma + mb + 1) * p == ma * p + (mb + 1) * p)
            by (nonlinear_arith);
        lemma_whole_units(num, e as nat);
    }
    if ma + mb == 0 {
        proof {
            lemma_units_at(0, 0);
            lemma_units_at(0, 1);
            lemma2_to64();
            assert(units_at(1) == 1 * pow2(0));
        }
        return 0;
    }
    round_off(ma + mb, e, cut, Ghost(num), Ghost(1))
}

/// The magnitude of the difference of two absolute values.
fn take_off(a: OrdF64, b: OrdF64) -> (magnitude: u64)
    requires
        a.finite(),
        b.finite(),
        b.magnitude() < a.magnitude(),
    ensures
        magnitude == rounded(a.units() - b.units(), 1),
        magnitude <= INFINITY_BITS,
{
    let (ma, mb, e, cut): (u128, u128, i64, bool) = align(a, b);
    let ghost num = a.units() - b.units();
    let ghost p = pow2(e as nat) as int;
    proof {
        lemma_units_order(b, a);
        assert((ma - mb) * p == ma * p - mb * p && (ma - mb - 1) * p == ma * p - (mb + 1) * p)
            by (nonlinear_arith);
        if !cut {
            assert(ma > mb) by (nonlinear_arith)
                requires
                    ma * p > mb * p,
                    p > 0,
            ;
        }
        lemma_whole_units(num, e as nat);
    }
    let m: u128 = if cut {
        ma - mb - 1
    } else {
        ma - mb
    };
    let magnitude: u64 = round_off(m, e, cut, Ghost(num), Ghost(1));
    proof {
        lemma_rounded(num, 1, magnitude as int);
    }
    magnitude
}

/// What a multiple of a power of two is, told on the scaled comparison.
proof fn lemma_whole_units(num: int, e: nat)
    ensures
        forall|m: int, cut: bool|
            (if cut {
                m * pow2(e) < num < (m + 1) * pow2(e)
            } else {
                num == m * pow2(e)
            }) ==> #[trigger] held(num, 1, m, e as int, cut),
{
    let (t, p) = (pow2(2200) as int, pow2(e) as int);
    let x = pow2((e + 2200) as nat) * 1;
    lemma_pow2_pos(2200);
    lemma_pow2_adds(e, 2200);
    assert(x == p * t);
    assert forall|m: int, cut: bool|
        (if cut {
            m * p < num < (m + 1) * p
        } else {
            num == m * p
        }) implies #[trigger] held(num, 1, m, e as int, cut) by {
        assert(m * x == (m * p) * t && (m + 1) * x == ((m + 1) * p) * t) by (nonlinear_arith)
            requires
                x == p * t,
        ;
        lemma_cancel(m * p, num, t);
        lemma_cancel(num, (m + 1) * p, t);
    }
}

/// The significands of two factors, with both scales.
proof fn lemma_product_scales(sa: int, sb: int, ea: nat, eb: nat)
    ensures
        held(
            (sa * pow2(ea)) * (sb * pow2(eb)),
            pow2(1074) as int,
            sa * sb,
            ea + eb - 1074,
            false,
        ),
{
    let (a, b) = (pow2(ea) as int, pow2(eb) as int);
    let (t, c) = (pow2(2200) as int, pow2(1074) as int);
    let p = pow2((ea + eb + 1126) as nat) as int;
    lemma_pow2_adds(ea, eb);
    lemma_pow2_adds((ea + eb) as nat, 2200);
    lemma_pow2_adds((ea + eb + 1126) as nat, 1074);
    assert(((sa * a) * (sb * b)) * t == (sa * sb) * (p * c)) by (nonlinear_arith)
        requires
            (a * b) * t == p * c,
    ;
}

/// The significands of a dividend and a divisor, with both scales.
proof fn lemma_quotient_scales(sa: int, sb: int, ea: nat, eb: nat, lift: nat, m: int, r: int)
    requires
        sb > 0,
        0 <= r < sb,
        eb < 2046,
        lift <= 52,
        (sa * pow2(lift)) * 0x1_0000_0000_0000_0000 == sb * m + r,
    ensures
        held(
            (sa * pow2(ea)) * pow2(1074),
            sb * pow2(eb),
            m,
            ea - eb - lift + 1010,
            r != 0,
        ),
{
    let num = (sa * pow2(ea)) * pow2(1074);
    let e = ea - eb - lift + 1010;
    let (t, p, b) = (pow2(2200) as int, pow2((e + 2200) as nat) as int, pow2(eb) as int);
    let (a, l, c) = (pow2(ea) as int, pow2(lift) as int, pow2(1074) as int);
    let s = 0x1_0000_0000_0000_0000int;
    let y = pow2((ea + 3210 - lift) as nat) as int;
    lemma2_to64();
    lemma2_to64_rest();
    lemma_pow2_adds((e + 2200) as nat, eb);
    assert(p * b == y);
    lemma_pow2_adds(ea, 1074);
    lemma_pow2_adds((ea + 1074) as nat, 2200);
    lemma_pow2_adds(64, (ea + 3210 - lift) as nat);
    lemma_pow2_adds(lift, (ea + 3274 - lift) as nat);
    assert((a * c) * t == l * (s * y));
    assert(num * t == (sb * m + r) * y) by (nonlinear_arith)
        requires
            num == (sa * a) * c,
            (a * c) * t == l * (s * y),
            (sa * l) * s == sb * m + r,
    ;
    lemma_pow2_pos((ea + 3210 - lift) as nat);
    let x = p * (sb * b);
    assert(m * x == (sb * m) * y && (m + 1) * x == (sb * m + sb) * y) by (nonlinear_arith)
        requires
            x == p * (sb * b),
            p * b == y,
    ;
    if r != 0 {
        assert((sb * m) * y < (sb * m + r) * y < (sb * m + sb) * y) by (nonlinear_arith)
            requires
                0 < r < sb,
                y > 0,
        ;
    }
}

} // verus!
