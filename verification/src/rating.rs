//! Skill ratings and search windows.
//!
//! A rating is an IEEE 754 double, held by its bits. Everything that only
//! compares doubles, and the bracket that a rating falls into, is computed on
//! the bits with integers.

use vstd::arithmetic::div_mod::{
    lemma_div_denominator, lemma_div_is_ordered, lemma_fundamental_div_mod,
    lemma_fundamental_div_mod_converse,
};
use vstd::arithmetic::power2::{
    lemma2_to64_rest, lemma_pow2_adds, lemma_pow2_pos, lemma_pow2_strictly_increases,
    lemma_pow2_unfold, pow2,
};
use vstd::bits::lemma_u64_shr_is_div;
use vstd::prelude::*;

verus! {

/// The sign bit of a double.
pub const SIGN_BIT: u64 = 0x8000_0000_0000_0000;

/// The bits of positive infinity. A larger magnitude is not a number.
pub const INFINITY_BITS: u64 = 0x7ff0_0000_0000_0000;

/// One step of the exponent, and the hidden bit of a significand.
pub const HIDDEN_BIT: u64 = 0x10_0000_0000_0000;

/// The bits of the highest rating, 3000.0.
pub const MAX_RATING_BITS: u64 = 0x40a7_7000_0000_0000;

/// The width of a bracket, in rating points.
pub const BRACKET_SIZE: u64 = 200;

/// A double that is ordered, compared and found by its bits.
#[derive(Clone, Copy, Debug, PartialEq, Eq, Structural)]
pub struct OrdF64 {
    pub bits: u64,
}

/// The highest rating.
pub open spec fn max_rating() -> OrdF64 {
    OrdF64 { bits: MAX_RATING_BITS }
}

/// The lowest rating, positive zero.
pub open spec fn zero_rating() -> OrdF64 {
    OrdF64 { bits: 0 }
}

impl OrdF64 {
    /// The bits without the sign.
    pub open spec fn magnitude(self) -> int {
        if self.bits < SIGN_BIT {
            self.bits as int
        } else {
            self.bits - SIGN_BIT
        }
    }

    /// Whether the sign bit is set.
    pub open spec fn negative(self) -> bool {
        self.bits >= SIGN_BIT
    }

    /// Whether the bits are those of a NaN.
    pub open spec fn nan(self) -> bool {
        self.magnitude() > INFINITY_BITS
    }

    /// Whether the double is neither infinite nor a NaN.
    pub open spec fn finite(self) -> bool {
        self.magnitude() < INFINITY_BITS
    }

    /// The place in the total order of doubles, in which negative zero stands
    /// just below positive zero.
    pub open spec fn rank(self) -> int {
        if self.negative() {
            -1 - self.magnitude()
        } else {
            self.magnitude()
        }
    }

    /// A number that grows with the numeric value. The two zeros share it.
    pub open spec fn order(self) -> int {
        if self.negative() {
            -self.magnitude()
        } else {
            self.magnitude()
        }
    }

    /// Numeric `<`: false where a NaN takes part.
    pub open spec fn below(self, other: OrdF64) -> bool {
        !self.nan() && !other.nan() && self.order() < other.order()
    }

    /// The significand as an integer.
    pub open spec fn significand(self) -> int {
        if self.magnitude() < HIDDEN_BIT {
            self.magnitude()
        } else {
            HIDDEN_BIT + self.magnitude() % (HIDDEN_BIT as int)
        }
    }

    /// The exponent of two by which the significand is scaled, counted from
    /// that of the smallest double.
    pub open spec fn scale(self) -> int {
        if self.magnitude() < HIDDEN_BIT {
            0
        } else {
            self.magnitude() / (HIDDEN_BIT as int) - 1
        }
    }

    /// The absolute value of a finite double, as a multiple of the smallest
    /// positive double, which is two to the power -1074.
    pub open spec fn units(self) -> int {
        self.significand() * pow2(self.scale() as nat)
    }

    /// The bracket of a rating: how many whole brackets lie below it, at most
    /// `u32::MAX`. Negative values and NaNs are in bracket zero.
    pub open spec fn bracket(self) -> u32 {
        if self.negative() || self.nan() {
            0
        } else if !self.finite() {
            u32::MAX
        } else {
            let whole = self.units() / (BRACKET_SIZE * pow2(1074)) as int;
            if whole > u32::MAX {
                u32::MAX
            } else {
                whole as u32
            }
        }
    }

    /// The rating that the queue keeps for `self`: the nearest one in the range
    /// of ratings. Zero is kept without a sign, so that the total order and the
    /// numeric order agree on what the queue keeps.
    pub open spec fn clamped(self) -> OrdF64 {
        if self.magnitude() == 0 {
            zero_rating()
        } else {
            self.within(zero_rating(), max_rating())
        }
    }

    /// The double, brought into a range.
    pub open spec fn within(self, low: OrdF64, high: OrdF64) -> OrdF64 {
        if self.below(low) {
            low
        } else if high.below(self) {
            high
        } else {
            self
        }
    }

    /// The double without its sign.
    pub open spec fn absolute(self) -> OrdF64 {
        OrdF64 { bits: self.magnitude() as u64 }
    }

    /// The larger of two doubles. A NaN gives way to the other.
    pub open spec fn larger(self, other: OrdF64) -> OrdF64 {
        if self.nan() || self.below(other) {
            other
        } else {
            self
        }
    }

    /// The smaller of two doubles. A NaN gives way to the other.
    pub open spec fn smaller(self, other: OrdF64) -> OrdF64 {
        if self.nan() || other.below(self) {
            other
        } else {
            self
        }
    }

    /// The rank as a machine integer.
    pub fn key(self) -> (key: i64)
        ensures
            key == self.rank(),
    {
        if self.bits < SIGN_BIT {
            self.bits as i64
        } else {
            -1 - (self.bits - SIGN_BIT) as i64
        }
    }

    /// The double at a place in the total order.
    pub fn from_key(key: i64) -> (rating: Self)
        ensures
            rating.rank() == key,
    {
        if key >= 0 {
            OrdF64 { bits: key as u64 }
        } else {
            OrdF64 { bits: SIGN_BIT + (-1 - key) as u64 }
        }
    }

    /// The bits without the sign.
    pub fn magnitude_bits(self) -> (bits: u64)
        ensures
            bits == self.magnitude(),
    {
        if self.bits < SIGN_BIT {
            self.bits
        } else {
            self.bits - SIGN_BIT
        }
    }

    /// Whether the double is neither infinite nor a NaN.
    pub fn is_finite(self) -> (result: bool)
        ensures
            result == self.finite(),
    {
        self.magnitude_bits() < INFINITY_BITS
    }

    /// Numeric `<`.
    pub fn is_below(self, other: OrdF64) -> (result: bool)
        ensures
            result == self.below(other),
    {
        let mine: u64 = self.magnitude_bits();
        let theirs: u64 = other.magnitude_bits();
        if mine > INFINITY_BITS || theirs > INFINITY_BITS {
            false
        } else if self.bits < SIGN_BIT {
            other.bits < SIGN_BIT && mine < theirs
        } else if other.bits < SIGN_BIT {
            mine > 0 || theirs > 0
        } else {
            mine > theirs
        }
    }

    /// The double, brought into a range.
    pub fn clamp(self, low: OrdF64, high: OrdF64) -> (result: OrdF64)
        ensures
            result == self.within(low, high),
    {
        if self.is_below(low) {
            low
        } else if high.is_below(self) {
            high
        } else {
            self
        }
    }

    /// The double without its sign.
    pub fn abs(self) -> (result: OrdF64)
        ensures
            result == self.absolute(),
    {
        OrdF64 { bits: self.magnitude_bits() }
    }

    /// The larger of two doubles. A NaN gives way to the other.
    pub fn max(self, other: OrdF64) -> (result: OrdF64)
        ensures
            result == self.larger(other),
    {
        if self.magnitude_bits() > INFINITY_BITS || self.is_below(other) {
            other
        } else {
            self
        }
    }

    /// The smaller of two doubles. A NaN gives way to the other.
    pub fn min(self, other: OrdF64) -> (result: OrdF64)
        ensures
            result == self.smaller(other),
    {
        if self.magnitude_bits() > INFINITY_BITS || other.is_below(self) {
            other
        } else {
            self
        }
    }
}

/// Whether a rating is such as the queue keeps.
pub open spec fn kept(rating: OrdF64) -> bool {
    rating.finite() && rating == rating.clamped()
}

/// Whether a rating lies in the range of ratings. Zero may have either sign.
pub open spec fn in_range(rating: OrdF64) -> bool {
    rating.finite() && !rating.below(zero_rating()) && !max_rating().below(rating)
}

/// Brings a rating into the range from zero to the highest rating.
pub fn clamp_rating(rating: OrdF64) -> (result: OrdF64)
    ensures
        result == rating.clamped(),
{
    if rating.magnitude_bits() == 0 {
        return OrdF64 { bits: 0 };
    }
    rating.clamp(OrdF64 { bits: 0 }, OrdF64 { bits: MAX_RATING_BITS })
}

/// The bracket of a rating.
pub fn rating_to_bracket(rating: OrdF64) -> (bracket: u32)
    ensures
        bracket == rating.bracket(),
{
    if rating.bits >= SIGN_BIT || rating.bits > INFINITY_BITS {
        return 0;
    }
    if rating.bits == INFINITY_BITS {
        return u32::MAX;
    }
    let exponent: u64 = rating.bits / HIDDEN_BIT;
    if exponent < 1023 {
        proof {
            lemma_small_bracket(rating);
        }
        return 0;
    }
    if exponent >= 1063 {
        proof {
            lemma_large_bracket(rating);
        }
        return u32::MAX;
    }
    let significand: u64 = HIDDEN_BIT + rating.bits % HIDDEN_BIT;
    let shift: u64 = 1075 - exponent;
    let whole: u64 = significand >> shift;
    proof {
        lemma_u64_shr_is_div(significand, shift);
        lemma_whole_part(rating, shift as nat);
    }
    let count: u64 = whole / BRACKET_SIZE;
    if count > 0xffff_ffff {
        u32::MAX
    } else {
        count as u32
    }
}

/// Dropping a common factor leaves a quotient as it was.
proof fn lemma_div_cancel(a: int, d: int, c: int)
    requires
        d > 0,
        c > 0,
    ensures
        (a * c) / (d * c) == a / d,
        d * c > 0,
{
    let q = a / d;
    let r = a % d;
    lemma_fundamental_div_mod(a, d);
    assert(a * c == q * (d * c) + r * c && 0 <= r * c < d * c) by (nonlinear_arith)
        requires
            a == d * q + r,
            0 <= r < d,
            c > 0,
    ;
    lemma_fundamental_div_mod_converse(a * c, d * c, q, r * c);
}

/// The bracket divisor, split into the bracket size and the scale of one.
proof fn lemma_bracket_divisor(units: int)
    requires
        units >= 0,
    ensures
        units / (BRACKET_SIZE * pow2(1074)) as int == (units / (pow2(1074) as int)) / 200,
{
    lemma_pow2_pos(1074);
    lemma_div_denominator(units, pow2(1074) as int, 200);
    assert(BRACKET_SIZE * pow2(1074) == pow2(1074) * 200);
}

/// Splits the scale of one at the scale of a rating.
proof fn lemma_whole_part(rating: OrdF64, shift: nat)
    requires
        !rating.negative(),
        rating.finite(),
        HIDDEN_BIT <= rating.magnitude(),
        shift == 1075 - rating.magnitude() / (HIDDEN_BIT as int),
        1 <= shift,
    ensures
        rating.units() / (BRACKET_SIZE * pow2(1074)) as int == (rating.significand() / (pow2(
            shift,
        ) as int)) / 200,
{
    let scale = rating.scale() as nat;
    lemma_pow2_pos(shift);
    lemma_pow2_pos(scale);
    lemma_pow2_adds(shift, scale);
    assert(shift + scale == 1074);
    lemma_div_cancel(rating.significand(), pow2(shift) as int, pow2(scale) as int);
    assert(rating.units() >= 0) by (nonlinear_arith)
        requires
            rating.units() == rating.significand() * pow2(scale),
            rating.significand() >= 0,
    ;
    lemma_bracket_divisor(rating.units());
}

/// A rating below one is in bracket zero.
proof fn lemma_small_bracket(rating: OrdF64)
    requires
        !rating.negative(),
        rating.finite(),
        rating.magnitude() / (HIDDEN_BIT as int) < 1023,
    ensures
        rating.bracket() == 0,
{
    let scale = rating.scale() as nat;
    assert(rating.units() < pow2(1074) && rating.units() >= 0) by {
        lemma2_to64_rest();
        lemma_pow2_pos(scale);
        lemma_pow2_adds(53, scale);
        assert(0 <= rating.significand() < pow2(53));
        assert(0 <= rating.significand() * pow2(scale) < pow2(53) * pow2(scale)) by (nonlinear_arith)
            requires
                0 <= rating.significand() < pow2(53),
                pow2(scale) > 0,
        ;
        if 53 + scale < 1074 {
            lemma_pow2_strictly_increases(53 + scale, 1074);
        }
    }
    lemma_bracket_divisor(rating.units());
    assert(rating.units() / (pow2(1074) as int) == 0) by {
        lemma_fundamental_div_mod_converse(rating.units(), pow2(1074) as int, 0, rating.units());
    }
}

/// A rating of two to the power 40 or more is in the highest bracket.
proof fn lemma_large_bracket(rating: OrdF64)
    requires
        !rating.negative(),
        rating.finite(),
        rating.magnitude() / (HIDDEN_BIT as int) >= 1063,
    ensures
        rating.bracket() == u32::MAX,
{
    let scale = rating.scale() as nat;
    let one = pow2(1074) as int;
    assert(rating.units() >= 0x100_0000_0000 * one) by {
        lemma2_to64_rest();
        lemma_pow2_adds(52, scale);
        lemma_pow2_adds(40, 1074);
        lemma_pow2_pos(scale);
        assert(rating.significand() * pow2(scale) >= pow2(52) * pow2(scale)) by (nonlinear_arith)
            requires
                rating.significand() >= pow2(52),
                pow2(scale) > 0,
        ;
        if 1114 < 52 + scale {
            lemma_pow2_strictly_increases(1114, 52 + scale);
        }
    }
    lemma_pow2_pos(1074);
    lemma_bracket_divisor(rating.units());
    lemma_div_is_ordered(0x100_0000_0000 * one, rating.units(), one);
    lemma_fundamental_div_mod_converse(0x100_0000_0000 * one, one, 0x100_0000_0000, 0);
}

/// A larger magnitude is a larger absolute value.
pub proof fn lemma_units_grow(a: OrdF64, b: OrdF64)
    requires
        a.magnitude() <= b.magnitude(),
    ensures
        0 <= a.units() <= b.units(),
{
    let (sa, sb) = (a.scale() as nat, b.scale() as nat);
    lemma_pow2_pos(sa);
    lemma_pow2_pos(sb);
    if sa == sb {
        assert(a.significand() <= b.significand());
        assert(0 <= a.units() <= b.units()) by (nonlinear_arith)
            requires
                0 <= a.significand() <= b.significand(),
                a.units() == a.significand() * pow2(sa),
                b.units() == b.significand() * pow2(sa),
                pow2(sa) > 0,
        ;
    } else {
        assert(sa < sb);
        lemma_pow2_unfold((sa + 1) as nat);
        if sa + 1 < sb {
            lemma_pow2_strictly_increases((sa + 1) as nat, sb);
        }
        assert(0 <= a.units() <= b.units()) by (nonlinear_arith)
            requires
                0 <= a.significand() <= 2 * b.significand(),
                0 <= b.significand(),
                a.units() == a.significand() * pow2(sa),
                b.units() == b.significand() * pow2(sb),
                2 * pow2(sa) <= pow2(sb),
                pow2(sa) > 0,
        ;
    }
}

/// Brackets follow the total order: a rating that stands higher is in no lower
/// bracket.
pub proof fn lemma_brackets_follow_order(a: OrdF64, b: OrdF64)
    requires
        a.rank() <= b.rank(),
        !a.nan(),
        !b.nan(),
    ensures
        a.bracket() <= b.bracket(),
{
    if !a.negative() && b.finite() {
        lemma_units_grow(a, b);
        lemma_pow2_pos(1074);
        assert(BRACKET_SIZE * pow2(1074) > 0);
        lemma_div_is_ordered(a.units(), b.units(), (BRACKET_SIZE * pow2(1074)) as int);
        lemma_bracket_divisor(a.units());
        lemma_bracket_divisor(b.units());
    }
}

/// The highest rating is in bracket 15.
pub proof fn lemma_top_bracket()
    ensures
        max_rating().bracket() == 15,
        max_rating().finite(),
{
    let top = max_rating();
    assert(top.magnitude() / (HIDDEN_BIT as int) == 0x40a && top.magnitude() % (HIDDEN_BIT as int)
        == 0x7_7000_0000_0000);
    lemma_whole_part(top, 41);
    lemma2_to64_rest();
    assert(top.significand() == 3000 * 0x200_0000_0000);
}

/// A finite rating is kept as one between zero and the highest rating, and what
/// is kept is not changed again.
pub proof fn law_clamped_ratings_are_kept(rating: OrdF64)
    requires
        rating.finite(),
    ensures
        kept(rating.clamped()),
        in_range(rating.clamped()),
        !rating.clamped().negative(),
{
}

/// The ratings that the queue keeps fall into the brackets up to that of the
/// highest rating.
pub proof fn law_kept_ratings_have_low_brackets(rating: OrdF64)
    requires
        kept(rating),
    ensures
        rating.bracket() <= 15,
{
    lemma_top_bracket();
    lemma_brackets_follow_order(rating, max_rating());
}

} // verus!
