//! Binary64 numbers carried by their bit pattern.
//!
//! A `Scalar` is the 64-bit pattern of an IEEE-754 double: one sign bit, eleven
//! exponent bits, fifty-two fraction bits. Everything here is integer work on
//! that pattern: the sign operations are exact bit flips and the comparisons
//! are the IEEE ordered comparisons, stated over the number that the pattern
//! denotes.
use vstd::arithmetic::power2::{
    lemma_pow2_adds, lemma_pow2_pos, lemma_pow2_strictly_increases, lemma_pow2_unfold, pow2,
};
use vstd::prelude::*;

verus! {

/// Two to the fifty-second: the weight of the hidden bit of a normal number,
/// and the number of fraction patterns under one exponent.
pub const HIDDEN_BIT: u64 = 0x10_0000_0000_0000;

/// The sign bit of a pattern.
pub const SIGN_BIT: u64 = 0x8000_0000_0000_0000;

/// Every bit but the sign bit.
pub const MAGNITUDE_MASK: u64 = 0x7FFF_FFFF_FFFF_FFFF;

/// The magnitude of an infinity; larger magnitudes are NaNs.
pub const INFINITY_BITS: u64 = 0x7FF0_0000_0000_0000;

/// The pattern of `0.0`.
pub const ZERO_BITS: u64 = 0;

/// The pattern of `1.0`.
pub const ONE_BITS: u64 = 0x3FF0_0000_0000_0000;

/// The pattern of `1.0e-8`, the tolerance of every geometric test.
pub const EPSILON_BITS: u64 = 0x3E45_798E_E230_8C3A;

/// The pattern of `0.02`, the coarse tolerance that keeps a point off the line
/// it is to be folded onto.
pub const PROXIMITY_BITS: u64 = 0x3F94_7AE1_47AE_147B;

/// A binary64 number, by bit pattern.
#[derive(Clone, Copy, Debug, PartialEq, Eq, Structural)]
pub struct Scalar {
    pub bits: u64,
}

impl Scalar {
    /// Whether the sign bit is set.
    pub open spec fn negative(self) -> bool {
        self.bits >= SIGN_BIT
    }

    /// The pattern without its sign bit.
    pub open spec fn magnitude(self) -> int {
        if self.bits >= SIGN_BIT {
            self.bits - SIGN_BIT
        } else {
            self.bits as int
        }
    }

    /// Whether the pattern is a NaN.
    pub open spec fn nan(self) -> bool {
        self.magnitude() > INFINITY_BITS
    }

    /// The number that the pattern denotes, in units of two to the minus 1074
    /// (the smallest positive double), so that every finite double is a whole
    /// number of units. An infinity counts as the power of two that follows the
    /// largest finite double. Both zeros are 0. Of a NaN the result means
    /// nothing.
    pub open spec fn value(self) -> int {
        if self.negative() {
            -units(self.magnitude())
        } else {
            units(self.magnitude())
        }
    }

    /// The position of the number on the line of all patterns: the magnitude,
    /// counted downwards from zero for negative patterns. Both zeros stand at
    /// 0. Positions are ordered as the values are.
    pub open spec fn rank(self) -> int {
        if self.negative() {
            -self.magnitude()
        } else {
            self.magnitude()
        }
    }

    /// `self < other` as IEEE-754 defines it: the values compare so, and
    /// neither side is a NaN.
    pub open spec fn below(self, other: Scalar) -> bool {
        !self.nan() && !other.nan() && self.value() < other.value()
    }

    /// `self <= other` as IEEE-754 defines it: the values compare so, and
    /// neither side is a NaN.
    pub open spec fn at_most(self, other: Scalar) -> bool {
        !self.nan() && !other.nan() && self.value() <= other.value()
    }

    /// The same magnitude with the sign bit flipped.
    pub open spec fn negated(self) -> Scalar {
        if self.bits >= SIGN_BIT {
            Scalar { bits: (self.bits - SIGN_BIT) as u64 }
        } else {
            Scalar { bits: (self.bits + SIGN_BIT) as u64 }
        }
    }

    /// The same magnitude with the sign bit cleared.
    pub open spec fn absolute(self) -> Scalar {
        Scalar { bits: self.magnitude() as u64 }
    }

    /// The number `0.0`.
    pub open spec fn spec_zero() -> Scalar {
        Scalar { bits: ZERO_BITS }
    }

    /// The number `1.0`.
    pub open spec fn spec_one() -> Scalar {
        Scalar { bits: ONE_BITS }
    }

    /// The number `1.0e-8`.
    pub open spec fn spec_epsilon() -> Scalar {
        Scalar { bits: EPSILON_BITS }
    }

    /// The number `0.02`.
    pub open spec fn spec_proximity() -> Scalar {
        Scalar { bits: PROXIMITY_BITS }
    }

    /// The number `0.0`.
    #[verifier::when_used_as_spec(spec_zero)]
    pub fn zero() -> (r: Scalar)
        ensures
            r == Self::spec_zero(),
    {
        Scalar { bits: ZERO_BITS }
    }

    /// The number `1.0`.
    #[verifier::when_used_as_spec(spec_one)]
    pub fn one() -> (r: Scalar)
        ensures
            r == Self::spec_one(),
    {
        Scalar { bits: ONE_BITS }
    }

    /// The number `1.0e-8`: the tolerance of every geometric test.
    #[verifier::when_used_as_spec(spec_epsilon)]
    pub fn epsilon() -> (r: Scalar)
        ensures
            r == Self::spec_epsilon(),
    {
        Scalar { bits: EPSILON_BITS }
    }

    /// The number `0.02`: the coarse tolerance that keeps a point off the line
    /// it is to be folded onto.
    #[verifier::when_used_as_spec(spec_proximity)]
    pub fn proximity() -> (r: Scalar)
        ensures
            r == Self::spec_proximity(),
    {
        Scalar { bits: PROXIMITY_BITS }
    }

    /// The number with the given pattern.
    pub fn from_bits(bits: u64) -> (r: Scalar)
        ensures
            r.bits == bits,
    {
        Scalar { bits }
    }

    /// The pattern of the number.
    pub fn to_bits(self) -> (r: u64)
        ensures
            r == self.bits,
    {
        self.bits
    }

    /// Whether the number is a NaN.
    pub fn is_nan(self) -> (r: bool)
        ensures
            r == self.nan(),
    {
        let m: u64 = self.bits & MAGNITUDE_MASK;
        proof {
            lemma_mask_is_magnitude(self.bits);
        }
        m > INFINITY_BITS
    }

    /// The negation: an exact flip of the sign bit, NaNs and zeros included.
    pub fn neg(self) -> (r: Scalar)
        ensures
            r == self.negated(),
    {
        let b: u64 = self.bits;
        assert(b ^ 0x8000_0000_0000_0000u64 == if b >= 0x8000_0000_0000_0000u64 {
            (b - 0x8000_0000_0000_0000u64) as u64
        } else {
            (b + 0x8000_0000_0000_0000u64) as u64
        }) by (bit_vector);
        Scalar { bits: b ^ SIGN_BIT }
    }

    /// The absolute value: the sign bit cleared, NaNs included.
    pub fn abs(self) -> (r: Scalar)
        ensures
            r == self.absolute(),
    {
        proof {
            lemma_mask_is_magnitude(self.bits);
        }
        Scalar { bits: self.bits & MAGNITUDE_MASK }
    }

    /// `self < other`.
    pub fn lt(self, other: Scalar) -> (r: bool)
        ensures
            r == self.below(other),
    {
        if self.is_nan() || other.is_nan() {
            return false;
        }
        proof {
            lemma_mask_is_magnitude(self.bits);
            lemma_mask_is_magnitude(other.bits);
            lemma_rank_orders_values(self, other);
        }
        let a: u64 = self.bits & MAGNITUDE_MASK;
        let b: u64 = other.bits & MAGNITUDE_MASK;
        if self.bits >= SIGN_BIT {
            if other.bits >= SIGN_BIT {
                b < a
            } else {
                a != 0 || b != 0
            }
        } else {
            other.bits < SIGN_BIT && a < b
        }
    }

    /// `self <= other`.
    pub fn le(self, other: Scalar) -> (r: bool)
        ensures
            r == self.at_most(other),
    {
        if self.is_nan() || other.is_nan() {
            return false;
        }
        proof {
            lemma_mask_is_magnitude(self.bits);
            lemma_mask_is_magnitude(other.bits);
            lemma_rank_orders_values(self, other);
        }
        let a: u64 = self.bits & MAGNITUDE_MASK;
        let b: u64 = other.bits & MAGNITUDE_MASK;
        if self.bits >= SIGN_BIT {
            other.bits < SIGN_BIT || b <= a
        } else {
            if other.bits >= SIGN_BIT {
                a == 0 && b == 0
            } else {
                a <= b
            }
        }
    }

    /// `self > other`.
    pub fn gt(self, other: Scalar) -> (r: bool)
        ensures
            r == other.below(self),
    {
        other.lt(self)
    }

    /// `self >= other`.
    pub fn ge(self, other: Scalar) -> (r: bool)
        ensures
            r == other.at_most(self),
    {
        other.le(self)
    }
}

/// What a magnitude is worth in units of two to the minus 1074: the fraction
/// alone under exponent field 0 (a subnormal), else the fraction with the hidden
/// bit, doubled once for each step of the exponent field above 1.
pub open spec fn units(magnitude: int) -> int {
    let e = magnitude / (HIDDEN_BIT as int);
    let f = magnitude % (HIDDEN_BIT as int);
    if e <= 0 {
        f
    } else {
        (HIDDEN_BIT + f) * pow2((e - 1) as nat)
    }
}

/// A magnitude is worth less than the first magnitude of the next exponent.
proof fn lemma_units_upper(m: int)
    requires
        0 <= m,
    ensures
        units(m) < HIDDEN_BIT * pow2((m / (HIDDEN_BIT as int)) as nat),
{
    let e = m / (HIDDEN_BIT as int);
    let f = m % (HIDDEN_BIT as int);
    if e <= 0 {
        assert(pow2(0) == 1) by {
            lemma_pow2_unfold(1);
            lemma_pow2_pos(0);
            vstd::arithmetic::power2::lemma2_to64();
        }
    } else {
        let k = pow2((e - 1) as nat) as int;
        lemma_pow2_pos((e - 1) as nat);
        lemma_pow2_unfold(e as nat);
        assert((HIDDEN_BIT + f) * k < HIDDEN_BIT * (2 * k)) by (nonlinear_arith)
            requires
                0 <= f < HIDDEN_BIT,
                k > 0,
        ;
    }
}

/// From exponent field 1 on, a magnitude is worth at least the first magnitude
/// of its exponent.
proof fn lemma_units_lower(m: int)
    requires
        m >= HIDDEN_BIT,
    ensures
        units(m) >= HIDDEN_BIT * pow2((m / (HIDDEN_BIT as int) - 1) as nat),
{
    let e = m / (HIDDEN_BIT as int);
    let f = m % (HIDDEN_BIT as int);
    let k = pow2((e - 1) as nat) as int;
    lemma_pow2_pos((e - 1) as nat);
    assert((HIDDEN_BIT + f) * k >= HIDDEN_BIT * k) by (nonlinear_arith)
        requires
            0 <= f,
            k > 0,
    ;
}

/// Larger magnitudes are worth more.
pub proof fn lemma_units_increasing(m1: int, m2: int)
    requires
        0 <= m1 < m2,
    ensures
        units(m1) < units(m2),
{
    let e1 = m1 / (HIDDEN_BIT as int);
    let f1 = m1 % (HIDDEN_BIT as int);
    let e2 = m2 / (HIDDEN_BIT as int);
    let f2 = m2 % (HIDDEN_BIT as int);
    if e1 == e2 {
        if e1 > 0 {
            let k = pow2((e1 - 1) as nat) as int;
            lemma_pow2_pos((e1 - 1) as nat);
            assert((HIDDEN_BIT + f1) * k < (HIDDEN_BIT + f2) * k) by (nonlinear_arith)
                requires
                    f1 < f2,
                    k > 0,
            ;
        }
    } else {
        assert(e1 < e2);
        lemma_units_upper(m1);
        lemma_units_lower(m2);
        if e1 < e2 - 1 {
            lemma_pow2_strictly_increases(e1 as nat, (e2 - 1) as nat);
        }
        let k1 = pow2(e1 as nat) as int;
        let k2 = pow2((e2 - 1) as nat) as int;
        assert(HIDDEN_BIT * k1 <= HIDDEN_BIT * k2) by (nonlinear_arith)
            requires
                k1 <= k2,
        ;
    }
}

/// Two patterns compare by value as they compare by position.
pub proof fn lemma_rank_orders_values(a: Scalar, b: Scalar)
    ensures
        a.value() < b.value() <==> a.rank() < b.rank(),
        a.value() <= b.value() <==> a.rank() <= b.rank(),
        a.value() == b.value() <==> a.rank() == b.rank(),
{
    let m = a.magnitude();
    let n = b.magnitude();
    if m < n {
        lemma_units_increasing(m, n);
    }
    if n < m {
        lemma_units_increasing(n, m);
    }
    if 0 < m {
        lemma_units_increasing(0, m);
    }
    if 0 < n {
        lemma_units_increasing(0, n);
    }
    assert(units(0) == 0);
}

/// Negating twice gives the pattern back.
pub proof fn lemma_negation_involutive(a: Scalar)
    ensures
        a.negated().negated() == a,
{
}

/// Negation keeps the magnitude, hence the absolute value and whether the
/// pattern is a NaN, and mirrors the value.
pub proof fn lemma_negation_keeps_magnitude(a: Scalar)
    ensures
        a.negated().magnitude() == a.magnitude(),
        a.negated().absolute() == a.absolute(),
        a.negated().nan() == a.nan(),
        a.negated().value() == -a.value(),
{
}

/// Negation reverses the order.
pub proof fn lemma_negation_reverses(a: Scalar, b: Scalar)
    ensures
        a.below(b) <==> b.negated().below(a.negated()),
        a.at_most(b) <==> b.negated().at_most(a.negated()),
{
    lemma_negation_keeps_magnitude(a);
    lemma_negation_keeps_magnitude(b);
}

/// The thresholds stand in the order `0 < 1.0e-8 < 0.02 < 1`, and none is a
/// NaN.
pub proof fn lemma_thresholds_ordered()
    ensures
        Scalar::zero().below(Scalar::epsilon()),
        Scalar::epsilon().below(Scalar::proximity()),
        Scalar::proximity().below(Scalar::one()),
        Scalar::zero().value() == 0,
        Scalar::one().value() == pow2(1074),
{
    lemma_rank_orders_values(Scalar::zero(), Scalar::epsilon());
    lemma_rank_orders_values(Scalar::epsilon(), Scalar::proximity());
    lemma_rank_orders_values(Scalar::proximity(), Scalar::one());
    assert(units(0) == 0);
    assert(ONE_BITS as int / (HIDDEN_BIT as int) == 1023);
    assert(ONE_BITS as int % (HIDDEN_BIT as int) == 0);
    lemma_pow2_adds(52, 1022);
    vstd::arithmetic::power2::lemma2_to64_rest();
}

/// The two tolerances are the doubles nearest to the decimal numbers that they
/// stand for: a hundred million times `1.0e-8`, and fifty times `0.02`, lie
/// within half a step of 1, a step being the distance to the next pattern up
/// or down.
pub proof fn lemma_tolerances_nearest()
    ensures
        ({
            let below = Scalar { bits: (EPSILON_BITS - 1) as u64 }.value();
            let at = Scalar::epsilon().value();
            let above = Scalar { bits: (EPSILON_BITS + 1) as u64 }.value();
            below < at < above && (below + at) * 100_000_000 <= 2 * pow2(1074) <= (at + above)
                * 100_000_000
        }),
        ({
            let below = Scalar { bits: (PROXIMITY_BITS - 1) as u64 }.value();
            let at = Scalar::proximity().value();
            let above = Scalar { bits: (PROXIMITY_BITS + 1) as u64 }.value();
            below < at < above && (below + at) * 50 <= 2 * pow2(1074) <= (at + above) * 50
        }),
{
    vstd::arithmetic::power2::lemma2_to64();
    vstd::arithmetic::power2::lemma2_to64_rest();
    lemma_pow2_adds(64, 15);
    lemma_pow2_adds(79, 995);
    lemma_pow2_adds(58, 1016);
    lemma_pow2_pos(995);
    lemma_pow2_pos(1016);
    let small = pow2(995) as int;
    let large = pow2(1016) as int;
    let whole = pow2(1074) as int;
    let e: int = 0x15_798E_E230_8C3A;
    let p: int = 0x14_7AE1_47AE_147B;
    assert(pow2(79) == 604462909807314587353088);
    assert(pow2(58) == 288230376151711744);
    assert(EPSILON_BITS as int / (HIDDEN_BIT as int) == 996);
    assert(EPSILON_BITS as int % (HIDDEN_BIT as int) == e - HIDDEN_BIT);
    assert((EPSILON_BITS - 1) / (HIDDEN_BIT as int) == 996);
    assert((EPSILON_BITS - 1) % (HIDDEN_BIT as int) == e - 1 - HIDDEN_BIT);
    assert((EPSILON_BITS + 1) / (HIDDEN_BIT as int) == 996);
    assert((EPSILON_BITS + 1) % (HIDDEN_BIT as int) == e + 1 - HIDDEN_BIT);
    assert(PROXIMITY_BITS as int / (HIDDEN_BIT as int) == 1017);
    assert(PROXIMITY_BITS as int % (HIDDEN_BIT as int) == p - HIDDEN_BIT);
    assert((PROXIMITY_BITS - 1) / (HIDDEN_BIT as int) == 1017);
    assert((PROXIMITY_BITS - 1) % (HIDDEN_BIT as int) == p - 1 - HIDDEN_BIT);
    assert((PROXIMITY_BITS + 1) / (HIDDEN_BIT as int) == 1017);
    assert((PROXIMITY_BITS + 1) % (HIDDEN_BIT as int) == p + 1 - HIDDEN_BIT);
    assert(Scalar::epsilon().value() == e * small);
    assert(Scalar { bits: (EPSILON_BITS - 1) as u64 }.value() == (e - 1) * small);
    assert(Scalar { bits: (EPSILON_BITS + 1) as u64 }.value() == (e + 1) * small);
    assert(Scalar::proximity().value() == p * large);
    assert(Scalar { bits: (PROXIMITY_BITS - 1) as u64 }.value() == (p - 1) * large);
    assert(Scalar { bits: (PROXIMITY_BITS + 1) as u64 }.value() == (p + 1) * large);
    assert((e - 1) * small < e * small < (e + 1) * small && ((e - 1) * small + e * small)
        * 100_000_000 <= 2 * whole <= (e * small + (e + 1) * small) * 100_000_000)
        by (nonlinear_arith)
        requires
            small > 0,
            whole == 604462909807314587353088 * small,
            e == 0x15_798E_E230_8C3A,
    ;
    assert((p - 1) * large < p * large < (p + 1) * large && ((p - 1) * large + p * large) * 50
        <= 2 * whole <= (p * large + (p + 1) * large) * 50) by (nonlinear_arith)
        requires
            large > 0,
            whole == 288230376151711744 * large,
            p == 0x14_7AE1_47AE_147B,
    ;
}

/// Masking off the sign bit leaves the magnitude.
pub proof fn lemma_mask_is_magnitude(bits: u64)
    ensures
        (bits & MAGNITUDE_MASK) as int == (Scalar { bits }).magnitude(),
{
    assert(bits & 0x7FFF_FFFF_FFFF_FFFFu64 == if bits >= 0x8000_0000_0000_0000u64 {
        (bits - 0x8000_0000_0000_0000u64) as u64
    } else {
        bits
    }) by (bit_vector);
}

} // verus!
