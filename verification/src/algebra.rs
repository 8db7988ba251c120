//! Laws of the arithmetic on doubles: what stays of the laws of numbers once
//! every result is rounded, and zeros and NaNs have their say.
use crate::nearest::{
    lemma_nearest_scales, lemma_representable, lemma_rounded_exists, lemma_rounded_is,
    lemma_zero_rounds_to_zero, rounded,
};
use crate::scalar::{
    INFINITY_BITS, Scalar, lemma_negation_keeps_magnitude, lemma_rank_orders_values,
    lemma_thresholds_ordered, lemma_units_increasing, units,
};
use vstd::arithmetic::power2::{lemma_pow2_pos, pow2};
use vstd::prelude::*;

verus! {

impl Scalar {
    /// Whether two patterns are one number: both are NaNs, or neither is and
    /// they have one value. The two zeros are one number.
    pub open spec fn same_number(self, other: Scalar) -> bool {
        (self.nan() && other.nan()) || (!self.nan() && !other.nan() && self.value()
            == other.value())
    }
}

/// A sign and a magnitude up to infinity make the number with that sign and
/// that magnitude, which is no NaN.
pub proof fn lemma_signed(negative: bool, magnitude: int)
    requires
        0 <= magnitude <= INFINITY_BITS,
    ensures
        Scalar::signed(negative, magnitude).magnitude() == magnitude,
        Scalar::signed(negative, magnitude).negative() == negative,
        !Scalar::signed(negative, magnitude).nan(),
        Scalar::signed(negative, magnitude).negated() == Scalar::signed(!negative, magnitude),
{
}

/// Numbers that are one number have one magnitude, and one sign unless they
/// are zeros.
pub proof fn lemma_same_number(a: Scalar, b: Scalar)
    requires
        a.same_number(b),
        !a.nan(),
    ensures
        a.magnitude() == b.magnitude(),
        a.negative() == b.negative() || a.vanishes(),
{
    lemma_rank_orders_values(a, b);
}

/// A number times one is that number, and times minus one its opposite, bit
/// for bit.
pub proof fn lemma_times_one(a: Scalar)
    requires
        !a.nan(),
    ensures
        a.times(Scalar::one()) == a,
        a.times(Scalar::one().negated()) == a.negated(),
{
    let unit = pow2(1074) as int;
    let m = a.magnitude();
    lemma_thresholds_ordered();
    lemma_pow2_pos(1074);
    lemma_negation_keeps_magnitude(Scalar::one());
    lemma_representable(m);
    lemma_nearest_scales(units(m), 1, unit, m);
    assert(unit * units(m) == a.size() * unit) by (nonlinear_arith)
        requires
            units(m) == a.size(),
    ;
    lemma_rounded_is(a.size() * unit, unit, m);
    lemma_signed(a.negative(), m);
    lemma_signed(!a.negative(), m);
}

/// A finite number times a zero is a zero.
pub proof fn lemma_times_zero(a: Scalar, z: Scalar)
    requires
        !a.nan(),
        !a.infinite(),
        z.vanishes(),
    ensures
        a.times(z).vanishes(),
        z.times(a).vanishes(),
{
    lemma_pow2_pos(1074);
    assert(units(0) == 0);
    assert(a.size() * z.size() == 0 && z.size() * a.size() == 0) by (nonlinear_arith)
        requires
            z.size() == 0,
    ;
    lemma_zero_rounds_to_zero(pow2(1074) as int);
    lemma_signed(a.negative() != z.negative(), 0);
}

/// A number and a zero add up to that number.
pub proof fn lemma_plus_zero(a: Scalar, z: Scalar)
    requires
        !a.nan(),
        z.vanishes(),
    ensures
        a.plus(z).same_number(a),
        z.plus(a).same_number(a),
{
    let m = a.magnitude();
    assert(units(0) == 0);
    lemma_plus_commutes(a, z);
    lemma_representable(m);
    if m > 0 {
        lemma_units_increasing(0, m);
    }
    lemma_signed(a.negative() && z.negative(), 0);
    lemma_signed(a.negative(), m);
}

/// The product does not depend on the order of its factors.
pub proof fn lemma_times_commutes(a: Scalar, b: Scalar)
    ensures
        a.times(b) == b.times(a),
{
    assert(a.size() * b.size() == b.size() * a.size()) by (nonlinear_arith);
}

/// The sum does not depend on the order of its terms.
pub proof fn lemma_plus_commutes(a: Scalar, b: Scalar)
    ensures
        a.plus(b) == b.plus(a),
{
}

/// Taking a difference the other way round gives the opposite number.
pub proof fn lemma_minus_opposes(a: Scalar, b: Scalar)
    ensures
        b.minus(a).same_number(a.minus(b).negated()),
{
    lemma_negation_keeps_magnitude(a);
    lemma_negation_keeps_magnitude(b);
    assert(units(0) == 0);
    if !a.nan() && !b.nan() && !a.infinite() && !b.infinite() {
        let sum = a.value() + b.negated().value();
        assert(b.value() + a.negated().value() == -sum);
        if sum < 0 {
            lemma_rounded_exists(-sum, 1);
            lemma_signed(true, rounded(-sum, 1));
            lemma_signed(false, rounded(-sum, 1));
        } else if sum > 0 {
            lemma_rounded_exists(sum, 1);
            lemma_signed(true, rounded(sum, 1));
            lemma_signed(false, rounded(sum, 1));
        }
    }
    lemma_negation_keeps_magnitude(a.minus(b));
}

/// A sum is one number whichever patterns write its two terms.
pub proof fn lemma_plus_respects(a1: Scalar, b1: Scalar, a2: Scalar, b2: Scalar)
    requires
        a1.same_number(a2),
        b1.same_number(b2),
    ensures
        a1.plus(b1).same_number(a2.plus(b2)),
{
    assert(units(0) == 0);
    if !a1.nan() && !b1.nan() {
        lemma_same_number(a1, a2);
        lemma_same_number(b1, b2);
        if !a1.infinite() && !b1.infinite() {
            let sum = a1.value() + b1.value();
            if sum < 0 {
                lemma_rounded_exists(-sum, 1);
                lemma_signed(true, rounded(-sum, 1));
            } else if sum > 0 {
                lemma_rounded_exists(sum, 1);
                lemma_signed(false, rounded(sum, 1));
            }
        }
    }
}

/// A product is one number whichever patterns write its two factors.
pub proof fn lemma_times_respects(a1: Scalar, b1: Scalar, a2: Scalar, b2: Scalar)
    requires
        a1.same_number(a2),
        b1.same_number(b2),
    ensures
        a1.times(b1).same_number(a2.times(b2)),
{
    assert(units(0) == 0);
    if !a1.nan() && !b1.nan() {
        lemma_same_number(a1, a2);
        lemma_same_number(b1, b2);
        lemma_signed(true, INFINITY_BITS as int);
        lemma_signed(false, INFINITY_BITS as int);
        if !a1.infinite() && !b1.infinite() {
            let n = a1.size() * b1.size();
            lemma_pow2_pos(1074);
            if a1.magnitude() > 0 {
                lemma_units_increasing(0, a1.magnitude());
            }
            if b1.magnitude() > 0 {
                lemma_units_increasing(0, b1.magnitude());
            }
            assert(n >= 0) by (nonlinear_arith)
                requires
                    n == a1.size() * b1.size(),
                    a1.size() >= 0,
                    b1.size() >= 0,
            ;
            lemma_rounded_exists(n, pow2(1074) as int);
            lemma_signed(true, rounded(n, pow2(1074) as int));
            lemma_signed(false, rounded(n, pow2(1074) as int));
            if a1.vanishes() || b1.vanishes() {
                assert(n == 0) by (nonlinear_arith)
                    requires
                        n == a1.size() * b1.size(),
                        a1.size() == 0 || b1.size() == 0,
                ;
                lemma_zero_rounds_to_zero(pow2(1074) as int);
            }
        }
    }
}

/// The product with the opposite of a factor is the opposite of the product.
pub proof fn lemma_times_opposite(a: Scalar, b: Scalar)
    ensures
        a.negated().times(b).same_number(a.times(b).negated()),
        a.times(b.negated()).same_number(a.times(b).negated()),
        a.negated().times(b.negated()).same_number(a.times(b)),
{
    lemma_negation_keeps_magnitude(a);
    lemma_negation_keeps_magnitude(b);
    lemma_negation_keeps_magnitude(a.times(b));
    assert(units(0) == 0);
    if !a.nan() && !b.nan() {
        lemma_signed(true, INFINITY_BITS as int);
        lemma_signed(false, INFINITY_BITS as int);
        if !a.infinite() && !b.infinite() {
            let n = a.size() * b.size();
            lemma_pow2_pos(1074);
            if a.magnitude() > 0 {
                lemma_units_increasing(0, a.magnitude());
            }
            if b.magnitude() > 0 {
                lemma_units_increasing(0, b.magnitude());
            }
            assert(n >= 0) by (nonlinear_arith)
                requires
                    n == a.size() * b.size(),
                    a.size() >= 0,
                    b.size() >= 0,
            ;
            lemma_rounded_exists(n, pow2(1074) as int);
            lemma_signed(true, rounded(n, pow2(1074) as int));
            lemma_signed(false, rounded(n, pow2(1074) as int));
        }
    }
}

/// The sum of the opposites of two numbers is the opposite of their sum.
pub proof fn lemma_plus_opposite(a: Scalar, b: Scalar)
    ensures
        a.negated().plus(b.negated()).same_number(a.plus(b).negated()),
{
    lemma_negation_keeps_magnitude(a);
    lemma_negation_keeps_magnitude(b);
    lemma_negation_keeps_magnitude(a.plus(b));
    assert(units(0) == 0);
    if !a.nan() && !b.nan() && !a.infinite() && !b.infinite() {
        let sum = a.value() + b.value();
        if sum < 0 {
            lemma_rounded_exists(-sum, 1);
            lemma_signed(true, rounded(-sum, 1));
            lemma_signed(false, rounded(-sum, 1));
        } else if sum > 0 {
            lemma_rounded_exists(sum, 1);
            lemma_signed(true, rounded(sum, 1));
            lemma_signed(false, rounded(sum, 1));
        }
    }
}

/// To be one number is symmetric and transitive.
pub proof fn lemma_same_number_chains(a: Scalar, b: Scalar, c: Scalar)
    ensures
        a.same_number(a),
        a.same_number(b) == b.same_number(a),
        a.same_number(b) && b.same_number(c) ==> a.same_number(c),
        a.same_number(b) ==> a.negated().same_number(b.negated()),
{
    lemma_negation_keeps_magnitude(a);
    lemma_negation_keeps_magnitude(b);
}

/// The quotient of the opposites of two numbers is the quotient of the two,
/// as long as the divisor is not zero.
pub proof fn lemma_over_opposites(x1: Scalar, d1: Scalar, x2: Scalar, d2: Scalar)
    requires
        x2.same_number(x1.negated()),
        d2.same_number(d1.negated()),
        !d1.vanishes(),
    ensures
        x2.over(d2).same_number(x1.over(d1)),
{
    lemma_negation_keeps_magnitude(x1);
    lemma_negation_keeps_magnitude(d1);
    assert(units(0) == 0);
    if !x1.nan() && !d1.nan() {
        lemma_same_number(x1.negated(), x2);
        lemma_same_number(d1.negated(), d2);
        if !x1.infinite() && !d1.infinite() {
            let n = x1.size() * pow2(1074);
            lemma_pow2_pos(1074);
            lemma_units_increasing(0, d1.magnitude());
            if x1.magnitude() > 0 {
                lemma_units_increasing(0, x1.magnitude());
            }
            assert(n >= 0) by (nonlinear_arith)
                requires
                    n == x1.size() * pow2(1074),
                    x1.size() >= 0,
                    pow2(1074) > 0,
            ;
            lemma_rounded_exists(n, d1.size());
            let m = rounded(n, d1.size());
            lemma_signed(true, m);
            lemma_signed(false, m);
            if x1.vanishes() {
                lemma_zero_rounds_to_zero(d1.size());
                assert(n == 0) by (nonlinear_arith)
                    requires
                        n == x1.size() * pow2(1074),
                        x1.size() == 0,
                ;
            }
        } else {
            lemma_signed(true, INFINITY_BITS as int);
            lemma_signed(false, INFINITY_BITS as int);
            lemma_signed(true, 0);
            lemma_signed(false, 0);
        }
    }
}

} // verus!
