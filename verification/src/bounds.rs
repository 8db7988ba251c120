//! How far a rounded result lies from the exact one.
use crate::algebra::lemma_signed;
use crate::nearest::{
    lemma_nearest_scales, lemma_representable, lemma_rounded_between, lemma_rounded_exists,
    lemma_rounded_is, lemma_rounded_root_between, lemma_units_packed, lemma_units_small, nearest,
    rounded, rounded_root,
};
use crate::scalar::{
    EPSILON_BITS, HIDDEN_BIT, INFINITY_BITS, Scalar, lemma_negation_keeps_magnitude,
    lemma_thresholds_ordered, lemma_units_increasing, units,
};
use crate::vector::Vector;
use vstd::arithmetic::power2::{
    lemma_pow2_adds, lemma_pow2_pos, lemma_pow2_strictly_increases, lemma_pow2_unfold, pow2,
};
use vstd::prelude::*;

verus! {

/// The absolute value of a number.
pub open spec fn modulus(x: int) -> int {
    if x < 0 {
        -x
    } else {
        x
    }
}

/// Whether `x` lies within one part in `w` of `t` from `t`.
pub open spec fn within(x: int, t: int, w: int) -> bool {
    (x - t) * w <= t && (t - x) * w <= t
}

impl Scalar {
    /// Whether the number is normal: finite, and large enough to have all
    /// its fifty-three bits.
    pub open spec fn normal(self) -> bool {
        HIDDEN_BIT <= self.magnitude() < INFINITY_BITS
    }

    /// Whether the number is finite and at most `reach` units in absolute
    /// value.
    pub open spec fn reaches(self, reach: int) -> bool {
        &&& !self.nan()
        &&& !self.infinite()
        &&& -reach <= self.value() <= reach
    }
}

/// The magnitude of two to the 1023, the largest power of two among the
/// doubles.
pub open spec fn top_power() -> int {
    2046 * HIDDEN_BIT
}

/// The powers of two that bound the numbers of the error analyses, as
/// multiples of one another: with `unit` for 1, `g` for two to the 200 and `t` for two to the
/// 1023.
pub open spec fn scales(unit: int, g: int, t: int) -> bool {
    &&& unit == pow2(1074)
    &&& g == pow2(200)
    &&& t == pow2(1023)
    &&& pow2(874) * g == unit
    &&& pow2(1048) * 0x400_0000 == unit
    &&& pow2(1274) == unit * g
    &&& pow2(2097) == unit * t
    &&& t * 0x8_0000_0000_0000 == unit
    &&& g >= 0x1_0000_0000_0000_0000
    &&& g * g * g * g * 0x1_0000_0000_0000_0000 <= t
    &&& pow2(1047) * 0x800_0000 == unit
}

/// The powers of two stand to one another as `scales` says.
pub proof fn lemma_scales()
    ensures
        scales(pow2(1074) as int, pow2(200) as int, pow2(1023) as int),
{
    vstd::arithmetic::power2::lemma2_to64();
    vstd::arithmetic::power2::lemma2_to64_rest();
    lemma_pow2_adds(874, 200);
    lemma_pow2_adds(1048, 26);
    lemma_pow2_adds(1074, 200);
    lemma_pow2_adds(1074, 1023);
    lemma_pow2_adds(1023, 51);
    lemma_pow2_adds(1047, 27);
    lemma_pow2_strictly_increases(64, 200);
    lemma_pow2_adds(200, 200);
    lemma_pow2_adds(400, 200);
    lemma_pow2_adds(600, 200);
    lemma_pow2_adds(800, 64);
    lemma_pow2_strictly_increases(864, 1023);
    let g = pow2(200) as int;
    assert(g * g * g * g * 0x1_0000_0000_0000_0000 == pow2(864)) by (nonlinear_arith)
        requires
            g * g == pow2(400),
            pow2(400) * g == pow2(600),
            pow2(600) * g == pow2(800),
            pow2(800) * 0x1_0000_0000_0000_0000 == pow2(864),
    ;
}

/// The smallest normal double is worth two to the fifty-second, and the
/// largest power of two among the doubles two to the 2097.
pub proof fn lemma_normal_range()
    ensures
        units(HIDDEN_BIT as int) == HIDDEN_BIT,
        units(top_power()) == pow2(2097),
        HIDDEN_BIT < top_power() < INFINITY_BITS,
{
    lemma_units_packed(2045, HIDDEN_BIT as int);
    vstd::arithmetic::power2::lemma2_to64_rest();
    vstd::arithmetic::power2::lemma_pow2_adds(52, 2045);
    assert(top_power() == 2045 * HIDDEN_BIT + HIDDEN_BIT);
    lemma_units_packed(0, HIDDEN_BIT as int);
    vstd::arithmetic::power2::lemma2_to64();
}

/// Infinity stands for two to the 2098, which is less than the square of
/// two to the 1074.
pub proof fn lemma_infinity_is_large()
    ensures
        units(INFINITY_BITS as int) == pow2(2098),
        pow2(2098) == 2 * pow2(2097),
        pow2(2097) < pow2(1074) * pow2(1074),
{
    lemma_units_packed(2046, HIDDEN_BIT as int);
    vstd::arithmetic::power2::lemma2_to64_rest();
    vstd::arithmetic::power2::lemma_pow2_adds(52, 2046);
    assert(INFINITY_BITS == 2046 * HIDDEN_BIT + HIDDEN_BIT);
    lemma_pow2_unfold(2098);
    vstd::arithmetic::power2::lemma_pow2_adds(1074, 1074);
    vstd::arithmetic::power2::lemma_pow2_strictly_increases(2097, 2148);
}

/// A bound on an absolute value is a bound from both sides.
pub proof fn lemma_two_sided(x: int, w: int, bound: int)
    requires
        w >= 0,
        modulus(x) * w <= bound,
    ensures
        -bound <= x * w <= bound,
{
    assert(-bound <= x * w <= bound) by (nonlinear_arith)
        requires
            modulus(x) * w <= bound,
            modulus(x) == x || modulus(x) == -x,
            modulus(x) >= 0,
            w >= 0,
    ;
}

/// A number whose multiple is within a multiple of a bound is within the
/// bound.
pub proof fn lemma_shrinks(x: int, w: int, wide: int, bound: int)
    requires
        w > 0,
        -wide <= x * w <= wide,
        wide <= w * bound,
    ensures
        -bound <= x <= bound,
{
    assert(-bound <= x <= bound) by (nonlinear_arith)
        requires
            -wide <= x * w <= wide,
            wide <= w * bound,
            w > 0,
    ;
}

/// Closeness carries over from `x` by way of `y` to `z`, at a width that
/// makes up for both steps.
pub proof fn lemma_within_chain(x: int, y: int, z: int, w1: int, w2: int, w3: int)
    requires
        z >= 0,
        w1 > 0,
        w2 > 0,
        w3 > 0,
        within(x, y, w1),
        within(y, z, w2),
        w3 * (w1 + w2 + 1) <= w1 * w2,
    ensures
        within(x, z, w3),
{
    assert(within(x, z, w3)) by (nonlinear_arith)
        requires
            z >= 0,
            w1 > 0,
            w2 > 0,
            w3 > 0,
            (x - y) * w1 <= y,
            (y - x) * w1 <= y,
            (y - z) * w2 <= z,
            (z - y) * w2 <= z,
            w3 * (w1 + w2 + 1) <= w1 * w2,
    ;
}

/// Closeness is kept when both sides are scaled by a number that is not
/// negative, and when a positive common factor is taken out.
pub proof fn lemma_within_scaled(x: int, t: int, w: int, c: int)
    requires
        c >= 0,
    ensures
        within(x, t, w) ==> within(x * c, t * c, w),
        c > 0 && within(x * c, t * c, w) ==> within(x, t, w),
{
    assert(within(x, t, w) ==> within(x * c, t * c, w)) by (nonlinear_arith)
        requires
            c >= 0,
    ;
    assert(c > 0 && within(x * c, t * c, w) ==> within(x, t, w)) by (nonlinear_arith)
        requires
            c >= 0,
    ;
}

/// Numbers whose squares are close are close.
pub proof fn lemma_within_root(x: int, t: int, w: int)
    requires
        x >= 0,
        t >= 0,
        w > 0,
        within(x * x, t * t, w),
    ensures
        within(x, t, w),
{
    assert(within(x, t, w)) by (nonlinear_arith)
        requires
            x >= 0,
            t >= 0,
            w > 0,
            (x * x - t * t) * w <= t * t,
            (t * t - x * x) * w <= t * t,
    ;
}

/// The distance between a normal double and its neighbours is at most one
/// part in two to the fifty-second of its value.
pub proof fn lemma_step_of_normal(m: int)
    requires
        HIDDEN_BIT <= m < INFINITY_BITS,
    ensures
        units(m + 1) > units(m) > units(m - 1),
        (units(m + 1) - units(m)) * HIDDEN_BIT <= units(m),
        (units(m) - units(m - 1)) * HIDDEN_BIT <= units(m),
{
    let h = HIDDEN_BIT as int;
    let j = m / h - 1;
    let sig = m % h + h;
    assert(m == j * h + sig);
    lemma_units_packed(j, sig);
    lemma_units_packed(j, sig + 1);
    let step = pow2(j as nat) as int;
    lemma_pow2_pos(j as nat);
    assert(units(m + 1) - units(m) == step) by (nonlinear_arith)
        requires
            units(m) == sig * step,
            units(m + 1) == (sig + 1) * step,
    ;
    assert(step * h <= units(m)) by (nonlinear_arith)
        requires
            units(m) == sig * step,
            sig >= h,
            step > 0,
    ;
    lemma_units_increasing(m - 1, m);
    if sig > h {
        lemma_units_packed(j, sig - 1);
        assert(units(m) - units(m - 1) == step) by (nonlinear_arith)
            requires
                units(m) == sig * step,
                units(m - 1) == (sig - 1) * step,
        ;
    } else if j >= 1 {
        assert(m - 1 == (j - 1) * h + (2 * h - 1));
        lemma_units_packed(j - 1, 2 * h - 1);
        lemma_pow2_unfold(j as nat);
        let half = pow2((j - 1) as nat) as int;
        lemma_pow2_pos((j - 1) as nat);
        assert(units(m) - units(m - 1) == half) by (nonlinear_arith)
            requires
                units(m) == h * (2 * half),
                units(m - 1) == (2 * h - 1) * half,
        ;
    } else {
        assert(m - 1 == 0 * h + (h - 1));
        lemma_units_packed(0, h - 1);
        vstd::arithmetic::power2::lemma2_to64();
    }
}

/// A fraction that rounds to a normal double lies within one part in two to
/// the fifty-second of itself from the value of that double.
pub proof fn lemma_rounding_error(n: int, d: int, m: int)
    requires
        d > 0,
        nearest(n, d, m),
        HIDDEN_BIT <= m < INFINITY_BITS,
    ensures
        n > 0,
        (units(m) * d - n) * HIDDEN_BIT <= n,
        (n - units(m) * d) * HIDDEN_BIT <= n,
{
    lemma_step_of_normal(m);
    let x = units(m);
    let up = units(m + 1) - units(m);
    let down = units(m) - units(m - 1);
    let h = HIDDEN_BIT as int;
    assert((2 * x - down) * d <= 2 * n && 2 * n <= (2 * x + up) * d);
    assert(x >= h) by (nonlinear_arith)
        requires
            up * h <= x,
            up >= 1,
            h > 0,
    ;
    assert(n > 0 && (x * d - n) * h <= n && (n - x * d) * h <= n) by (nonlinear_arith)
        requires
            (2 * x - down) * d <= 2 * n,
            2 * n <= (2 * x + up) * d,
            0 < up,
            0 < down,
            up * h <= x,
            down * h <= x,
            h == 0x10_0000_0000_0000,
            d > 0,
            x >= h,
    ;
}

/// A fraction that rounds to a double below the normal ones lies within half
/// a unit of the value of that double.
pub proof fn lemma_rounding_error_below(n: int, d: int, m: int)
    requires
        n >= 0,
        d > 0,
        nearest(n, d, m),
        m <= HIDDEN_BIT,
    ensures
        (units(m) * d - n) * 2 <= d,
        (n - units(m) * d) * 2 <= d,
{
    lemma_units_small(m);
    lemma_units_small(m + 1);
    if m > 0 {
        lemma_units_small(m - 1);
        assert((2 * m - 1) * d <= 2 * n);
    }
    assert(2 * n <= (2 * m + 1) * d);
    assert((units(m) * d - n) * 2 <= d && (n - units(m) * d) * 2 <= d) by (nonlinear_arith)
        requires
            units(m) == m,
            m > 0 ==> (2 * m - 1) * d <= 2 * n,
            2 * n <= (2 * m + 1) * d,
            m >= 0,
            n >= 0,
            d > 0,
    ;
}

/// A fraction in the range of the normal doubles rounds to a normal double.
pub proof fn lemma_normal_between(n: int, d: int)
    requires
        d > 0,
        HIDDEN_BIT * d <= n <= pow2(2097) * d,
    ensures
        HIDDEN_BIT <= rounded(n, d) < INFINITY_BITS,
        nearest(n, d, rounded(n, d)),
{
    lemma_normal_range();
    assert(n >= 0) by (nonlinear_arith)
        requires
            HIDDEN_BIT * d <= n,
            d > 0,
    ;
    lemma_rounded_exists(n, d);
    lemma_rounded_between(n, d, HIDDEN_BIT as int, top_power());
}

/// A sum that does not overflow is finite and lies within one part in two to
/// the fifty-second of the exact sum.
pub proof fn lemma_plus_near(a: Scalar, b: Scalar)
    requires
        !a.nan(),
        !b.nan(),
        !a.infinite(),
        !b.infinite(),
        modulus(a.value() + b.value()) <= pow2(2097),
    ensures
        !a.plus(b).nan(),
        !a.plus(b).infinite(),
        modulus(a.plus(b).value() - (a.value() + b.value())) * HIDDEN_BIT <= modulus(
            a.value() + b.value(),
        ),
{
    let sum = a.value() + b.value();
    let n = modulus(sum);
    assert(units(0) == 0);
    lemma_normal_range();
    if sum == 0 {
        lemma_signed(a.negative() && b.negative(), 0);
    } else {
        lemma_rounded_exists(n, 1);
        let m = rounded(n, 1);
        if n >= HIDDEN_BIT {
            lemma_normal_between(n, 1);
            lemma_rounding_error(n, 1, m);
        } else {
            lemma_units_small(n);
            lemma_representable(n);
            assert(m == n);
        }
        lemma_signed(sum < 0, m);
        if m > 0 {
            lemma_units_increasing(0, m);
        }
    }
}

/// A product that does not overflow is finite and lies within one part in
/// two to the fifty-second of the exact product, or within half a unit.
pub proof fn lemma_times_near(a: Scalar, b: Scalar)
    requires
        !a.nan(),
        !b.nan(),
        !a.infinite(),
        !b.infinite(),
        modulus(a.value() * b.value()) <= pow2(2097) * pow2(1074),
    ensures
        !a.times(b).nan(),
        !a.times(b).infinite(),
        modulus(a.times(b).value() * pow2(1074) - a.value() * b.value()) * HIDDEN_BIT <= modulus(
            a.value() * b.value(),
        ) + 0x8_0000_0000_0000 * pow2(1074),
{
    let n = a.size() * b.size();
    let d = pow2(1074) as int;
    let negative = a.negative() != b.negative();
    lemma_pow2_pos(1074);
    lemma_normal_range();
    assert(units(0) == 0);
    if a.magnitude() > 0 {
        lemma_units_increasing(0, a.magnitude());
    }
    if b.magnitude() > 0 {
        lemma_units_increasing(0, b.magnitude());
    }
    let sa = a.size();
    let sb = b.size();
    let va = a.value();
    let vb = b.value();
    assert(n >= 0 && modulus(va * vb) == n && va * vb == if negative {
        -n
    } else {
        n
    }) by (nonlinear_arith)
        requires
            n == sa * sb,
            sa >= 0,
            sb >= 0,
            va == sa || va == -sa,
            vb == sb || vb == -sb,
            (va == -sa && sa != 0) == a.negative() || sa == 0,
            (vb == -sb && sb != 0) == b.negative() || sb == 0,
            negative == (a.negative() != b.negative()),
            modulus(va * vb) == if va * vb < 0 {
                -(va * vb)
            } else {
                va * vb
            },
    ;
    lemma_rounded_exists(n, d);
    let m = rounded(n, d);
    lemma_signed(negative, m);
    let r = a.times(b);
    assert(r.size() == units(m));
    if n >= HIDDEN_BIT * d {
        lemma_normal_between(n, d);
        lemma_rounding_error(n, d, m);
    } else {
        assert(n <= units(HIDDEN_BIT as int) * d) by (nonlinear_arith)
            requires
                n < HIDDEN_BIT * d,
                units(HIDDEN_BIT as int) == HIDDEN_BIT,
        ;
        assert(units(0) * d <= n) by (nonlinear_arith)
            requires
                units(0) == 0,
                n >= 0,
        ;
        lemma_rounded_between(n, d, 0, HIDDEN_BIT as int);
        lemma_rounding_error_below(n, d, m);
    }
    let err = units(m) * d - n;
    assert(modulus(r.value() * d - va * vb) == modulus(err)) by (nonlinear_arith)
        requires
            r.value() == if negative {
                -units(m)
            } else {
                units(m)
            },
            va * vb == if negative {
                -n
            } else {
                n
            },
            err == units(m) * d - n,
            modulus(r.value() * d - va * vb) == if r.value() * d - va * vb < 0 {
                -(r.value() * d - va * vb)
            } else {
                r.value() * d - va * vb
            },
            modulus(err) == if err < 0 {
                -err
            } else {
                err
            },
    ;
    assert(modulus(err) * HIDDEN_BIT <= n + 0x8_0000_0000_0000 * d) by (nonlinear_arith)
        requires
            (n >= HIDDEN_BIT * d && err * HIDDEN_BIT <= n && -err * HIDDEN_BIT <= n) || (err * 2
                <= d && -err * 2 <= d),
            n >= 0,
            d > 0,
            HIDDEN_BIT == 0x10_0000_0000_0000,
            modulus(err) == if err < 0 {
                -err
            } else {
                err
            },
    ;
}

/// A quotient that does not overflow is finite and lies within one part in
/// two to the fifty-second of the exact quotient, or within half a unit.
pub proof fn lemma_over_near(a: Scalar, b: Scalar)
    requires
        !a.nan(),
        !b.nan(),
        !a.infinite(),
        !b.infinite(),
        !b.vanishes(),
        a.size() * pow2(1074) <= pow2(2097) * b.size(),
    ensures
        !a.over(b).nan(),
        !a.over(b).infinite(),
        a.over(b).negative() == (a.negative() != b.negative()),
        modulus(a.over(b).size() * b.size() - a.size() * pow2(1074)) * HIDDEN_BIT <= a.size()
            * pow2(1074) + 0x8_0000_0000_0000 * b.size(),
{
    let unit = pow2(1074) as int;
    let n = a.size() * unit;
    let d = b.size();
    let negative = a.negative() != b.negative();
    lemma_pow2_pos(1074);
    lemma_normal_range();
    assert(units(0) == 0);
    if a.magnitude() > 0 {
        lemma_units_increasing(0, a.magnitude());
    }
    lemma_units_increasing(0, b.magnitude());
    assert(n >= 0) by (nonlinear_arith)
        requires
            n == a.size() * unit,
            a.size() >= 0,
            unit > 0,
    ;
    lemma_rounded_exists(n, d);
    let m = rounded(n, d);
    lemma_signed(negative, m);
    if n >= HIDDEN_BIT * d {
        lemma_normal_between(n, d);
        lemma_rounding_error(n, d, m);
    } else {
        assert(n <= units(HIDDEN_BIT as int) * d) by (nonlinear_arith)
            requires
                n < HIDDEN_BIT * d,
                units(HIDDEN_BIT as int) == HIDDEN_BIT,
        ;
        assert(units(0) * d <= n) by (nonlinear_arith)
            requires
                units(0) == 0,
                n >= 0,
        ;
        lemma_rounded_between(n, d, 0, HIDDEN_BIT as int);
        lemma_rounding_error_below(n, d, m);
    }
    let err = units(m) * d - n;
    assert(modulus(err) * HIDDEN_BIT <= n + 0x8_0000_0000_0000 * d) by (nonlinear_arith)
        requires
            (n >= HIDDEN_BIT * d && err * HIDDEN_BIT <= n && -err * HIDDEN_BIT <= n) || (err * 2
                <= d && -err * 2 <= d),
            n >= 0,
            d > 0,
            HIDDEN_BIT == 0x10_0000_0000_0000,
            modulus(err) == if err < 0 {
                -err
            } else {
                err
            },
    ;
}

/// A finite number over one is that number.
pub proof fn lemma_over_one(a: Scalar)
    requires
        !a.nan(),
        !a.infinite(),
    ensures
        a.over(Scalar::one()) == a,
{
    let unit = pow2(1074) as int;
    lemma_thresholds_ordered();
    lemma_pow2_pos(1074);
    assert(units(0) == 0);
    assert(Scalar::one().size() == unit);
    let m = a.magnitude();
    lemma_representable(m);
    lemma_nearest_scales(units(m), 1, unit, m);
    assert(unit * units(m) == a.size() * unit) by (nonlinear_arith)
        requires
            units(m) == a.size(),
    ;
    lemma_rounded_is(a.size() * unit, unit, m);
    lemma_signed(a.negative(), m);
}

/// The root of a finite number above zero is normal and not negative, and
/// its square lies within one part in two to the fiftieth of the number.
pub proof fn lemma_root_error(a: Scalar)
    requires
        !a.nan(),
        !a.negative(),
        !a.vanishes(),
        !a.infinite(),
    ensures
        a.root().normal(),
        !a.root().negative(),
        within(
            a.root().size() * a.root().size(),
            a.size() * pow2(1074),
            0x4_0000_0000_0000,
        ),
{
    let x = a.size() * pow2(1074);
    let unit = pow2(1074) as int;
    lemma_normal_range();
    lemma_infinity_is_large();
    lemma_pow2_pos(1074);
    assert(units(0) == 0);
    lemma_units_increasing(0, a.magnitude());
    lemma_units_increasing(a.magnitude(), INFINITY_BITS as int);
    vstd::arithmetic::power2::lemma2_to64_rest();
    vstd::arithmetic::power2::lemma_pow2_adds(52, 52);
    vstd::arithmetic::power2::lemma_pow2_strictly_increases(104, 1074);
    vstd::arithmetic::power2::lemma_pow2_adds(2097, 2097);
    vstd::arithmetic::power2::lemma_pow2_adds(2098, 1074);
    vstd::arithmetic::power2::lemma_pow2_strictly_increases(3172, 4194);
    assert(HIDDEN_BIT * HIDDEN_BIT <= x <= pow2(2097) * pow2(2097)) by (nonlinear_arith)
        requires
            x == a.size() * unit,
            1 <= a.size() < pow2(2098),
            HIDDEN_BIT * HIDDEN_BIT == pow2(104),
            pow2(104) < unit,
            pow2(2098) * unit == pow2(3172),
            pow2(3172) < pow2(4194),
            pow2(2097) * pow2(2097) == pow2(4194),
            unit > 0,
    ;
    lemma_rounded_root_between(x, HIDDEN_BIT as int, top_power());
    let m = rounded_root(x);
    lemma_signed(false, m);
    lemma_step_of_normal(m);
    let big = units(m);
    let up = units(m + 1) - units(m);
    let down = units(m) - units(m - 1);
    let h = HIDDEN_BIT as int;
    assert((2 * big - down) * (2 * big - down) <= 4 * x && 4 * x <= (2 * big + up) * (2 * big
        + up));
    assert(within(big * big, x, 0x4_0000_0000_0000)) by (nonlinear_arith)
        requires
            (2 * big - down) * (2 * big - down) <= 4 * x,
            4 * x <= (2 * big + up) * (2 * big + up),
            0 < up,
            0 < down,
            up * h <= big,
            down * h <= big,
            h == 0x10_0000_0000_0000,
            big >= h,
    ;
}

/// Two numbers that differ by at most two to the minus 27 have a
/// difference within the tolerance of zero.
pub proof fn lemma_close_is_negligible(r: Scalar, c: Scalar)
    requires
        !r.nan(),
        !r.infinite(),
        !c.nan(),
        !c.infinite(),
        -pow2(1074) <= (r.value() - c.value()) * 0x800_0000 <= pow2(1074),
    ensures
        Vector::negligible(r.minus(c)),
{
    let tiny = 996 * HIDDEN_BIT;
    lemma_scales();
    lemma_negation_keeps_magnitude(c);
    lemma_negation_keeps_magnitude(Scalar::epsilon());
    lemma_units_packed(995, HIDDEN_BIT as int);
    vstd::arithmetic::power2::lemma2_to64_rest();
    lemma_pow2_adds(52, 995);
    assert(tiny == 995 * HIDDEN_BIT + HIDDEN_BIT);
    assert(units(tiny) == pow2(1047));
    assert(tiny < EPSILON_BITS);
    lemma_units_increasing(tiny, EPSILON_BITS as int);
    lemma_units_increasing(0, tiny);
    assert(units(0) == 0);
    let sum = r.value() + c.negated().value();
    assert(sum == r.value() - c.value());
    let gap = if sum < 0 {
        -sum
    } else {
        sum
    };
    assert(gap <= pow2(1047));
    if sum != 0 {
        lemma_rounded_exists(gap, 1);
        lemma_rounded_between(gap, 1, 0, tiny);
        let m = rounded(gap, 1);
        lemma_signed(sum < 0, m);
        if m < tiny {
            lemma_units_increasing(m, tiny);
        }
        if m > 0 {
            lemma_units_increasing(0, m);
        }
    } else {
        lemma_signed(r.negative() && c.negated().negative(), 0);
    }
}

} // verus!
