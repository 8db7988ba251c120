//! Rounding an exact number to the nearest double.
//!
//! The doubles of one sign, infinity included, are the magnitudes from 0 to
//! `INFINITY_BITS`, and their values rise with the magnitude. To round is to
//! pick the magnitude whose value is nearest, and of two equally near the even
//! one. With infinity counted as the double after the largest finite one, this
//! is round-to-nearest-even with its overflow to infinity.
use crate::scalar::{HIDDEN_BIT, INFINITY_BITS, lemma_units_increasing, units};
use vstd::arithmetic::power2::{lemma_pow2_unfold, pow2};
use vstd::prelude::*;

verus! {

/// Whether the magnitude `m` is the one that the fraction `n / d` rounds to:
/// the fraction lies between the midpoints to the two neighbours of `m`, and
/// on a midpoint only where `m` is even.
pub open spec fn nearest(n: int, d: int, m: int) -> bool {
    &&& 0 <= m <= INFINITY_BITS
    &&& m > 0 ==> {
        let twice_mid = units(m - 1) + units(m);
        twice_mid * d < 2 * n || (twice_mid * d == 2 * n && m % 2 == 0)
    }
    &&& m < INFINITY_BITS ==> {
        let twice_mid = units(m) + units(m + 1);
        2 * n < twice_mid * d || (2 * n == twice_mid * d && m % 2 == 0)
    }
}

/// The magnitude that the fraction `n / d` rounds to.
pub open spec fn rounded(n: int, d: int) -> int {
    choose|m: int| nearest(n, d, m)
}

/// No fraction rounds to two magnitudes.
pub proof fn lemma_nearest_unique(n: int, d: int, m1: int, m2: int)
    requires
        d > 0,
        nearest(n, d, m1),
        nearest(n, d, m2),
    ensures
        m1 == m2,
{
    lemma_nearest_not_after(n, d, m1, m2);
    lemma_nearest_not_after(n, d, m2, m1);
}

/// Of two magnitudes that a fraction rounds to, the second is not the larger.
proof fn lemma_nearest_not_after(n: int, d: int, m1: int, m2: int)
    requires
        d > 0,
        nearest(n, d, m1),
        nearest(n, d, m2),
    ensures
        m1 >= m2,
{
    if m1 < m2 {
        let a = units(m1) + units(m1 + 1);
        let b = units(m2 - 1) + units(m2);
        if m1 + 1 < m2 {
            lemma_units_increasing(m1, m2 - 1);
            lemma_units_increasing(m1 + 1, m2);
            assert(a < b);
            assert(a * d < b * d) by (nonlinear_arith)
                requires
                    a < b,
                    d > 0,
            ;
        } else {
            assert(a == b);
        }
    }
}

/// The largest magnitude up to `t` whose value does not exceed the fraction
/// `n / d`.
pub open spec fn floor_magnitude(n: int, d: int, t: int) -> int
    decreases t,
{
    if t <= 0 {
        0
    } else if units(t) * d <= n {
        t
    } else {
        floor_magnitude(n, d, t - 1)
    }
}

/// The largest magnitude up to `t` whose value does not exceed the fraction
/// is such a magnitude, and the next one up, if it is not beyond `t`, exceeds
/// the fraction.
proof fn lemma_floor_magnitude(n: int, d: int, t: int)
    requires
        n >= 0,
        d > 0,
        t >= 0,
    ensures
        0 <= floor_magnitude(n, d, t) <= t,
        units(floor_magnitude(n, d, t)) * d <= n,
        floor_magnitude(n, d, t) < t ==> n < units(floor_magnitude(n, d, t) + 1) * d,
    decreases t,
{
    assert(units(0) == 0);
    assert(units(0) * d == 0) by (nonlinear_arith)
        requires
            units(0) == 0,
    ;
    if t > 0 && !(units(t) * d <= n) {
        lemma_floor_magnitude(n, d, t - 1);
    }
}

/// Every fraction that is not negative rounds to some magnitude.
pub proof fn lemma_rounded_exists(n: int, d: int)
    requires
        n >= 0,
        d > 0,
    ensures
        nearest(n, d, rounded(n, d)),
        0 <= rounded(n, d) <= INFINITY_BITS,
{
    let inf = INFINITY_BITS as int;
    let f = floor_magnitude(n, d, inf);
    lemma_floor_magnitude(n, d, inf);
    if f > 0 {
        lemma_units_increasing(f - 1, f);
        assert((units(f - 1) + units(f)) * d < 2 * n) by (nonlinear_arith)
            requires
                units(f - 1) < units(f),
                units(f) * d <= n,
                d > 0,
        ;
    }
    if f == inf {
        assert(nearest(n, d, f));
    } else {
        lemma_units_increasing(f, f + 1);
        lemma_units_increasing(f + 1, f + 2);
        let mid = units(f) + units(f + 1);
        assert(2 * n < (units(f + 1) + units(f + 2)) * d) by (nonlinear_arith)
            requires
                units(f + 1) < units(f + 2),
                n < units(f + 1) * d,
                d > 0,
        ;
        if 2 * n < mid * d || (2 * n == mid * d && f % 2 == 0) {
            assert(nearest(n, d, f));
        } else {
            assert(nearest(n, d, f + 1));
        }
    }
}

/// A magnitude that the fraction rounds to is the rounded magnitude.
pub proof fn lemma_rounded_is(n: int, d: int, m: int)
    requires
        d > 0,
        nearest(n, d, m),
    ensures
        rounded(n, d) == m,
{
    lemma_nearest_unique(n, d, m, rounded(n, d));
}

/// Scaling by a positive factor keeps the order of two numbers.
pub proof fn lemma_scaled_order(a: int, b: int, c: int)
    requires
        c > 0,
    ensures
        (c * a < c * b) == (a < b),
        (c * a == c * b) == (a == b),
        (c * a <= c * b) == (a <= b),
{
    assert((c * a < c * b) == (a < b)) by (nonlinear_arith)
        requires
            c > 0,
    ;
    assert((c * a == c * b) == (a == b)) by (nonlinear_arith)
        requires
            c > 0,
    ;
}

/// Rounding sees the fraction, not the pair that writes it.
pub proof fn lemma_nearest_scales(n: int, d: int, c: int, m: int)
    requires
        d > 0,
        c > 0,
    ensures
        nearest(c * n, c * d, m) == nearest(n, d, m),
{
    if 0 <= m <= INFINITY_BITS {
        if m > 0 {
            let t = units(m - 1) + units(m);
            lemma_scaled_order(t * d, 2 * n, c);
            assert(t * (c * d) == c * (t * d)) by (nonlinear_arith);
            assert(2 * (c * n) == c * (2 * n)) by (nonlinear_arith);
        }
        if m < INFINITY_BITS {
            let t = units(m) + units(m + 1);
            lemma_scaled_order(t * d, 2 * n, c);
            assert(t * (c * d) == c * (t * d)) by (nonlinear_arith);
            assert(2 * (c * n) == c * (2 * n)) by (nonlinear_arith);
        }
    }
}

/// Two fractions of one value round alike.
pub proof fn lemma_nearest_same_fraction(n1: int, d1: int, n2: int, d2: int, m: int)
    requires
        d1 > 0,
        d2 > 0,
        n1 * d2 == n2 * d1,
    ensures
        nearest(n1, d1, m) == nearest(n2, d2, m),
{
    lemma_nearest_scales(n1, d1, d2, m);
    lemma_nearest_scales(n2, d2, d1, m);
    assert(d2 * n1 == d1 * n2) by (nonlinear_arith)
        requires
            n1 * d2 == n2 * d1,
    ;
    assert(d2 * d1 == d1 * d2) by (nonlinear_arith);
}

/// The value of a magnitude written as significand and step: with step `2^j`
/// the significand `s` stands at magnitude `j * 2^52 + s`, for a normal
/// significand (from `2^52` to `2^53`, the carry included) and, at step 1, for
/// a subnormal one.
pub proof fn lemma_units_packed(j: int, s: int)
    requires
        j >= 0,
        0 <= s <= 2 * HIDDEN_BIT,
        j == 0 || s >= HIDDEN_BIT,
    ensures
        units(j * HIDDEN_BIT + s) == s * pow2(j as nat),
{
    let h = HIDDEN_BIT as int;
    let m = j * h + s;
    vstd::arithmetic::power2::lemma2_to64();
    if s < h {
        assert(m / h == 0);
        assert(m % h == s);
        assert(s * pow2(0) == s);
    } else if s < 2 * h {
        assert(m == (j + 1) * h + (s - h));
        vstd::arithmetic::div_mod::lemma_fundamental_div_mod_converse(m, h, j + 1, s - h);
        assert(m / h == j + 1);
        assert(m % h == s - h);
    } else {
        assert(m == (j + 2) * h + 0) by (nonlinear_arith)
            requires
                m == j * h + s,
                s == 2 * h,
        ;
        vstd::arithmetic::div_mod::lemma_fundamental_div_mod_converse(m, h, j + 2, 0);
        lemma_pow2_unfold((j + 1) as nat);
        assert(h * (2 * pow2(j as nat)) == (2 * h) * pow2(j as nat)) by (nonlinear_arith);
    }
}

/// Up to two to the fifty-third, a magnitude is worth itself.
pub proof fn lemma_units_small(m: int)
    requires
        0 <= m <= 2 * HIDDEN_BIT,
    ensures
        units(m) == m,
{
    vstd::arithmetic::power2::lemma2_to64();
    lemma_units_packed(0, m);
    assert(m * pow2(0) == m) by (nonlinear_arith)
        requires
            pow2(0) == 1,
    ;
}

/// The value of a double rounds to that double.
pub proof fn lemma_representable(m: int)
    requires
        0 <= m <= INFINITY_BITS,
    ensures
        nearest(units(m), 1, m),
        rounded(units(m), 1) == m,
{
    if m > 0 {
        lemma_units_increasing(m - 1, m);
    }
    lemma_units_increasing(m, m + 1);
    lemma_rounded_is(units(m), 1, m);
}

/// Zero rounds to zero.
pub proof fn lemma_zero_rounds_to_zero(d: int)
    requires
        d > 0,
    ensures
        rounded(0, d) == 0,
{
    assert(units(0) == 0);
    assert(units(1) == 1);
    assert((units(0) + units(1)) * d == d) by (nonlinear_arith)
        requires
            units(0) + units(1) == 1,
    ;
    assert(nearest(0, d, 0));
    lemma_rounded_is(0, d, 0);
}

/// Rounding keeps the order: of two fractions, the one that is not the
/// smaller does not round to the smaller magnitude.
pub proof fn lemma_rounded_rises(n1: int, d1: int, n2: int, d2: int)
    requires
        n1 >= 0,
        n2 >= 0,
        d1 > 0,
        d2 > 0,
        n1 * d2 <= n2 * d1,
    ensures
        rounded(n1, d1) <= rounded(n2, d2),
{
    lemma_rounded_exists(n1, d1);
    lemma_rounded_exists(n2, d2);
    let m1 = rounded(n1, d1);
    let m2 = rounded(n2, d2);
    if m1 > m2 {
        // The midpoint above `m2` is at least the second fraction, the
        // midpoint below `m1` at most the first: the two fractions and the
        // two midpoints then are one, which parity forbids.
        let a = units(m2) + units(m2 + 1);
        let b = units(m1 - 1) + units(m1);
        if m2 + 1 < m1 {
            lemma_units_increasing(m2, m1 - 1);
            lemma_units_increasing(m2 + 1, m1);
        }
        assert(a <= b);
        assert(2 * n2 <= a * d2);
        assert(b * d1 <= 2 * n1);
        assert(b * d1 * d2 <= 2 * n1 * d2 && 2 * n2 * d1 <= a * d2 * d1 && a * d2 * d1 <= b * d1
            * d2 && 2 * n1 * d2 <= 2 * n2 * d1) by (nonlinear_arith)
            requires
                b * d1 <= 2 * n1,
                2 * n2 <= a * d2,
                a <= b,
                n1 * d2 <= n2 * d1,
                d1 > 0,
                d2 > 0,
        ;
        assert(b * d1 * d2 == 2 * n1 * d2);
        assert(a * d2 * d1 == 2 * n2 * d1);
        assert(a * d2 == 2 * n2) by (nonlinear_arith)
            requires
                a * d2 * d1 == 2 * n2 * d1,
                d1 > 0,
        ;
        assert(b * d1 == 2 * n1) by (nonlinear_arith)
            requires
                b * d1 * d2 == 2 * n1 * d2,
                d2 > 0,
        ;
        assert(a == b) by (nonlinear_arith)
            requires
                a * d2 * d1 == b * d1 * d2,
                d1 > 0,
                d2 > 0,
        ;
        assert(m2 % 2 == 0 && m1 % 2 == 0);
        assert(m1 == m2 + 1) by {
            if m2 + 1 < m1 {
                lemma_units_increasing(m2, m1 - 1);
                lemma_units_increasing(m2 + 1, m1);
            }
        }
    }
}

/// A fraction between the values of two doubles rounds to a magnitude between
/// theirs.
pub proof fn lemma_rounded_between(n: int, d: int, low: int, high: int)
    requires
        d > 0,
        0 <= low <= high <= INFINITY_BITS,
        units(low) * d <= n <= units(high) * d,
    ensures
        low <= rounded(n, d) <= high,
{
    assert(units(0) == 0);
    if low > 0 {
        lemma_units_increasing(0, low);
    }
    assert(n >= 0) by (nonlinear_arith)
        requires
            units(low) * d <= n,
            units(low) >= 0,
            d > 0,
    ;
    lemma_representable(low);
    lemma_representable(high);
    assert(units(low) * d <= n * 1);
    assert(n * 1 <= units(high) * d);
    lemma_rounded_rises(units(low), 1, n, d);
    lemma_rounded_rises(n, d, units(high), 1);
}

/// Whether the magnitude `m` is the one that the square root of `x` rounds
/// to: the square root lies between the midpoints to the two neighbours of
/// `m`, and on a midpoint only where `m` is even. The midpoints are compared
/// by their squares.
pub open spec fn nearest_root(x: int, m: int) -> bool {
    &&& 0 <= m <= INFINITY_BITS
    &&& m > 0 ==> {
        let twice_mid = units(m - 1) + units(m);
        twice_mid * twice_mid < 4 * x || (twice_mid * twice_mid == 4 * x && m % 2 == 0)
    }
    &&& m < INFINITY_BITS ==> {
        let twice_mid = units(m) + units(m + 1);
        4 * x < twice_mid * twice_mid || (4 * x == twice_mid * twice_mid && m % 2 == 0)
    }
}

/// The magnitude that the square root of `x` rounds to.
pub open spec fn rounded_root(x: int) -> int {
    choose|m: int| nearest_root(x, m)
}

/// Of two magnitudes that a square root rounds to, the second is not the
/// larger.
proof fn lemma_nearest_root_not_after(x: int, m1: int, m2: int)
    requires
        nearest_root(x, m1),
        nearest_root(x, m2),
    ensures
        m1 >= m2,
{
    if m1 < m2 {
        let a = units(m1) + units(m1 + 1);
        let b = units(m2 - 1) + units(m2);
        lemma_units_increasing(m1, m1 + 1);
        assert(units(0) == 0);
        if m1 > 0 {
            lemma_units_increasing(0, m1);
        }
        assert(a > 0);
        if m1 + 1 < m2 {
            lemma_units_increasing(m1, m2 - 1);
            lemma_units_increasing(m1 + 1, m2);
            assert(a * a < b * b) by (nonlinear_arith)
                requires
                    0 < a < b,
            ;
        } else {
            assert(a == b);
        }
    }
}

/// No square root rounds to two magnitudes.
pub proof fn lemma_rounded_root_is(x: int, m: int)
    requires
        nearest_root(x, m),
    ensures
        rounded_root(x) == m,
{
    lemma_nearest_root_not_after(x, m, rounded_root(x));
    lemma_nearest_root_not_after(x, rounded_root(x), m);
}

/// The largest magnitude up to `t` whose value squared does not exceed `x`.
pub open spec fn floor_root_magnitude(x: int, t: int) -> int
    decreases t,
{
    if t <= 0 {
        0
    } else if units(t) * units(t) <= x {
        t
    } else {
        floor_root_magnitude(x, t - 1)
    }
}

proof fn lemma_floor_root_magnitude(x: int, t: int)
    requires
        x >= 0,
        t >= 0,
    ensures
        0 <= floor_root_magnitude(x, t) <= t,
        units(floor_root_magnitude(x, t)) * units(floor_root_magnitude(x, t)) <= x,
        floor_root_magnitude(x, t) < t ==> x < units(floor_root_magnitude(x, t) + 1) * units(
            floor_root_magnitude(x, t) + 1,
        ),
    decreases t,
{
    assert(units(0) == 0);
    assert(units(0) * units(0) == 0) by (nonlinear_arith)
        requires
            units(0) == 0,
    ;
    if t > 0 && !(units(t) * units(t) <= x) {
        lemma_floor_root_magnitude(x, t - 1);
    }
}

/// The square root of every number that is not negative rounds to some
/// magnitude.
pub proof fn lemma_rounded_root_exists(x: int)
    requires
        x >= 0,
    ensures
        nearest_root(x, rounded_root(x)),
        0 <= rounded_root(x) <= INFINITY_BITS,
{
    let inf = INFINITY_BITS as int;
    let f = floor_root_magnitude(x, inf);
    lemma_floor_root_magnitude(x, inf);
    assert(units(0) == 0);
    if f > 0 {
        lemma_units_increasing(0, f);
        lemma_units_increasing(f - 1, f);
        if f - 1 > 0 {
            lemma_units_increasing(0, f - 1);
        }
        let a = units(f - 1);
        let b = units(f);
        assert((a + b) * (a + b) < 4 * x) by (nonlinear_arith)
            requires
                0 <= a < b,
                b * b <= x,
        ;
    }
    let witness = if f == inf {
        f
    } else {
        lemma_units_increasing(f, f + 1);
        lemma_units_increasing(f + 1, f + 2);
        if f > 0 {
            lemma_units_increasing(0, f);
        }
        let b = units(f);
        let c = units(f + 1);
        let e = units(f + 2);
        assert(4 * x < (c + e) * (c + e)) by (nonlinear_arith)
            requires
                0 <= b < c < e,
                x < c * c,
        ;
        let mid = b + c;
        if 4 * x < mid * mid || (4 * x == mid * mid && f % 2 == 0) {
            f
        } else {
            f + 1
        }
    };
    assert(nearest_root(x, witness));
    lemma_rounded_root_is(x, witness);
}

/// A number between the squares of the values of two doubles has a square
/// root that rounds to a magnitude between theirs.
pub proof fn lemma_rounded_root_between(x: int, low: int, high: int)
    requires
        0 <= low <= high <= INFINITY_BITS,
        units(low) * units(low) <= x <= units(high) * units(high),
    ensures
        low <= rounded_root(x) <= high,
        nearest_root(x, rounded_root(x)),
{
    assert(units(0) == 0);
    if low > 0 {
        lemma_units_increasing(0, low);
    }
    assert(x >= 0) by (nonlinear_arith)
        requires
            units(low) * units(low) <= x,
    ;
    lemma_rounded_root_exists(x);
    let m = rounded_root(x);
    if m < low {
        let a = units(m);
        let b = units(m + 1);
        let c = units(low);
        lemma_units_increasing(m, m + 1);
        if m > 0 {
            lemma_units_increasing(0, m);
        }
        if m + 1 < low {
            lemma_units_increasing(m + 1, low);
        }
        assert((a + b) * (a + b) < 4 * x) by (nonlinear_arith)
            requires
                0 <= a < b <= c,
                c * c <= x,
        ;
    }
    if m > high {
        let a = units(m - 1);
        let b = units(m);
        let c = units(high);
        lemma_units_increasing(m - 1, m);
        if high > 0 {
            lemma_units_increasing(0, high);
        }
        if high < m - 1 {
            lemma_units_increasing(high, m - 1);
        }
        assert(4 * x < (a + b) * (a + b)) by (nonlinear_arith)
            requires
                0 <= c <= a < b,
                x <= c * c,
        ;
    }
}

/// Whether the magnitude `m` is the one that the cube root of `x` rounds to,
/// the midpoints being compared by their cubes.
pub open spec fn nearest_cube_root(x: int, m: int) -> bool {
    &&& 0 <= m <= INFINITY_BITS
    &&& m > 0 ==> {
        let twice_mid = units(m - 1) + units(m);
        twice_mid * twice_mid * twice_mid < 8 * x || (twice_mid * twice_mid * twice_mid == 8 * x
            && m % 2 == 0)
    }
    &&& m < INFINITY_BITS ==> {
        let twice_mid = units(m) + units(m + 1);
        8 * x < twice_mid * twice_mid * twice_mid || (8 * x == twice_mid * twice_mid * twice_mid
            && m % 2 == 0)
    }
}

/// The magnitude that the cube root of `x` rounds to.
pub open spec fn rounded_cube_root(x: int) -> int {
    choose|m: int| nearest_cube_root(x, m)
}

/// Of numbers that are not negative, the larger has the larger cube.
pub proof fn lemma_cubes_rise(a: int, b: int)
    requires
        0 <= a < b,
    ensures
        a * a * a < b * b * b,
{
    assert(a * a < b * b) by (nonlinear_arith)
        requires
            0 <= a < b,
    ;
    assert(a * a * a <= a * a * b) by (nonlinear_arith)
        requires
            0 <= a < b,
    ;
    assert(a * a * b < b * b * b) by (nonlinear_arith)
        requires
            a * a < b * b,
            0 < b,
    ;
}

/// Of two magnitudes that a cube root rounds to, the second is not the
/// larger.
proof fn lemma_nearest_cube_root_not_after(x: int, m1: int, m2: int)
    requires
        nearest_cube_root(x, m1),
        nearest_cube_root(x, m2),
    ensures
        m1 >= m2,
{
    if m1 < m2 {
        let a = units(m1) + units(m1 + 1);
        let b = units(m2 - 1) + units(m2);
        lemma_units_increasing(m1, m1 + 1);
        assert(units(0) == 0);
        if m1 > 0 {
            lemma_units_increasing(0, m1);
        }
        assert(a > 0);
        if m1 + 1 < m2 {
            lemma_units_increasing(m1, m2 - 1);
            lemma_units_increasing(m1 + 1, m2);
            lemma_cubes_rise(a, b);
        } else {
            assert(a == b);
        }
    }
}

/// No cube root rounds to two magnitudes.
pub proof fn lemma_rounded_cube_root_is(x: int, m: int)
    requires
        nearest_cube_root(x, m),
    ensures
        rounded_cube_root(x) == m,
{
    lemma_nearest_cube_root_not_after(x, m, rounded_cube_root(x));
    lemma_nearest_cube_root_not_after(x, rounded_cube_root(x), m);
}

} // verus!
