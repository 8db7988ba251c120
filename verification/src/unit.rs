//! Unit vectors: bringing a vector to unit length undoes a scaling.
use crate::algebra::lemma_signed;
use crate::bounds::{
    lemma_close_is_negligible, lemma_over_near, lemma_plus_near, lemma_root_error, lemma_shrinks,
    lemma_times_near, lemma_two_sided, lemma_within_chain, lemma_within_root,
    lemma_within_scaled, modulus, within,
};
use crate::nearest::{lemma_rounded_exists, lemma_units_packed, rounded};
use crate::scalar::{EPSILON_BITS, HIDDEN_BIT, Scalar, lemma_units_increasing, units};
use crate::vector::Vector;
use vstd::arithmetic::power2::{
    lemma_pow2_adds, lemma_pow2_pos, lemma_pow2_strictly_increases, pow2,
};
use vstd::prelude::*;

verus! {

impl Scalar {
    /// Whether the number is a scale that bringing to unit length undoes:
    /// above the tolerance by one part in two to the 29th of it or more, and
    /// at most two to the 509.
    pub open spec fn moderate(self) -> bool {
        &&& !self.nan()
        &&& !self.negative()
        &&& Scalar::epsilon().size() * 0x2000_0001 <= self.size() * 0x2000_0000
        &&& self.size() <= pow2(1583)
    }
}

/// A moderate number is finite and lies between two to the minus 27 and two
/// to the 509; its square, and thirty-two times it, do not overflow.
proof fn lemma_moderate(k: Scalar)
    requires
        k.moderate(),
    ensures
        !k.infinite(),
        k.value() == k.size(),
        k.size() >= 0x1_0000_0000_0000_0000,
        pow2(1074) <= k.size() * 0x800_0000,
        2 * k.size() <= pow2(2097),
        32 * (k.size() * k.size()) <= pow2(2097) * pow2(1074),
        0x8_0000_0000_0000 * pow2(1074) <= k.size() * k.size(),
{
    let unit = pow2(1074) as int;
    let kk = k.size();
    let low = pow2(1047) as int;
    let high = pow2(1583) as int;
    let e: int = 0x15_798E_E230_8C3A;
    lemma_units_packed(995, e);
    assert(EPSILON_BITS == 995 * HIDDEN_BIT + e);
    lemma_pow2_adds(52, 995);
    lemma_pow2_adds(1047, 27);
    lemma_pow2_adds(1583, 1583);
    lemma_pow2_adds(3166, 5);
    lemma_pow2_adds(2097, 1074);
    lemma_pow2_adds(1583, 1);
    lemma_pow2_adds(51, 1074);
    lemma_pow2_adds(1047, 1047);
    lemma_pow2_strictly_increases(64, 1047);
    lemma_pow2_strictly_increases(1584, 2097);
    lemma_pow2_strictly_increases(1125, 2094);
    lemma_pow2_strictly_increases(1583, 2098);
    lemma_pow2_pos(995);
    lemma_pow2_pos(1074);
    vstd::arithmetic::power2::lemma2_to64();
    vstd::arithmetic::power2::lemma2_to64_rest();
    crate::bounds::lemma_infinity_is_large();
    let step = pow2(995) as int;
    assert(Scalar::epsilon().size() == e * step);
    assert(low <= kk) by (nonlinear_arith)
        requires
            (e * step) * 0x2000_0001 <= kk * 0x2000_0000,
            low == 0x10_0000_0000_0000 * step,
            e == 0x15_798E_E230_8C3A,
            step > 0,
    ;
    assert(32 * (kk * kk) <= 32 * (high * high) && low * low <= kk * kk) by (nonlinear_arith)
        requires
            0 < low <= kk <= high,
    ;
    assert(32 * (high * high) == pow2(2097) * unit) by (nonlinear_arith)
        requires
            high * high == pow2(3166),
            pow2(3166) * 32 == pow2(3171),
            pow2(3171) == pow2(2097) * unit,
    ;
}

impl Vector {
    /// Whether the vector has unit length within one part in two to the
    /// thirty-second, by the exact sum of the squares of its components.
    pub open spec fn nearly_unit(self) -> bool {
        &&& !self.x.nan()
        &&& !self.x.infinite()
        &&& !self.y.nan()
        &&& !self.y.infinite()
        &&& within(
            self.x.value() * self.x.value() + self.y.value() * self.y.value(),
            (pow2(1074) * pow2(1074)) as int,
            0x1_0000_0000,
        )
    }
}

/// A component within 2, scaled by a moderate number: the product is within
/// three times that number, and follows the exact product.
proof fn lemma_scaled_component(c: Scalar, k: Scalar)
    requires
        c.reaches(2 * (pow2(1074) as int)),
        k.moderate(),
    ensures
        ({
            let v = c.times(k);
            let unit = pow2(1074) as int;
            let kk = k.size();
            let wide = 3 * (unit * kk);
            &&& !v.nan()
            &&& !v.infinite()
            &&& -(3 * kk) <= v.value() <= 3 * kk
            &&& -wide <= (v.value() * unit - c.value() * kk) * HIDDEN_BIT <= wide
        }),
{
    let unit = pow2(1074) as int;
    let t = pow2(1023) as int;
    let h = HIDDEN_BIT as int;
    let kk = k.size();
    let cv = c.value();
    let v = c.times(k);
    lemma_pow2_pos(1074);
    lemma_moderate(k);
    let ck = cv * kk;
    let uk = unit * kk;
    assert(-(2 * uk) <= ck <= 2 * uk && 2 * uk <= pow2(2097) * unit && 0x8_0000_0000_0000
        * unit <= uk) by (nonlinear_arith)
        requires
            -(2 * unit) <= cv <= 2 * unit,
            kk >= 0x1_0000_0000_0000_0000,
            2 * kk <= pow2(2097),
            ck == cv * kk,
            uk == unit * kk,
            unit > 0,
    ;
    assert(modulus(ck) <= 2 * uk);
    lemma_times_near(c, k);
    let e = v.value() * unit - ck;
    lemma_two_sided(e, h, 3 * uk);
    assert(3 * uk <= h * uk) by (nonlinear_arith)
        requires
            uk >= 0,
            h == 0x10_0000_0000_0000,
    ;
    lemma_shrinks(e, h, 3 * uk, uk);
    assert(-(3 * kk) <= v.value() <= 3 * kk) by (nonlinear_arith)
        requires
            e == v.value() * unit - ck,
            -uk <= e <= uk,
            -(2 * uk) <= ck <= 2 * uk,
            uk == unit * kk,
            unit > 0,
    ;
}

/// The square of a scaled component: not negative and, taken in units of the
/// cube of 1, within seventeen parts in two to the fifty-second of the
/// square of the scale from the square of the exact product.
proof fn lemma_squared_component(c: Scalar, k: Scalar)
    requires
        c.reaches(2 * (pow2(1074) as int)),
        k.moderate(),
    ensures
        ({
            let v = c.times(k);
            let s = v.times(v);
            let unit = pow2(1074) as int;
            let kk = k.size();
            let wide = 40 * ((unit * unit) * (kk * kk));
            &&& !s.nan()
            &&& !s.infinite()
            &&& 0 <= s.value()
            &&& s.value() * unit <= 10 * (kk * kk)
            &&& -wide <= (s.value() * (unit * unit * unit) - (c.value() * c.value()) * (kk * kk))
                * HIDDEN_BIT <= wide
        }),
{
    let unit = pow2(1074) as int;
    let t = pow2(1023) as int;
    let h = HIDDEN_BIT as int;
    let kk = k.size();
    let cv = c.value();
    let v = c.times(k);
    let s = v.times(v);
    let vv = v.value();
    lemma_pow2_pos(1074);
    lemma_scaled_component(c, k);
    assert(units(0) == 0);
    let uu = unit * unit;
    let k2 = kk * kk;
    let uk = unit * kk;
    let sq = vv * vv;
    lemma_moderate(k);
    assert(0 <= sq <= 9 * k2 && 9 * k2 <= pow2(2097) * unit && 0x8_0000_0000_0000 * unit <= k2
        && k2 >= 1) by (nonlinear_arith)
        requires
            -(3 * kk) <= vv <= 3 * kk,
            kk >= 0x1_0000_0000_0000_0000,
            32 * k2 <= pow2(2097) * unit,
            0x8_0000_0000_0000 * unit <= k2,
            sq == vv * vv,
            k2 == kk * kk,
            unit > 0,
    ;
    assert(modulus(sq) == sq);
    lemma_times_near(v, v);
    // A square is not negative.
    assert(0 <= s.value()) by {
        lemma_rounded_exists(v.size() * v.size(), unit);
        lemma_signed(false, rounded(v.size() * v.size(), unit));
        assert(v.size() * v.size() >= 0) by (nonlinear_arith);
        if s.magnitude() > 0 {
            lemma_units_increasing(0, s.magnitude());
        }
    }
    let sv = s.value();
    let e3 = sv * unit - sq;
    lemma_two_sided(e3, h, sq + 0x8_0000_0000_0000 * unit);
    assert(sv * unit <= 10 * k2) by (nonlinear_arith)
        requires
            e3 == sv * unit - sq,
            e3 * h <= sq + 0x8_0000_0000_0000 * unit,
            0 <= sq <= 9 * k2,
            0x8_0000_0000_0000 * unit <= k2,
            h == 0x10_0000_0000_0000,
    ;
    // The product against the exact product, squared.
    let ck = cv * kk;
    let e1 = vv * unit - ck;
    let e1h = e1 * h;
    assert(-(3 * uk) <= e1h <= 3 * uk);
    assert(-(2 * uk) <= ck <= 2 * uk) by (nonlinear_arith)
        requires
            -(2 * unit) <= cv <= 2 * unit,
            ck == cv * kk,
            uk == unit * kk,
            kk >= 0,
    ;
    assert(sq * uu == (ck + e1) * (ck + e1)) by (nonlinear_arith)
        requires
            sq == vv * vv,
            uu == unit * unit,
            e1 == vv * unit - ck,
    ;
    let middle = 2 * (ck * e1) + e1 * e1;
    assert(sq * uu == ck * ck + middle) by (nonlinear_arith)
        requires
            sq * uu == (ck + e1) * (ck + e1),
            middle == 2 * (ck * e1) + e1 * e1,
    ;
    assert(ck * ck == (cv * cv) * k2) by (nonlinear_arith)
        requires
            ck == cv * kk,
            k2 == kk * kk,
    ;
    lemma_shrinks(e1, h, 3 * uk, uk);
    let ukuk = uk * uk;
    assert(-(3 * ukuk) <= e1 * e1h <= 3 * ukuk) by (nonlinear_arith)
        requires
            -(3 * uk) <= e1h <= 3 * uk,
            -uk <= e1 <= uk,
            ukuk == uk * uk,
            uk >= 0,
    ;
    assert(-(6 * ukuk) <= ck * e1h <= 6 * ukuk) by (nonlinear_arith)
        requires
            -(2 * uk) <= ck <= 2 * uk,
            -(3 * uk) <= e1h <= 3 * uk,
            ukuk == uk * uk,
            uk >= 0,
    ;
    assert(middle * h == 2 * (ck * e1h) + e1 * e1h) by (nonlinear_arith)
        requires
            middle == 2 * (ck * e1) + e1 * e1,
            e1h == e1 * h,
    ;
    assert(-(15 * ukuk) <= middle * h <= 15 * ukuk);
    assert(ukuk == uu * k2) by (nonlinear_arith)
        requires
            ukuk == uk * uk,
            uk == unit * kk,
            uu == unit * unit,
            k2 == kk * kk,
    ;
    // The computed square against the squared product.
    let e3h = e3 * h;
    assert(-(10 * ukuk) <= e3h * uu <= 10 * ukuk) by (nonlinear_arith)
        requires
            -(sq + 0x8_0000_0000_0000 * unit) <= e3h <= sq + 0x8_0000_0000_0000 * unit,
            0 <= sq <= 9 * k2,
            0x8_0000_0000_0000 * unit <= k2,
            ukuk == uu * k2,
            uu >= 0,
    ;
    let cube = unit * unit * unit;
    assert(sv * cube == (sv * unit) * uu) by (nonlinear_arith)
        requires
            cube == unit * unit * unit,
            uu == unit * unit,
    ;
    assert((sv * unit) * uu == e3 * uu + sq * uu) by (nonlinear_arith)
        requires
            e3 == sv * unit - sq,
    ;
    assert((e3 * uu) * h == e3h * uu) by (nonlinear_arith)
        requires
            e3h == e3 * h,
    ;
    let total = sv * cube - (cv * cv) * k2;
    assert(total == e3 * uu + middle);
    assert(total * h == (e3 * uu) * h + middle * h) by (nonlinear_arith)
        requires
            total == e3 * uu + middle,
    ;
    assert(-(25 * ukuk) <= total * h <= 25 * ukuk);
}

/// The length of a nearly unit vector scaled by a moderate number is normal
/// and within one part in two to the thirtieth of that number.
proof fn lemma_scaled_length(u: Vector, k: Scalar)
    requires
        u.nearly_unit(),
        k.moderate(),
    ensures
        u.scale(k).magnitude().normal(),
        !u.scale(k).magnitude().negative(),
        within(u.scale(k).magnitude().size(), k.size(), 0x4000_0000),
{
    let unit = pow2(1074) as int;
    let t = pow2(1023) as int;
    let h = HIDDEN_BIT as int;
    let x = u.x.value();
    let y = u.y.value();
    let kk = k.size();
    let sx = u.x.times(k).times(u.x.times(k));
    let sy = u.y.times(k).times(u.y.times(k));
    let sum = sx.plus(sy);
    let m = sum.root();
    assert(m == u.scale(k).magnitude());
    lemma_pow2_pos(1074);
    let uu = unit * unit;
    let k2 = kk * kk;
    let cube = unit * unit * unit;
    let ukuk = uu * k2;
    // The components of the vector are within 2.
    assert(-(2 * unit) <= x <= 2 * unit && -(2 * unit) <= y <= 2 * unit) by (nonlinear_arith)
        requires
            within(x * x + y * y, unit * unit, 0x1_0000_0000),
            unit > 0,
    ;
    lemma_squared_component(u.x, k);
    lemma_squared_component(u.y, k);
    let a = sx.value();
    let b = sy.value();
    lemma_moderate(k);
    assert(kk >= 1 && k2 >= 1 && 20 * k2 <= pow2(2097) * unit && uu > 0 && cube == uu * unit
        && ukuk >= 1) by (nonlinear_arith)
        requires
            kk >= 0x1_0000_0000_0000_0000,
            32 * k2 <= pow2(2097) * unit,
            k2 == kk * kk,
            uu == unit * unit,
            cube == unit * unit * unit,
            ukuk == uu * k2,
            unit > 0,
    ;
    assert(a + b <= pow2(2097)) by (nonlinear_arith)
        requires
            a * unit <= 10 * k2,
            b * unit <= 10 * k2,
            20 * k2 <= pow2(2097) * unit,
            unit > 0,
    ;
    assert(modulus(a + b) == a + b);
    lemma_plus_near(sx, sy);
    let s = sum.value();
    let e5 = s - (a + b);
    lemma_two_sided(e5, h, a + b);
    let e5h = e5 * h;
    assert(-(20 * ukuk) <= e5h * cube <= 20 * ukuk) by (nonlinear_arith)
        requires
            -(a + b) <= e5h <= a + b,
            0 <= a,
            0 <= b,
            a * unit <= 10 * k2,
            b * unit <= 10 * k2,
            cube == uu * unit,
            ukuk == uu * k2,
            uu > 0,
            unit > 0,
    ;
    let exact = (x * x + y * y) * k2;
    let dx = a * cube - (x * x) * k2;
    let dy = b * cube - (y * y) * k2;
    let total = s * cube - exact;
    assert(total == e5 * cube + dx + dy) by (nonlinear_arith)
        requires
            total == s * cube - exact,
            exact == (x * x + y * y) * k2,
            dx == a * cube - (x * x) * k2,
            dy == b * cube - (y * y) * k2,
            e5 == s - (a + b),
    ;
    assert(total * h == e5h * cube + dx * h + dy * h) by (nonlinear_arith)
        requires
            total == e5 * cube + dx + dy,
            e5h == e5 * h,
    ;
    assert(-(100 * ukuk) <= total * h <= 100 * ukuk);
    // The exact sum is the square of the scale within the unit length.
    lemma_within_scaled(x * x + y * y, uu, 0x1_0000_0000, k2);
    assert(within(exact, ukuk, 0x1_0000_0000));
    assert(within(s * cube, ukuk, 0x8000_0000)) by (nonlinear_arith)
        requires
            total == s * cube - exact,
            -(100 * ukuk) <= total * h <= 100 * ukuk,
            (exact - ukuk) * 0x1_0000_0000 <= ukuk,
            (ukuk - exact) * 0x1_0000_0000 <= ukuk,
            h == 0x10_0000_0000_0000,
            ukuk >= 1,
    ;
    assert(s * cube == (s * unit) * uu && ukuk == k2 * uu) by (nonlinear_arith)
        requires
            cube == uu * unit,
            ukuk == uu * k2,
    ;
    lemma_within_scaled(s * unit, k2, 0x8000_0000, uu);
    // The root of the sum against the scale.
    assert(s > 0) by (nonlinear_arith)
        requires
            (k2 - s * unit) * 0x8000_0000 <= k2,
            k2 >= 1,
            unit > 0,
    ;
    assert(units(0) == 0);
    assert(!sum.vanishes() && !sum.nan() && !sum.infinite() && !sum.negative()) by {
        if sum.magnitude() > 0 {
            lemma_units_increasing(0, sum.magnitude());
        }
    }
    lemma_root_error(sum);
    assert(sum.size() == s);
    lemma_within_chain(
        m.size() * m.size(),
        s * unit,
        k2,
        0x4_0000_0000_0000,
        0x8000_0000,
        0x4000_0000,
    );
    lemma_units_increasing(0, m.magnitude());
    lemma_within_root(m.size(), kk, 0x4000_0000);
}

/// A component of a nearly unit vector, scaled by a moderate number and
/// divided by a length close to that number, comes back within two to the
/// minus 27 of itself.
proof fn lemma_restored_component(c: Scalar, k: Scalar, m: Scalar)
    requires
        c.reaches(2 * (pow2(1074) as int)),
        k.moderate(),
        m.normal(),
        !m.negative(),
        within(m.size(), k.size(), 0x4000_0000),
    ensures
        ({
            let r = c.times(k).over(m);
            &&& !r.nan()
            &&& !r.infinite()
            &&& -pow2(1074) <= (r.value() - c.value()) * 0x800_0000 <= pow2(1074)
        }),
{
    let v = c.times(k);
    let r = v.over(m);
    let unit = pow2(1074) as int;
    let t = pow2(1023) as int;
    let h = HIDDEN_BIT as int;
    let cv = c.value();
    let kk = k.size();
    let mm = m.size();
    let vv = v.value();
    lemma_pow2_pos(1074);
    lemma_scaled_component(c, k);
    assert(units(0) == 0);
    lemma_units_increasing(0, m.magnitude());
    if v.magnitude() > 0 {
        lemma_units_increasing(0, v.magnitude());
    }
    let vs = v.size();
    assert(0 <= vs <= 3 * kk && (vv == vs || vv == -vs));
    assert(2 * mm >= kk && mm <= 2 * kk) by (nonlinear_arith)
        requires
            within(mm, kk, 0x4000_0000),
            kk >= 0,
    ;
    lemma_moderate(k);
    lemma_pow2_adds(1074, 1023);
    lemma_pow2_strictly_increases(4, 1023);
    vstd::arithmetic::power2::lemma2_to64();
    assert(vs * unit <= pow2(2097) * mm) by (nonlinear_arith)
        requires
            0 <= vs <= 3 * kk,
            2 * mm >= kk,
            pow2(2097) == unit * pow2(1023),
            pow2(1023) > 8,
            unit > 0,
    ;
    lemma_over_near(v, m);
    let rs = r.size();
    if r.magnitude() > 0 {
        lemma_units_increasing(0, r.magnitude());
    }
    let rv = r.value();
    // The quotient has the sign of the product, the length being positive.
    assert((rv == rs && vv == vs) || (rv == -rs && vv == -vs));
    let e = rs * mm - vs * unit;
    lemma_two_sided(e, h, vs * unit + 0x8_0000_0000_0000 * mm);
    let es = rv * mm - vv * unit;
    assert(es == e || es == -e) by (nonlinear_arith)
        requires
            e == rs * mm - vs * unit,
            es == rv * mm - vv * unit,
            (rv == rs && vv == vs) || (rv == -rs && vv == -vs),
    ;
    let uk = unit * kk;
    assert(-(3 * uk + 0x8_0000_0000_0000 * mm) <= es * h <= 3 * uk + 0x8_0000_0000_0000 * mm)
        by (nonlinear_arith)
        requires
            es == e || es == -e,
            -(vs * unit + 0x8_0000_0000_0000 * mm) <= e * h <= vs * unit + 0x8_0000_0000_0000
                * mm,
            0 <= vs <= 3 * kk,
            uk == unit * kk,
            unit > 0,
    ;
    let e1 = vv * unit - cv * kk;
    let gap = rv - cv;
    assert(gap * mm == es + e1 + cv * (kk - mm)) by (nonlinear_arith)
        requires
            gap == rv - cv,
            es == rv * mm - vv * unit,
            e1 == vv * unit - cv * kk,
    ;
    assert(-(2 * uk) <= (cv * (kk - mm)) * 0x4000_0000 <= 2 * uk) by (nonlinear_arith)
        requires
            -(2 * unit) <= cv <= 2 * unit,
            within(mm, kk, 0x4000_0000),
            uk == unit * kk,
            kk >= 0,
            unit > 0,
    ;
    let lean = cv * (kk - mm);
    let l30 = lean * 0x4000_0000;
    assert(lean * h == l30 * 0x40_0000) by (nonlinear_arith)
        requires
            l30 == lean * 0x4000_0000,
            h == 0x10_0000_0000_0000,
    ;
    let gh = gap * h;
    assert(gh * mm == es * h + e1 * h + lean * h) by (nonlinear_arith)
        requires
            gh == gap * h,
            gap * mm == es + e1 + lean,
    ;
    let lead = (12 + 0x100_0000) * unit + 0x8_0000_0000_0000;
    assert(uk <= 2 * (unit * mm)) by (nonlinear_arith)
        requires
            uk == unit * kk,
            2 * mm >= kk,
            unit > 0,
    ;
    assert(-(lead * mm) <= gh * mm <= lead * mm) by (nonlinear_arith)
        requires
            gh * mm == es * h + e1 * h + lean * h,
            lean * h == l30 * 0x40_0000,
            -(3 * uk + 0x8_0000_0000_0000 * mm) <= es * h <= 3 * uk + 0x8_0000_0000_0000 * mm,
            -(3 * uk) <= e1 * h <= 3 * uk,
            -(2 * uk) <= l30 <= 2 * uk,
            0 <= uk <= 2 * (unit * mm),
            lead == (12 + 0x100_0000) * unit + 0x8_0000_0000_0000,
            mm > 0,
    ;
    assert(-lead <= gh <= lead) by (nonlinear_arith)
        requires
            -(lead * mm) <= gh * mm <= lead * mm,
            mm > 0,
    ;
    lemma_pow2_strictly_increases(64, 1074);
    vstd::arithmetic::power2::lemma2_to64();
    assert(-unit <= gap * 0x800_0000 <= unit) by (nonlinear_arith)
        requires
            gh == gap * h,
            -lead <= gh <= lead,
            lead == (12 + 0x100_0000) * unit + 0x8_0000_0000_0000,
            h == 0x10_0000_0000_0000,
            unit >= 0x1_0000_0000_0000_0000,
    ;
}

/// Bringing a unit vector that was scaled back to unit length gives the
/// vector back, within the tolerance, in both components. This is shown for
/// vectors of unit length within one part in two to the thirty-second, and
/// for scales from just above the tolerance to two to the 509: under the
/// tolerance a length counts as zero and is not divided by, and from two to
/// the 512 on the squares overflow.
pub proof fn lemma_normalize_undoes_scale(u: Vector, k: Scalar)
    requires
        u.nearly_unit(),
        k.moderate(),
    ensures
        u.scale(k).normalize().equivalent(u),
{
    let unit = pow2(1074) as int;
    let v = u.scale(k);
    let m = v.magnitude();
    lemma_pow2_pos(1074);
    assert(-(2 * unit) <= u.x.value() <= 2 * unit && -(2 * unit) <= u.y.value() <= 2 * unit)
        by (nonlinear_arith)
        requires
            within(
                u.x.value() * u.x.value() + u.y.value() * u.y.value(),
                unit * unit,
                0x1_0000_0000,
            ),
            unit > 0,
    ;
    lemma_scaled_length(u, k);
    // The length is not under the tolerance, and so divides.
    let e: int = 0x15_798E_E230_8C3A;
    lemma_units_packed(995, e);
    assert(EPSILON_BITS == 995 * HIDDEN_BIT + e);
    lemma_pow2_adds(53, 995);
    vstd::arithmetic::power2::lemma2_to64_rest();
    lemma_pow2_pos(995);
    let step = pow2(995) as int;
    assert(Scalar::epsilon().size() == e * step);
    assert(m.size() >= e * step) by (nonlinear_arith)
        requires
            within(m.size(), k.size(), 0x4000_0000),
            (e * step) * 0x2000_0001 <= k.size() * 0x2000_0000,
            e == 0x15_798E_E230_8C3A,
            step > 0,
    ;
    assert(!m.below(Scalar::epsilon()));
    assert(Vector::safe_length(m) == m);
    lemma_restored_component(u.x, k, m);
    lemma_restored_component(u.y, k, m);
    lemma_close_is_negligible(u.x.times(k).over(m), u.x);
    lemma_close_is_negligible(u.y.times(k).over(m), u.y);
}

} // verus!
