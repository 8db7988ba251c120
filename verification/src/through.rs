//! The line through two points of the sheet: its normal has unit length, and
//! both points lie on it within the tolerance.
use crate::algebra::lemma_signed;
use crate::axioms::{bisector_of, line_through};
use crate::bounds::{
    lemma_close_is_negligible, lemma_infinity_is_large, lemma_over_near, lemma_over_one,
    lemma_plus_near, lemma_root_error, lemma_scales, lemma_shrinks, lemma_times_near,
    lemma_two_sided, lemma_within_chain, modulus, scales, within,
};
use crate::mirror::lemma_along;
use crate::nearest::{lemma_rounded_between, lemma_rounded_exists, lemma_units_packed, rounded};
use crate::rect::{Rect, lemma_contains_is_unit_square};
use crate::scalar::{
    EPSILON_BITS, HIDDEN_BIT, ONE_BITS, Scalar, lemma_negation_keeps_magnitude,
    lemma_thresholds_ordered, lemma_units_increasing, units,
};
use crate::vector::{Vector, lemma_turn_keeps_length};
use vstd::arithmetic::power2::{
    lemma_pow2_adds, lemma_pow2_pos, lemma_pow2_strictly_increases, pow2,
};
use vstd::prelude::*;

verus! {

/// The length of a vector with components within 1: it is finite and not
/// negative, at most one and a half, and, unless it is under the tolerance,
/// at least two thirds of either component, with a square within one part in
/// two to the forty-seventh of the sum of the squares of the components.
proof fn lemma_length_bounds(r: Vector)
    requires
        r.x.reaches(pow2(1074) as int),
        r.y.reaches(pow2(1074) as int),
    ensures
        ({
            let m = r.magnitude();
            let unit = pow2(1074) as int;
            &&& !m.nan()
            &&& !m.infinite()
            &&& !m.negative() || m.vanishes()
            &&& 2 * m.size() <= 3 * unit
            &&& !m.below(Scalar::epsilon()) ==> {
                &&& !m.vanishes()
                &&& -(3 * m.size()) <= 2 * r.x.value() <= 3 * m.size()
                &&& -(3 * m.size()) <= 2 * r.y.value() <= 3 * m.size()
                &&& unit * 0x1_0000_0000_0000_0000 <= m.size() * m.size()
                &&& within(
                    m.size() * m.size(),
                    r.x.value() * r.x.value() + r.y.value() * r.y.value(),
                    0x8000_0000_0000,
                )
            }
        }),
{
    let unit = pow2(1074) as int;
    let g = pow2(200) as int;
    let top = pow2(1023) as int;
    let h = HIDDEN_BIT as int;
    let uu = unit * unit;
    lemma_scales();
    lemma_pow2_pos(1074);
    assert(units(0) == 0);
    let rx = r.x.value();
    let ry = r.y.value();
    let a = r.x.times(r.x);
    let b = r.y.times(r.y);
    let s = a.plus(b);
    let m = s.root();
    assert(m == r.magnitude());
    let xx = rx * rx;
    let yy = ry * ry;
    assert(0 <= xx <= uu && 0 <= yy <= uu && uu <= pow2(2097) * unit && 0x8_0000_0000_0000 * unit
        <= uu && 4 * unit <= pow2(2097)) by (nonlinear_arith)
        requires
            -unit <= rx <= unit,
            -unit <= ry <= unit,
            xx == rx * rx,
            yy == ry * ry,
            uu == unit * unit,
            scales(unit, g, top),
            unit > 0,
    ;
    assert(modulus(xx) == xx && modulus(yy) == yy);
    lemma_times_near(r.x, r.x);
    lemma_times_near(r.y, r.y);
    // A square is not negative.
    assert(!a.negative() || a.vanishes()) by {
        lemma_rounded_exists(r.x.size() * r.x.size(), unit);
        lemma_signed(false, rounded(r.x.size() * r.x.size(), unit));
        assert(r.x.size() * r.x.size() >= 0) by (nonlinear_arith);
    }
    assert(!b.negative() || b.vanishes()) by {
        lemma_rounded_exists(r.y.size() * r.y.size(), unit);
        lemma_signed(false, rounded(r.y.size() * r.y.size(), unit));
        assert(r.y.size() * r.y.size() >= 0) by (nonlinear_arith);
    }
    let av = a.value();
    let bv = b.value();
    if a.magnitude() > 0 {
        lemma_units_increasing(0, a.magnitude());
    }
    if b.magnitude() > 0 {
        lemma_units_increasing(0, b.magnitude());
    }
    assert(av >= 0 && bv >= 0);
    let ea = av * unit - xx;
    let eb = bv * unit - yy;
    lemma_two_sided(ea, h, xx + 0x8_0000_0000_0000 * unit);
    lemma_two_sided(eb, h, yy + 0x8_0000_0000_0000 * unit);
    // Each square is at most a little over 1.
    assert(av <= 2 * unit && bv <= 2 * unit) by (nonlinear_arith)
        requires
            ea == av * unit - xx,
            eb == bv * unit - yy,
            ea * h <= xx + 0x8_0000_0000_0000 * unit,
            eb * h <= yy + 0x8_0000_0000_0000 * unit,
            0 <= xx <= uu,
            0 <= yy <= uu,
            0x8_0000_0000_0000 * unit <= uu,
            uu == unit * unit,
            h == 0x10_0000_0000_0000,
            unit > 0,
    ;
    assert(modulus(av + bv) == av + bv);
    lemma_plus_near(a, b);
    let sv = s.value();
    let es = sv - (av + bv);
    lemma_two_sided(es, h, av + bv);
    assert(0 <= sv <= 5 * unit) by (nonlinear_arith)
        requires
            es == sv - (av + bv),
            -(av + bv) <= es * h <= av + bv,
            0 <= av <= 2 * unit,
            0 <= bv <= 2 * unit,
            h == 0x10_0000_0000_0000,
    ;
    assert(!s.negative() || s.vanishes());
    if s.vanishes() {
        assert(m == s);
        lemma_thresholds_ordered();
        assert(m.below(Scalar::epsilon()));
    } else {
        if s.magnitude() > 0 {
            lemma_units_increasing(0, s.magnitude());
        }
        lemma_root_error(s);
        let mv = m.size();
        let mm = mv * mv;
        let su = sv * unit;
        assert(s.size() == sv);
        lemma_units_increasing(0, m.magnitude());
        assert(-su <= (mm - su) * 0x4_0000_0000_0000 <= su);
        // The length is at most one and a half.
        assert(1024 * av <= 1025 * unit && 1024 * bv <= 1025 * unit) by (nonlinear_arith)
            requires
                ea == av * unit - xx,
                eb == bv * unit - yy,
                ea * h <= xx + 0x8_0000_0000_0000 * unit,
                eb * h <= yy + 0x8_0000_0000_0000 * unit,
                0 <= xx <= uu,
                0 <= yy <= uu,
                0x8_0000_0000_0000 * unit <= uu,
                uu == unit * unit,
                h == 0x10_0000_0000_0000,
                unit > 0,
        ;
        assert(1024 * sv <= 2052 * unit) by (nonlinear_arith)
            requires
                es == sv - (av + bv),
                es * h <= av + bv,
                1024 * av <= 1025 * unit,
                1024 * bv <= 1025 * unit,
                0 <= av,
                0 <= bv,
                h == 0x10_0000_0000_0000,
                unit > 0,
        ;
        assert(1024 * mm <= 2054 * uu) by (nonlinear_arith)
            requires
                su == sv * unit,
                uu == unit * unit,
                (mm - su) * 0x4_0000_0000_0000 <= su,
                1024 * sv <= 2052 * unit,
                0 <= sv,
                unit > 0,
        ;
        assert(2 * mv <= 3 * unit) by (nonlinear_arith)
            requires
                mm == mv * mv,
                1024 * mm <= 2054 * uu,
                uu == unit * unit,
                mv >= 0,
                unit > 0,
        ;
        if !m.below(Scalar::epsilon()) {
            // The tolerance is well over two to the minus 27.
            let e: int = 0x15_798E_E230_8C3A;
            lemma_units_packed(995, e);
            assert(EPSILON_BITS == 995 * HIDDEN_BIT + e);
            lemma_pow2_adds(52, 995);
            lemma_pow2_adds(995, 79);
            vstd::arithmetic::power2::lemma2_to64_rest();
            lemma_pow2_pos(995);
            let step = pow2(995) as int;
            assert(Scalar::epsilon().size() == e * step);
            assert(mv >= e * step);
            let big = 0x10_0000_0000_0000 * step;
            assert(mv >= big);
            assert(mm >= big * mv && big * mv >= big * big) by (nonlinear_arith)
                requires
                    mm == mv * mv,
                    mv >= big,
                    big > 0,
            ;
            lemma_pow2_adds(1047, 1047);
            lemma_pow2_adds(1074, 1020);
            assert(big * big == pow2(2094));
            assert(pow2(2094) == unit * pow2(1020));
            vstd::arithmetic::power2::lemma_pow2_strictly_increases(64, 1020);
            vstd::arithmetic::power2::lemma2_to64();
            assert(16 * unit <= mm) by (nonlinear_arith)
                requires
                    mm >= unit * pow2(1020),
                    pow2(1020) > 16,
                    unit > 0,
            ;
            assert(16 * uu <= mm * unit) by (nonlinear_arith)
                requires
                    16 * unit <= mm,
                    uu == unit * unit,
                    unit > 0,
            ;
            // From the square up to the length, step by step.
            assert(xx * h <= (av * unit) * h + xx + 0x8_0000_0000_0000 * unit && yy * h <= (bv
                * unit) * h + yy + 0x8_0000_0000_0000 * unit) by (nonlinear_arith)
                requires
                    ea == av * unit - xx,
                    eb == bv * unit - yy,
                    -(xx + 0x8_0000_0000_0000 * unit) <= ea * h,
                    -(yy + 0x8_0000_0000_0000 * unit) <= eb * h,
            ;
            assert(av * h <= sv * h + av + bv && bv * h <= sv * h + av + bv)
                by (nonlinear_arith)
                requires
                    es == sv - (av + bv),
                    -(av + bv) <= es * h,
                    av >= 0,
                    bv >= 0,
                    h > 0,
            ;
            assert(su * 0x4_0000_0000_0000 <= mm * 0x4_0000_0000_0000 + su);
            assert(av <= 2 * sv + 1 && bv <= 2 * sv + 1) by (nonlinear_arith)
                requires
                    av * h <= sv * h + av + bv,
                    bv * h <= sv * h + av + bv,
                    av >= 0,
                    bv >= 0,
                    sv >= 0,
                    h == 0x10_0000_0000_0000,
            ;
            assert(xx * 4 <= 9 * mm) by (nonlinear_arith)
                requires
                    xx * h <= (av * unit) * h + xx + 0x8_0000_0000_0000 * unit,
                    av * h <= sv * h + av + bv,
                    av <= 2 * sv + 1,
                    bv <= 2 * sv + 1,
                    su == sv * unit,
                    su * 0x4_0000_0000_0000 <= mm * 0x4_0000_0000_0000 + su,
                    16 * unit <= mm,
                    0 <= xx,
                    0 <= sv,
                    0 <= av,
                    0 <= bv,
                    mm >= 0,
                    h == 0x10_0000_0000_0000,
                    unit > 0,
            ;
            assert(yy * 4 <= 9 * mm) by (nonlinear_arith)
                requires
                    yy * h <= (bv * unit) * h + yy + 0x8_0000_0000_0000 * unit,
                    bv * h <= sv * h + av + bv,
                    av <= 2 * sv + 1,
                    bv <= 2 * sv + 1,
                    su == sv * unit,
                    su * 0x4_0000_0000_0000 <= mm * 0x4_0000_0000_0000 + su,
                    16 * unit <= mm,
                    0 <= yy,
                    0 <= sv,
                    0 <= av,
                    0 <= bv,
                    mm >= 0,
                    h == 0x10_0000_0000_0000,
                    unit > 0,
            ;
            // The square of the length against the sum of the squares.
            let total = xx + yy;
            assert(su - total == ea + eb + es * unit) by (nonlinear_arith)
                requires
                    su == sv * unit,
                    es == sv - (av + bv),
                    ea == av * unit - xx,
                    eb == bv * unit - yy,
                    total == xx + yy,
            ;
            let esh = es * h;
            assert((su - total) * h == ea * h + eb * h + esh * unit) by (nonlinear_arith)
                requires
                    su - total == ea + eb + es * unit,
                    esh == es * h,
            ;
            assert(-((av + bv) * unit) <= esh * unit <= (av + bv) * unit) by (nonlinear_arith)
                requires
                    -(av + bv) <= esh <= av + bv,
                    unit > 0,
            ;
            assert((av + bv) * unit == total + ea + eb) by (nonlinear_arith)
                requires
                    ea == av * unit - xx,
                    eb == bv * unit - yy,
                    total == xx + yy,
            ;
            lemma_shrinks(ea, h, xx + 0x8_0000_0000_0000 * unit, xx + unit);
            lemma_shrinks(eb, h, yy + 0x8_0000_0000_0000 * unit, yy + unit);
            assert(mm * 0x4_0000_0000_0000 <= su * 0x4_0000_0000_0000 + su);
            assert(4 * total >= mm) by (nonlinear_arith)
                requires
                    mm * 0x4_0000_0000_0000 <= su * 0x4_0000_0000_0000 + su,
                    (su - total) * h == ea * h + eb * h + esh * unit,
                    ea * h <= xx + 0x8_0000_0000_0000 * unit,
                    eb * h <= yy + 0x8_0000_0000_0000 * unit,
                    esh * unit <= (av + bv) * unit,
                    (av + bv) * unit == total + ea + eb,
                    ea <= xx + unit,
                    eb <= yy + unit,
                    total == xx + yy,
                    0 <= xx,
                    0 <= yy,
                    16 * unit <= mm,
                    h == 0x10_0000_0000_0000,
                    unit > 0,
            ;
            assert(unit * 0x1_0000_0000_0000_0000 <= mm) by (nonlinear_arith)
                requires
                    mm >= unit * pow2(1020),
                    pow2(1020) > 0x1_0000_0000_0000_0000,
                    unit > 0,
            ;
            assert(within(su, total, 0x2_0000_0000_0000)) by (nonlinear_arith)
                requires
                    (su - total) * h == ea * h + eb * h + esh * unit,
                    -(xx + 0x8_0000_0000_0000 * unit) <= ea * h <= xx + 0x8_0000_0000_0000 * unit,
                    -(yy + 0x8_0000_0000_0000 * unit) <= eb * h <= yy + 0x8_0000_0000_0000 * unit,
                    -((av + bv) * unit) <= esh * unit <= (av + bv) * unit,
                    (av + bv) * unit == total + ea + eb,
                    -(xx + unit) <= ea <= xx + unit,
                    -(yy + unit) <= eb <= yy + unit,
                    total == xx + yy,
                    0 <= xx,
                    0 <= yy,
                    4 * total >= mm,
                    unit * 0x1_0000_0000_0000_0000 <= mm,
                    h == 0x10_0000_0000_0000,
                    unit > 0,
            ;
            lemma_within_chain(
                mm,
                su,
                total,
                0x4_0000_0000_0000,
                0x2_0000_0000_0000,
                0x8000_0000_0000,
            );
            assert(-(3 * mv) <= 2 * rx <= 3 * mv && -(3 * mv) <= 2 * ry <= 3 * mv)
                by (nonlinear_arith)
                requires
                    xx * 4 <= 9 * mm,
                    yy * 4 <= 9 * mm,
                    xx == rx * rx,
                    yy == ry * ry,
                    mm == mv * mv,
                    mv >= 0,
            ;
        }
    }
}

/// A vector with components within 1, brought to unit length: each
/// component of the result is within 2 and, times the length divided by,
/// follows the component of the vector; and the length divided by is at
/// least two thirds of either component.
proof fn lemma_unit_normal(r: Vector)
    requires
        r.x.reaches(pow2(1074) as int),
        r.y.reaches(pow2(1074) as int),
    ensures
        ({
            let n = r.normalize();
            let unit = pow2(1074) as int;
            let by = Vector::safe_length(r.magnitude()).size();
            let rx = r.x.value();
            let ry = r.y.value();
            &&& 0 < by <= 2 * unit
            &&& n.x.reaches(2 * unit)
            &&& n.y.reaches(2 * unit)
            &&& -(3 * by) <= 2 * rx <= 3 * by
            &&& -(3 * by) <= 2 * ry <= 3 * by
            &&& -(r.x.size() * unit + 0x8_0000_0000_0000 * by) <= (n.x.value() * by - rx * unit)
                * HIDDEN_BIT <= r.x.size() * unit + 0x8_0000_0000_0000 * by
            &&& -(r.y.size() * unit + 0x8_0000_0000_0000 * by) <= (n.y.value() * by - ry * unit)
                * HIDDEN_BIT <= r.y.size() * unit + 0x8_0000_0000_0000 * by
        }),
{
    let unit = pow2(1074) as int;
    let m = r.magnitude();
    let by = Vector::safe_length(m);
    lemma_length_bounds(r);
    lemma_pow2_pos(1074);
    lemma_thresholds_ordered();
    assert(units(0) == 0);
    assert(Scalar::one().size() == unit);
    if m.below(Scalar::epsilon()) {
        lemma_over_one(r.x);
        lemma_over_one(r.y);
        assert(r.normalize() == r);
        assert((r.x.value() * unit - r.x.value() * unit) * HIDDEN_BIT == 0);
        assert((r.y.value() * unit - r.y.value() * unit) * HIDDEN_BIT == 0);
        if r.x.magnitude() > 0 {
            lemma_units_increasing(0, r.x.magnitude());
        }
        if r.y.magnitude() > 0 {
            lemma_units_increasing(0, r.y.magnitude());
        }
        assert(r.x.size() * unit >= 0 && r.y.size() * unit >= 0) by (nonlinear_arith)
            requires
                r.x.size() >= 0,
                r.y.size() >= 0,
                unit > 0,
        ;
    } else {
        lemma_units_increasing(0, m.magnitude());
        lemma_component_over(r.x, m);
        lemma_component_over(r.y, m);
    }
}

/// A number within 1 over a length that is at least two thirds of it.
proof fn lemma_component_over(c: Scalar, m: Scalar)
    requires
        c.reaches(pow2(1074) as int),
        !m.nan(),
        !m.infinite(),
        !m.negative(),
        !m.vanishes(),
        -(3 * m.size()) <= 2 * c.value() <= 3 * m.size(),
    ensures
        ({
            let q = c.over(m);
            let unit = pow2(1074) as int;
            &&& q.reaches(2 * unit)
            &&& -(c.size() * unit + 0x8_0000_0000_0000 * m.size()) <= (q.value() * m.size()
                - c.value() * unit) * HIDDEN_BIT <= c.size() * unit + 0x8_0000_0000_0000
                * m.size()
        }),
{
    let unit = pow2(1074) as int;
    let g = pow2(200) as int;
    let top = pow2(1023) as int;
    let h = HIDDEN_BIT as int;
    let mv = m.size();
    let cs = c.size();
    let cv = c.value();
    let q = c.over(m);
    lemma_scales();
    lemma_pow2_pos(1074);
    assert(units(0) == 0);
    lemma_units_increasing(0, m.magnitude());
    if c.magnitude() > 0 {
        lemma_units_increasing(0, c.magnitude());
    }
    assert(0 <= cs <= unit && 2 * cs <= 3 * mv);
    assert(cs * unit <= pow2(2097) * mv) by (nonlinear_arith)
        requires
            2 * cs <= 3 * mv,
            0 <= cs,
            mv > 0,
            scales(unit, g, top),
            unit > 0,
    ;
    lemma_over_near(c, m);
    let qs = q.size();
    if q.magnitude() > 0 {
        lemma_units_increasing(0, q.magnitude());
    }
    let err = qs * mv - cs * unit;
    lemma_two_sided(err, h, cs * unit + 0x8_0000_0000_0000 * mv);
    assert(cs * unit <= unit * unit) by (nonlinear_arith)
        requires
            0 <= cs <= unit,
            unit > 0,
    ;
    // The signed quotient against the signed component.
    assert((q.value() == qs && cv == cs) || (q.value() == -qs && cv == -cs));
    assert(q.value() * mv - cv * unit == err || q.value() * mv - cv * unit == -err)
        by (nonlinear_arith)
        requires
            err == qs * mv - cs * unit,
            (q.value() == qs && cv == cs) || (q.value() == -qs && cv == -cs),
    ;
    vstd::arithmetic::power2::lemma_pow2_strictly_increases(52, 1074);
    vstd::arithmetic::power2::lemma2_to64_rest();
    assert(-(2 * unit) <= q.value() <= 2 * unit) by (nonlinear_arith)
        requires
            err == qs * mv - cs * unit,
            -(cs * unit + 0x8_0000_0000_0000 * mv) <= err * h <= cs * unit + 0x8_0000_0000_0000
                * mv,
            2 * cs <= 3 * mv,
            0 <= cs <= unit,
            qs >= 0,
            q.value() == qs || q.value() == -qs,
            mv > 0,
            unit >= 0x10_0000_0000_0000,
            h == 0x10_0000_0000_0000,
    ;
}

/// A vector with components within 1 whose length is not under the
/// tolerance, brought to unit length, has unit length within one part in two
/// to the thirty-second.
pub proof fn lemma_normalize_is_unit(r: Vector)
    requires
        r.x.reaches(pow2(1074) as int),
        r.y.reaches(pow2(1074) as int),
        !r.magnitude().below(Scalar::epsilon()),
    ensures
        r.normalize().nearly_unit(),
{
    let unit = pow2(1074) as int;
    let h = HIDDEN_BIT as int;
    let uu = unit * unit;
    let n = r.normalize();
    let m = r.magnitude();
    lemma_pow2_pos(1074);
    lemma_length_bounds(r);
    lemma_unit_normal(r);
    assert(Vector::safe_length(m) == m);
    let mv = m.size();
    let mm = mv * mv;
    let rx = r.x.value();
    let ry = r.y.value();
    let nx = n.x.value();
    let ny = n.y.value();
    let sx = r.x.size();
    let sy = r.y.size();
    assert(units(0) == 0);
    lemma_units_increasing(0, m.magnitude());
    if r.x.magnitude() > 0 {
        lemma_units_increasing(0, r.x.magnitude());
    }
    if r.y.magnitude() > 0 {
        lemma_units_increasing(0, r.y.magnitude());
    }
    assert((rx == sx || rx == -sx) && (ry == sy || ry == -sy) && sx >= 0 && sy >= 0);
    assert(2 * sx <= 3 * mv && 2 * sy <= 3 * mv);
    lemma_pow2_strictly_increases(64, 1074);
    vstd::arithmetic::power2::lemma2_to64();
    let total = rx * rx + ry * ry;
    let e1 = nx * mv - rx * unit;
    let e2 = ny * mv - ry * unit;
    let e1h = e1 * h;
    let e2h = e2 * h;
    let mu = mv * unit;
    // What each component, times the length, lacks to the component of the
    // vector is small against the length.
    assert(-(2 * mu) <= e1h <= 2 * mu && -(2 * mu) <= e2h <= 2 * mu) by (nonlinear_arith)
        requires
            -(sx * unit + 0x8_0000_0000_0000 * mv) <= e1h <= sx * unit + 0x8_0000_0000_0000 * mv,
            -(sy * unit + 0x8_0000_0000_0000 * mv) <= e2h <= sy * unit + 0x8_0000_0000_0000 * mv,
            2 * sx <= 3 * mv,
            2 * sy <= 3 * mv,
            mu == mv * unit,
            unit >= 0x1_0000_0000_0000_0000,
            mv >= 0,
    ;
    assert(2 * mu <= h * mu) by (nonlinear_arith)
        requires
            mu == mv * unit,
            mv >= 0,
            unit > 0,
            h == 0x10_0000_0000_0000,
    ;
    lemma_shrinks(e1, h, 2 * mu, mu);
    lemma_shrinks(e2, h, 2 * mu, mu);
    // The square of the result, times the square of the length.
    let nn = nx * nx + ny * ny;
    let cross = rx * e1 + ry * e2;
    let squares = e1 * e1 + e2 * e2;
    let px = nx * mv;
    let py = ny * mv;
    assert(px * px == (nx * nx) * mm && py * py == (ny * ny) * mm) by (nonlinear_arith)
        requires
            px == nx * mv,
            py == ny * mv,
            mm == mv * mv,
    ;
    assert(px * px == (rx * rx) * uu + 2 * (unit * (rx * e1)) + e1 * e1) by (nonlinear_arith)
        requires
            px == rx * unit + e1,
            uu == unit * unit,
    ;
    assert(py * py == (ry * ry) * uu + 2 * (unit * (ry * e2)) + e2 * e2) by (nonlinear_arith)
        requires
            py == ry * unit + e2,
            uu == unit * unit,
    ;
    assert(nn * mm == (nx * nx) * mm + (ny * ny) * mm) by (nonlinear_arith)
        requires
            nn == nx * nx + ny * ny,
    ;
    assert(total * uu == (rx * rx) * uu + (ry * ry) * uu) by (nonlinear_arith)
        requires
            total == rx * rx + ry * ry,
    ;
    assert(unit * cross == unit * (rx * e1) + unit * (ry * e2)) by (nonlinear_arith)
        requires
            cross == rx * e1 + ry * e2,
    ;
    assert(nn * mm == total * uu + 2 * (unit * cross) + squares);
    let crossh = cross * h;
    assert(crossh == rx * e1h + ry * e2h) by (nonlinear_arith)
        requires
            crossh == cross * h,
            cross == rx * e1 + ry * e2,
            e1h == e1 * h,
            e2h == e2 * h,
    ;
    let mmu = mm * unit;
    assert(-(6 * mmu) <= crossh <= 6 * mmu) by (nonlinear_arith)
        requires
            crossh == rx * e1h + ry * e2h,
            -(2 * mu) <= e1h <= 2 * mu,
            -(2 * mu) <= e2h <= 2 * mu,
            -(3 * mv) <= 2 * rx <= 3 * mv,
            -(3 * mv) <= 2 * ry <= 3 * mv,
            mu == mv * unit,
            mmu == mm * unit,
            mm == mv * mv,
            mv >= 0,
            unit > 0,
    ;
    let squaresh = squares * h;
    assert(squaresh == e1 * e1h + e2 * e2h) by (nonlinear_arith)
        requires
            squaresh == squares * h,
            squares == e1 * e1 + e2 * e2,
            e1h == e1 * h,
            e2h == e2 * h,
    ;
    let mmuu = mm * uu;
    assert(-(4 * mmuu) <= squaresh <= 4 * mmuu) by (nonlinear_arith)
        requires
            squaresh == e1 * e1h + e2 * e2h,
            -(2 * mu) <= e1h <= 2 * mu,
            -(2 * mu) <= e2h <= 2 * mu,
            -mu <= e1 <= mu,
            -mu <= e2 <= mu,
            mu == mv * unit,
            mmuu == mm * uu,
            mm == mv * mv,
            uu == unit * unit,
            mv >= 0,
            unit > 0,
    ;
    let lack = nn * mm - total * uu;
    assert(lack * h == 2 * (unit * crossh) + squaresh) by (nonlinear_arith)
        requires
            lack == 2 * (unit * cross) + squares,
            crossh == cross * h,
            squaresh == squares * h,
    ;
    assert(-(16 * mmuu) <= lack * h <= 16 * mmuu) by (nonlinear_arith)
        requires
            lack * h == 2 * (unit * crossh) + squaresh,
            -(6 * mmu) <= crossh <= 6 * mmu,
            -(4 * mmuu) <= squaresh <= 4 * mmuu,
            mmu == mm * unit,
            mmuu == mm * uu,
            uu == unit * unit,
            mm >= 0,
            unit > 0,
    ;
    // And the square of the length is the sum of the squares, nearly.
    let skew = (total - mm) * uu;
    assert(-(4 * mmuu) <= skew * 0x8000_0000_0000 <= 4 * mmuu && mmuu > 0) by (nonlinear_arith)
        requires
            skew == (total - mm) * uu,
            within(mm, total, 0x8000_0000_0000),
            mmuu == mm * uu,
            uu == unit * unit,
            unit * 0x1_0000_0000_0000_0000 <= mm,
            unit > 0,
    ;
    assert((nn - uu) * mm == lack + skew) by (nonlinear_arith)
        requires
            lack == nn * mm - total * uu,
            skew == (total - mm) * uu,
    ;
    let off = nn - uu;
    assert(-(8 * mmuu) <= (off * mm) * 0x8000_0000_0000 <= 8 * mmuu) by (nonlinear_arith)
        requires
            off * mm == lack + skew,
            -(16 * mmuu) <= lack * h <= 16 * mmuu,
            -(4 * mmuu) <= skew * 0x8000_0000_0000 <= 4 * mmuu,
            h == 0x10_0000_0000_0000,
            mmuu > 0,
    ;
    let wide = off * 0x8000_0000_0000;
    assert((off * mm) * 0x8000_0000_0000 == wide * mm && 8 * mmuu == mm * (8 * uu) && uu > 0)
        by (nonlinear_arith)
        requires
            wide == off * 0x8000_0000_0000,
            mmuu == mm * uu,
            uu == unit * unit,
            unit > 0,
    ;
    assert(mm > 0) by (nonlinear_arith)
        requires
            unit * 0x1_0000_0000_0000_0000 <= mm,
            unit > 0,
    ;
    lemma_shrinks(wide, mm, 8 * mmuu, 8 * uu);
    assert(within(nn, uu, 0x1_0000_0000));
    vstd::arithmetic::power2::lemma_pow2_adds(1074, 1074);
}

/// The difference of two numbers between 0 and 1: it is within 1, and
/// within one part in two to the fifty-second of 1 from the exact difference.
proof fn lemma_difference(b: Scalar, a: Scalar)
    requires
        !a.nan(),
        !b.nan(),
        0 <= a.value() <= pow2(1074),
        0 <= b.value() <= pow2(1074),
    ensures
        b.minus(a).reaches(pow2(1074) as int),
        -pow2(1074) <= (b.minus(a).value() - (b.value() - a.value())) * HIDDEN_BIT <= pow2(1074),
{
    let unit = pow2(1074) as int;
    let g = pow2(200) as int;
    let top = pow2(1023) as int;
    lemma_scales();
    lemma_thresholds_ordered();
    lemma_infinity_is_large();
    lemma_negation_keeps_magnitude(a);
    vstd::arithmetic::power2::lemma_pow2_strictly_increases(1074, 2098);
    assert(units(0) == 0);
    assert(!a.infinite() && !b.infinite());
    let exact = b.value() - a.value();
    assert(unit <= pow2(2097)) by (nonlinear_arith)
        requires
            scales(unit, g, top),
            unit > 0,
    ;
    lemma_plus_near(b, a.negated());
    let w = b.minus(a);
    lemma_two_sided(w.value() - exact, HIDDEN_BIT as int, unit);
    // The difference is within 1, since the exact one is and 1 is a double.
    let gap = modulus(exact);
    if exact != 0 {
        lemma_rounded_exists(gap, 1);
        assert(units(ONE_BITS as int) == unit);
        lemma_rounded_between(gap, 1, 0, ONE_BITS as int);
        let m = rounded(gap, 1);
        lemma_signed(exact < 0, m);
        if m < ONE_BITS {
            lemma_units_increasing(m, ONE_BITS as int);
        }
        if m > 0 {
            lemma_units_increasing(0, m);
        }
    } else {
        lemma_signed(b.negative() && a.negated().negative(), 0);
    }
}

/// Both of two points of the sheet lie on the line through them, at one
/// offset along its normal within the tolerance.
pub proof fn lemma_line_through_holds_both(a: Vector, b: Vector, boundary: Rect)
    requires
        boundary.contains(a),
        boundary.contains(b),
    ensures
        ({
            let u = line_through(a, b).u;
            Vector::negligible(b.dot(u).minus(a.dot(u)))
        }),
{
    let unit = pow2(1074) as int;
    let h = HIDDEN_BIT as int;
    let uu = unit * unit;
    lemma_pow2_pos(1074);
    lemma_contains_is_unit_square(boundary, a);
    lemma_contains_is_unit_square(boundary, b);
    lemma_infinity_is_large();
    vstd::arithmetic::power2::lemma_pow2_strictly_increases(1074, 2098);
    let w = b.subtract(a);
    lemma_difference(b.x, a.x);
    lemma_difference(b.y, a.y);
    let r = w.rotate90();
    lemma_negation_keeps_magnitude(w.y);
    let u = r.normalize();
    assert(u == line_through(a, b).u);
    lemma_unit_normal(r);
    let by = Vector::safe_length(r.magnitude()).size();
    assert(a.x.reaches(unit) && a.y.reaches(unit) && b.x.reaches(unit) && b.y.reaches(unit));
    lemma_along(a, u, unit);
    lemma_along(b, u, unit);
    let ta = a.dot(u).value();
    let tb = b.dot(u).value();
    let ax = a.x.value();
    let ay = a.y.value();
    let bx = b.x.value();
    let byy = b.y.value();
    let wx = w.x.value();
    let wy = w.y.value();
    let ux = u.x.value();
    let uy = u.y.value();
    let rx = r.x.value();
    let ry = r.y.value();
    assert(rx == -wy && ry == wx);
    if r.x.magnitude() > 0 {
        lemma_units_increasing(0, r.x.magnitude());
    }
    if r.y.magnitude() > 0 {
        lemma_units_increasing(0, r.y.magnitude());
    }
    assert(units(0) == 0);
    let sx = r.x.size();
    let sy = r.y.size();
    assert(0 <= sx <= unit && 0 <= sy <= unit && (rx == sx || rx == -sx) && (ry == sy || ry
        == -sy));
    vstd::arithmetic::power2::lemma2_to64();
    vstd::arithmetic::power2::lemma2_to64_rest();
    lemma_pow2_adds(64, 4);
    vstd::arithmetic::power2::lemma_pow2_strictly_increases(68, 1074);
    lemma_offsets_agree(ax, ay, bx, byy, wx, wy, ux, uy, by, sx, sy, ta, tb, unit);
    lemma_close_is_negligible(b.dot(u), a.dot(u));
}

/// Where two points of the sheet lie apart by the tolerance or more, the fold
/// through them and the fold that lays one on the other both have a normal of
/// unit length, within one part in two to the thirty-second.
pub proof fn lemma_folds_have_unit_normals(a: Vector, b: Vector, boundary: Rect)
    requires
        boundary.contains(a),
        boundary.contains(b),
        !b.distance_to(a).below(Scalar::epsilon()),
    ensures
        line_through(a, b).u.nearly_unit(),
        bisector_of(a, b).u.nearly_unit(),
{
    lemma_contains_is_unit_square(boundary, a);
    lemma_contains_is_unit_square(boundary, b);
    let w = b.subtract(a);
    lemma_difference(b.x, a.x);
    lemma_difference(b.y, a.y);
    lemma_normalize_is_unit(w);
    lemma_negation_keeps_magnitude(w.y);
    lemma_turn_keeps_length(w);
    lemma_normalize_is_unit(w.rotate90());
}

/// The arithmetic behind `lemma_line_through_holds_both`, on the values.
proof fn lemma_offsets_agree(
    ax: int,
    ay: int,
    bx: int,
    by: int,
    wx: int,
    wy: int,
    ux: int,
    uy: int,
    dv: int,
    sx: int,
    sy: int,
    ta: int,
    tb: int,
    unit: int,
)
    requires
        unit >= 0x10_0000_0000_0000_0000,
        0 < dv <= 2 * unit,
        -unit <= wx <= unit,
        -unit <= wy <= unit,
        -(2 * unit) <= ux <= 2 * unit,
        -(2 * unit) <= uy <= 2 * unit,
        0 <= sx <= unit,
        0 <= sy <= unit,
        wy == sx || wy == -sx,
        wx == sy || wx == -sy,
        2 * sx <= 3 * dv,
        2 * sy <= 3 * dv,
        -unit <= (wx - (bx - ax)) * HIDDEN_BIT <= unit,
        -unit <= (wy - (by - ay)) * HIDDEN_BIT <= unit,
        -(sx * unit + 0x8_0000_0000_0000 * dv) <= (ux * dv - (-wy) * unit) * HIDDEN_BIT <= sx * unit
            + 0x8_0000_0000_0000 * dv,
        -(sy * unit + 0x8_0000_0000_0000 * dv) <= (uy * dv - wx * unit) * HIDDEN_BIT <= sy * unit
            + 0x8_0000_0000_0000 * dv,
        -(12 * (unit * unit)) <= (ta * unit - (ax * ux + ay * uy)) * HIDDEN_BIT <= 12 * (unit
            * unit),
        -(12 * (unit * unit)) <= (tb * unit - (bx * ux + by * uy)) * HIDDEN_BIT <= 12 * (unit
            * unit),
    ensures
        -unit <= (tb - ta) * 0x800_0000 <= unit,
{
    let h = HIDDEN_BIT as int;
    let uu = unit * unit;
    let e1 = ux * dv - (-wy) * unit;
    let e2 = uy * dv - wx * unit;
    let e1h = e1 * h;
    let e2h = e2 * h;
    let t = wx * ux + wy * uy;
    // Along the normal, the difference of the points all but vanishes.
    let k1 = wx * ux;
    let k2 = wy * uy;
    let k3 = wx * wy;
    assert(wx * e1 == k1 * dv + k3 * unit) by (nonlinear_arith)
        requires
            e1 == ux * dv - (-wy) * unit,
            k1 == wx * ux,
            k3 == wx * wy,
    ;
    assert(wy * e2 == k2 * dv - k3 * unit) by (nonlinear_arith)
        requires
            e2 == uy * dv - wx * unit,
            k2 == wy * uy,
            k3 == wx * wy,
    ;
    assert(t * dv == k1 * dv + k2 * dv) by (nonlinear_arith)
        requires
            t == k1 + k2,
    ;
    assert(t * dv == wx * e1 + wy * e2);
    assert((t * dv) * h == wx * e1h + wy * e2h) by (nonlinear_arith)
        requires
            t * dv == wx * e1 + wy * e2,
            e1h == e1 * h,
            e2h == e2 * h,
    ;
    let half = 0x8_0000_0000_0000 * dv;
    assert(-(sy * (sx * unit + half)) <= wx * e1h <= sy * (sx * unit + half)) by (nonlinear_arith)
        requires
            wx == sy || wx == -sy,
            -(sx * unit + half) <= e1h <= sx * unit + half,
            sy >= 0,
    ;
    assert(-(sx * (sy * unit + half)) <= wy * e2h <= sx * (sy * unit + half)) by (nonlinear_arith)
        requires
            wy == sx || wy == -sx,
            -(sy * unit + half) <= e2h <= sy * unit + half,
            sx >= 0,
    ;
    assert(sy * (sx * unit + half) + sx * (sy * unit + half) <= dv * (3 * uu + h * unit))
        by (nonlinear_arith)
        requires
            half == 0x8_0000_0000_0000 * dv,
            0 <= sx <= unit,
            0 <= sy <= unit,
            2 * sx <= 3 * dv,
            uu == unit * unit,
            h == 0x10_0000_0000_0000,
            dv > 0,
            unit > 0,
    ;
    let th = t * h;
    assert((t * dv) * h == th * dv) by (nonlinear_arith)
        requires
            th == t * h,
    ;
    assert(-(3 * uu + h * unit) <= th <= 3 * uu + h * unit) by (nonlinear_arith)
        requires
            -(dv * (3 * uu + h * unit)) <= th * dv <= dv * (3 * uu + h * unit),
            dv > 0,
    ;
    // What the computed differences lack to the exact ones.
    let ex = (bx - ax) - wx;
    let ey = (by - ay) - wy;
    let exh = ex * h;
    let eyh = ey * h;
    assert(-(4 * uu) <= exh * ux + eyh * uy <= 4 * uu) by (nonlinear_arith)
        requires
            -unit <= exh <= unit,
            -unit <= eyh <= unit,
            -(2 * unit) <= ux <= 2 * unit,
            -(2 * unit) <= uy <= 2 * unit,
            uu == unit * unit,
            unit > 0,
    ;
    let pa = ax * ux + ay * uy;
    let pb = bx * ux + by * uy;
    assert(pb - pa == t + ex * ux + ey * uy) by (nonlinear_arith)
        requires
            pa == ax * ux + ay * uy,
            pb == bx * ux + by * uy,
            t == wx * ux + wy * uy,
            ex == (bx - ax) - wx,
            ey == (by - ay) - wy,
    ;
    assert((pb - pa) * h == th + exh * ux + eyh * uy) by (nonlinear_arith)
        requires
            pb - pa == t + ex * ux + ey * uy,
            th == t * h,
            exh == ex * h,
            eyh == ey * h,
    ;
    let fa = (ta * unit - pa) * h;
    let fb = (tb * unit - pb) * h;
    let gap = tb - ta;
    assert((gap * unit) * h == fb - fa + (pb - pa) * h) by (nonlinear_arith)
        requires
            fa == (ta * unit - pa) * h,
            fb == (tb * unit - pb) * h,
            gap == tb - ta,
    ;
    let gh = gap * h;
    assert((gap * unit) * h == gh * unit) by (nonlinear_arith)
        requires
            gh == gap * h,
    ;
    assert(-(31 * uu + h * unit) <= gh * unit <= 31 * uu + h * unit);
    assert(-(31 * unit + h) <= gh <= 31 * unit + h) by (nonlinear_arith)
        requires
            -(31 * uu + h * unit) <= gh * unit <= 31 * uu + h * unit,
            uu == unit * unit,
            unit > 0,
    ;
    assert(-unit <= gap * 0x800_0000 <= unit) by (nonlinear_arith)
        requires
            gh == gap * h,
            -(31 * unit + h) <= gh <= 31 * unit + h,
            h == 0x10_0000_0000_0000,
            unit >= 0x10_0000_0000_0000_0000,
    ;
}

} // verus!
