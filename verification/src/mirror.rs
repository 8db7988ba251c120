//! Mirroring a point twice in a line: how far the arithmetic on doubles
//! strays from the exact mirror image, and that two reflections give the
//! point back within the tolerance.
use crate::bounds::{
    lemma_close_is_negligible, lemma_plus_near, lemma_scales, lemma_shrinks, lemma_times_near,
    lemma_two_sided, modulus, scales, within,
};
use crate::line::Line;
use crate::scalar::{HIDDEN_BIT, Scalar, lemma_negation_keeps_magnitude};
use crate::vector::Vector;
use vstd::arithmetic::power2::{lemma_pow2_pos, pow2};
use vstd::prelude::*;

verus! {

/// The part of a point along a direction: the inner product of the two, on
/// doubles, against the exact inner product, for a point within `reach` and a
/// direction within 2.
pub proof fn lemma_along(p: Vector, r: Vector, reach: int)
    requires
        pow2(1074) <= reach <= 128 * pow2(1074),
        p.x.reaches(reach),
        p.y.reaches(reach),
        r.x.reaches(2 * (pow2(1074) as int)),
        r.y.reaches(2 * (pow2(1074) as int)),
    ensures
        ({
            let t = p.dot(r);
            let exact = p.x.value() * r.x.value() + p.y.value() * r.y.value();
            let unit = pow2(1074) as int;
            let ru = reach * unit;
            &&& t.reaches(4 * reach + unit)
            &&& -(4 * ru) <= exact <= 4 * ru
            &&& -(9 * ru + 3 * (unit * unit)) <= (t.value() * unit - exact) * HIDDEN_BIT <= 9 * ru
                + 3 * (unit * unit)
        }),
{
    let unit = pow2(1074) as int;
    let g = pow2(200) as int;
    let top = pow2(1023) as int;
    let h = HIDDEN_BIT as int;
    lemma_scales();
    lemma_pow2_pos(1074);
    let px = p.x.value();
    let py = p.y.value();
    let rx = r.x.value();
    let ry = r.y.value();
    let first = p.x.times(r.x);
    let second = p.y.times(r.y);
    let t = first.plus(second);
    let uu = unit * unit;
    let ru = reach * unit;
    let pr = px * rx;
    let qr = py * ry;
    assert(-(2 * ru) <= pr <= 2 * ru && -(2 * ru) <= qr <= 2 * ru) by (nonlinear_arith)
        requires
            -reach <= px <= reach,
            -reach <= py <= reach,
            -(2 * unit) <= rx <= 2 * unit,
            -(2 * unit) <= ry <= 2 * unit,
            pr == px * rx,
            qr == py * ry,
            ru == reach * unit,
            unit > 0,
            reach > 0,
    ;
    assert(uu <= ru <= 128 * uu && 256 * uu <= pow2(2097) * unit && 0x8_0000_0000_0000 * unit
        <= uu && 1024 * unit <= pow2(2097)) by (nonlinear_arith)
        requires
            unit <= reach <= 128 * unit,
            ru == reach * unit,
            uu == unit * unit,
            scales(unit, g, top),
            unit > 0,
    ;
    assert(modulus(pr) <= 2 * ru && modulus(qr) <= 2 * ru);
    lemma_times_near(p.x, r.x);
    lemma_times_near(p.y, r.y);
    let a = first.value();
    let c = second.value();
    let e1 = a * unit - pr;
    let e2 = c * unit - qr;
    assert(modulus(e1) * h <= 2 * ru + uu && modulus(e2) * h <= 2 * ru + uu);
    lemma_two_sided(e1, h, 2 * ru + uu);
    lemma_two_sided(e2, h, 2 * ru + uu);
    assert(2 * ru + uu <= h * uu) by (nonlinear_arith)
        requires
            ru <= 128 * uu,
            uu >= 0,
            h == 0x10_0000_0000_0000,
    ;
    lemma_shrinks(e1, h, 2 * ru + uu, uu);
    lemma_shrinks(e2, h, 2 * ru + uu, uu);
    // Each product is within reach.
    assert(-(2 * reach + unit) <= a <= 2 * reach + unit) by (nonlinear_arith)
        requires
            -uu <= e1 <= uu,
            e1 == a * unit - pr,
            -(2 * ru) <= pr <= 2 * ru,
            uu == unit * unit,
            ru == reach * unit,
            unit > 0,
    ;
    assert(-(2 * reach + unit) <= c <= 2 * reach + unit) by (nonlinear_arith)
        requires
            -uu <= e2 <= uu,
            e2 == c * unit - qr,
            -(2 * ru) <= qr <= 2 * ru,
            uu == unit * unit,
            ru == reach * unit,
            unit > 0,
    ;
    assert(modulus(a + c) <= 4 * reach + 2 * unit);
    lemma_plus_near(first, second);
    let s = t.value();
    let exact = pr + qr;
    let e3 = s - (a + c);
    assert(modulus(e3) * h <= 4 * reach + 2 * unit);
    lemma_two_sided(e3, h, 4 * reach + 2 * unit);
    assert(4 * reach + 2 * unit <= h * unit) by (nonlinear_arith)
        requires
            reach <= 128 * unit,
            unit > 0,
            h == 0x10_0000_0000_0000,
    ;
    lemma_shrinks(e3, h, 4 * reach + 2 * unit, unit);
    assert(-(4 * reach + unit) <= s <= 4 * reach + unit) by {
        // The sum of the two products is within `4 reach + 2 units`, and
        // closer to the exact sum than that.
        assert(-(4 * ru + 2 * uu) <= (a + c) * unit <= 4 * ru + 2 * uu) by (nonlinear_arith)
            requires
                -(2 * reach + unit) <= a <= 2 * reach + unit,
                -(2 * reach + unit) <= c <= 2 * reach + unit,
                uu == unit * unit,
                ru == reach * unit,
                unit > 0,
        ;
        assert(-(4 * reach + unit) <= s <= 4 * reach + unit) by (nonlinear_arith)
            requires
                e3 == s - (a + c),
                e1 == a * unit - pr,
                e2 == c * unit - qr,
                -(2 * ru) <= pr <= 2 * ru,
                -(2 * ru) <= qr <= 2 * ru,
                -(2 * ru + uu) <= e1 * h <= 2 * ru + uu,
                -(2 * ru + uu) <= e2 * h <= 2 * ru + uu,
                -(4 * reach + 2 * unit) <= e3 * h <= 4 * reach + 2 * unit,
                ru <= 128 * uu,
                reach <= 128 * unit,
                uu == unit * unit,
                ru == reach * unit,
                h == 0x10_0000_0000_0000,
                unit > 0,
                reach >= unit,
        ;
    }
    let e3h = e3 * h;
    assert(-(4 * ru + 2 * uu) <= e3h * unit <= 4 * ru + 2 * uu) by (nonlinear_arith)
        requires
            -(4 * reach + 2 * unit) <= e3h <= 4 * reach + 2 * unit,
            uu == unit * unit,
            ru == reach * unit,
            unit > 0,
    ;
    assert((s * unit - exact) * h == e3h * unit + e1 * h + e2 * h) by (nonlinear_arith)
        requires
            e3h == e3 * h,
            e3 == s - (a + c),
            e1 == a * unit - pr,
            e2 == c * unit - qr,
            exact == pr + qr,
    ;
}

/// One coordinate of the mirror image of a point. With `c` the coordinate of
/// the normal, `rc` that of the normal turned a quarter, `d` the offset, `t`
/// the part of the point along the line and `pc` the coordinate of the point,
/// the image is `(c d + rc t) + ((c d + rc t) - pc)`. Where `t` follows an
/// exact number `along`, the image follows `2 (c d + rc along) - pc`.
proof fn lemma_mirror_coordinate(
    c: Scalar,
    rc: Scalar,
    d: Scalar,
    t: Scalar,
    pc: Scalar,
    along: int,
    reach: int,
)
    requires
        pow2(1074) <= reach <= 128 * pow2(1074),
        c.reaches(2 * (pow2(1074) as int)),
        rc.reaches(2 * (pow2(1074) as int)),
        d.reaches(4 * (pow2(1074) as int)),
        pc.reaches(reach),
        t.reaches(4 * reach + pow2(1074)),
        -(9 * (reach * pow2(1074)) + 3 * (pow2(1074) * pow2(1074))) <= (t.value() * pow2(1074)
            - along) * HIDDEN_BIT <= 9 * (reach * pow2(1074)) + 3 * (pow2(1074) * pow2(1074)),
    ensures
        ({
            let proj = c.times(d).plus(rc.times(t));
            let image = proj.plus(proj.minus(pc));
            let unit = pow2(1074) as int;
            let exact = 2 * (c.value() * d.value() * unit + rc.value() * along) - pc.value() * (
            unit * unit);
            let width = 94 * (reach * unit * unit) + 100 * (unit * unit * unit);
            &&& image.reaches(17 * reach + 28 * unit)
            &&& -width <= (image.value() * (unit * unit) - exact) * HIDDEN_BIT <= width
        }),
{
    let unit = pow2(1074) as int;
    let g = pow2(200) as int;
    let top = pow2(1023) as int;
    let h = HIDDEN_BIT as int;
    lemma_scales();
    lemma_pow2_pos(1074);
    let uu = unit * unit;
    let ru = reach * unit;
    let cv = c.value();
    let rv = rc.value();
    let dv = d.value();
    let tv = t.value();
    let pv = pc.value();
    let v1 = c.times(d);
    let v2 = rc.times(t);
    let proj = v1.plus(v2);
    let q = proj.minus(pc);
    let image = proj.plus(q);
    let cd = cv * dv;
    let rt = rv * tv;
    assert(uu <= ru <= 128 * uu && 0x8_0000_0000_0000 * unit <= uu && 8192 * unit <= pow2(2097)
        && 2048 * uu <= pow2(2097) * unit) by (nonlinear_arith)
        requires
            unit <= reach <= 128 * unit,
            ru == reach * unit,
            uu == unit * unit,
            scales(unit, g, top),
            unit > 0,
    ;
    assert(-(8 * uu) <= cd <= 8 * uu) by (nonlinear_arith)
        requires
            -(2 * unit) <= cv <= 2 * unit,
            -(4 * unit) <= dv <= 4 * unit,
            cd == cv * dv,
            uu == unit * unit,
            unit > 0,
    ;
    assert(-(8 * ru + 2 * uu) <= rt <= 8 * ru + 2 * uu) by (nonlinear_arith)
        requires
            -(2 * unit) <= rv <= 2 * unit,
            -(4 * reach + unit) <= tv <= 4 * reach + unit,
            rt == rv * tv,
            uu == unit * unit,
            ru == reach * unit,
            unit > 0,
            reach > 0,
    ;
    assert(modulus(cd) <= 8 * uu && modulus(rt) <= 8 * ru + 2 * uu);
    // The two products.
    lemma_times_near(c, d);
    lemma_times_near(rc, t);
    let a = v1.value();
    let b = v2.value();
    let ea = a * unit - cd;
    let eb = b * unit - rt;
    assert(modulus(ea) * h <= 9 * uu && modulus(eb) * h <= 8 * ru + 3 * uu);
    lemma_two_sided(ea, h, 9 * uu);
    lemma_two_sided(eb, h, 8 * ru + 3 * uu);
    assert(9 * uu <= h * uu && 8 * ru + 3 * uu <= h * uu) by (nonlinear_arith)
        requires
            ru <= 128 * uu,
            uu >= 0,
            h == 0x10_0000_0000_0000,
    ;
    lemma_shrinks(ea, h, 9 * uu, uu);
    lemma_shrinks(eb, h, 8 * ru + 3 * uu, uu);
    assert(-(9 * unit) <= a <= 9 * unit) by (nonlinear_arith)
        requires
            -uu <= ea <= uu,
            ea == a * unit - cd,
            -(8 * uu) <= cd <= 8 * uu,
            uu == unit * unit,
            unit > 0,
    ;
    assert(-(8 * reach + 3 * unit) <= b <= 8 * reach + 3 * unit) by (nonlinear_arith)
        requires
            -uu <= eb <= uu,
            eb == b * unit - rt,
            -(8 * ru + 2 * uu) <= rt <= 8 * ru + 2 * uu,
            uu == unit * unit,
            ru == reach * unit,
            unit > 0,
    ;
    // Their sum.
    assert(modulus(a + b) <= 8 * reach + 12 * unit);
    lemma_plus_near(v1, v2);
    let pj = proj.value();
    let ec = pj - (a + b);
    assert(modulus(ec) * h <= 8 * reach + 12 * unit);
    lemma_two_sided(ec, h, 8 * reach + 12 * unit);
    assert(8 * reach + 12 * unit <= h * unit && 9 * reach + 13 * unit <= h * unit && 17 * reach
        + 27 * unit <= h * unit) by (nonlinear_arith)
        requires
            reach <= 128 * unit,
            unit > 0,
            h == 0x10_0000_0000_0000,
    ;
    lemma_shrinks(ec, h, 8 * reach + 12 * unit, unit);
    assert(-(8 * reach + 13 * unit) <= pj <= 8 * reach + 13 * unit);
    // Less the point.
    lemma_negation_keeps_magnitude(pc);
    assert(pc.negated().value() == -pv);
    assert(modulus(pj + pc.negated().value()) <= 9 * reach + 13 * unit);
    lemma_plus_near(proj, pc.negated());
    let qv = q.value();
    let ed = qv - (pj - pv);
    assert(modulus(ed) * h <= 9 * reach + 13 * unit);
    lemma_two_sided(ed, h, 9 * reach + 13 * unit);
    lemma_shrinks(ed, h, 9 * reach + 13 * unit, unit);
    assert(-(9 * reach + 14 * unit) <= qv <= 9 * reach + 14 * unit);
    // And the sum of the two.
    assert(modulus(pj + qv) <= 17 * reach + 27 * unit);
    lemma_plus_near(proj, q);
    let iv = image.value();
    let ee = iv - (pj + qv);
    assert(modulus(ee) * h <= 17 * reach + 27 * unit);
    lemma_two_sided(ee, h, 17 * reach + 27 * unit);
    lemma_shrinks(ee, h, 17 * reach + 27 * unit, unit);
    assert(-(17 * reach + 28 * unit) <= iv <= 17 * reach + 28 * unit);
    // What the image lacks to the exact one, term by term.
    let et = tv * unit - along;
    let exact = 2 * (cd * unit + rv * along) - pv * uu;
    let ruu = ru * unit;
    let uuu = uu * unit;
    let late = 2 * ec + ed + ee;
    assert(iv == 2 * a + 2 * b - pv + late);
    assert(iv * uu == 2 * (a * uu) + 2 * (b * uu) - pv * uu + late * uu) by (nonlinear_arith)
        requires
            iv == 2 * a + 2 * b - pv + late,
    ;
    assert(a * uu == cd * unit + ea * unit) by (nonlinear_arith)
        requires
            ea == a * unit - cd,
            uu == unit * unit,
    ;
    assert(b * uu == rt * unit + eb * unit) by (nonlinear_arith)
        requires
            eb == b * unit - rt,
            uu == unit * unit,
    ;
    assert(rt * unit == rv * along + rv * et) by (nonlinear_arith)
        requires
            rt == rv * tv,
            et == tv * unit - along,
    ;
    assert(iv * uu - exact == 2 * (ea * unit) + 2 * (eb * unit) + 2 * (rv * et) + late * uu);
    let eah = ea * h;
    let ebh = eb * h;
    let eth = et * h;
    let lh = late * h;
    assert(-(42 * reach + 64 * unit) <= lh <= 42 * reach + 64 * unit) by (nonlinear_arith)
        requires
            lh == late * h,
            late == 2 * ec + ed + ee,
            -(8 * reach + 12 * unit) <= ec * h <= 8 * reach + 12 * unit,
            -(9 * reach + 13 * unit) <= ed * h <= 9 * reach + 13 * unit,
            -(17 * reach + 27 * unit) <= ee * h <= 17 * reach + 27 * unit,
    ;
    assert(-(9 * uuu) <= eah * unit <= 9 * uuu && -(8 * ruu + 3 * uuu) <= ebh * unit <= 8 * ruu
        + 3 * uuu && -(42 * ruu + 64 * uuu) <= lh * uu <= 42 * ruu + 64 * uuu)
        by (nonlinear_arith)
        requires
            -(9 * uu) <= eah <= 9 * uu,
            -(8 * ru + 3 * uu) <= ebh <= 8 * ru + 3 * uu,
            -(42 * reach + 64 * unit) <= lh <= 42 * reach + 64 * unit,
            uu == unit * unit,
            ru == reach * unit,
            ruu == ru * unit,
            uuu == uu * unit,
            unit > 0,
    ;
    assert(-(18 * ruu + 6 * uuu) <= rv * eth <= 18 * ruu + 6 * uuu) by (nonlinear_arith)
        requires
            -(2 * unit) <= rv <= 2 * unit,
            -(9 * ru + 3 * uu) <= eth <= 9 * ru + 3 * uu,
            ruu == ru * unit,
            uuu == uu * unit,
            ru >= 0,
            uu >= 0,
            unit > 0,
    ;
    assert((ea * unit) * h == eah * unit && (eb * unit) * h == ebh * unit) by (nonlinear_arith)
        requires
            eah == ea * h,
            ebh == eb * h,
    ;
    assert((rv * et) * h == rv * eth && (late * uu) * h == lh * uu) by (nonlinear_arith)
        requires
            eth == et * h,
            lh == late * h,
    ;
    let x1 = ea * unit;
    let x2 = eb * unit;
    let x3 = rv * et;
    let x4 = late * uu;
    assert((2 * x1 + 2 * x2 + 2 * x3 + x4) * h == 2 * (x1 * h) + 2 * (x2 * h) + 2 * (x3 * h) + x4
        * h) by (nonlinear_arith);
    assert((iv * uu - exact) * h == 2 * (eah * unit) + 2 * (ebh * unit) + 2 * (rv * eth) + lh
        * uu);
    assert(ruu == reach * unit * unit && uuu == unit * unit * unit) by (nonlinear_arith)
        requires
            ruu == ru * unit,
            ru == reach * unit,
            uuu == uu * unit,
            uu == unit * unit,
    ;
    assert(cd * unit == cv * dv * unit);
}

/// The exact mirror image of a point in a line, as the numerators of its two
/// coordinates over the cube of 1: with `r` for the normal turned a quarter,
/// twice `u d + r (p . r)` less `p`.
pub open spec fn mirror_x(ux: int, uy: int, d: int, px: int, py: int, unit: int) -> int {
    2 * (ux * d * unit + (-uy) * (px * (-uy) + py * ux)) - px * (unit * unit)
}

pub open spec fn mirror_y(ux: int, uy: int, d: int, px: int, py: int, unit: int) -> int {
    2 * (uy * d * unit + ux * (px * (-uy) + py * ux)) - py * (unit * unit)
}

/// The mirror image of a point in a line, on doubles, against the exact
/// image: for a normal within 2, an offset within 4 and a point within
/// `reach`.
pub proof fn lemma_mirror_image(u: Vector, d: Scalar, p: Vector, reach: int)
    requires
        pow2(1074) <= reach <= 128 * pow2(1074),
        u.x.reaches(2 * (pow2(1074) as int)),
        u.y.reaches(2 * (pow2(1074) as int)),
        d.reaches(4 * (pow2(1074) as int)),
        p.x.reaches(reach),
        p.y.reaches(reach),
    ensures
        ({
            let image = (Line { u, d }).reflect_vector(p);
            let unit = pow2(1074) as int;
            let width = 94 * (reach * unit * unit) + 100 * (unit * unit * unit);
            let ex = mirror_x(u.x.value(), u.y.value(), d.value(), p.x.value(), p.y.value(), unit);
            let ey = mirror_y(u.x.value(), u.y.value(), d.value(), p.x.value(), p.y.value(), unit);
            &&& image.x.reaches(17 * reach + 28 * unit)
            &&& image.y.reaches(17 * reach + 28 * unit)
            &&& -width <= (image.x.value() * (unit * unit) - ex) * HIDDEN_BIT <= width
            &&& -width <= (image.y.value() * (unit * unit) - ey) * HIDDEN_BIT <= width
        }),
{
    let unit = pow2(1074) as int;
    let rot = u.rotate90();
    lemma_negation_keeps_magnitude(u.y);
    assert(rot.x.value() == -u.y.value());
    assert(rot.y.value() == u.x.value());
    lemma_along(p, rot, reach);
    let t = p.dot(rot);
    let along = p.x.value() * rot.x.value() + p.y.value() * rot.y.value();
    assert(9 * (reach * unit) + 3 * (unit * unit) == 9 * (reach * pow2(1074)) + 3 * (pow2(1074)
        * pow2(1074)));
    lemma_mirror_coordinate(u.x, rot.x, d, t, p.x, along, reach);
    lemma_mirror_coordinate(u.y, rot.y, d, t, p.y, along, reach);
}

/// The exact mirror image of a point in one coordinate: with `c` for that
/// coordinate of the normal, `rc` for that of the normal turned a quarter
/// and `pc` for that of the point.
pub open spec fn mirror_c(c: int, rc: int, d: int, along: int, pc: int, unit: int) -> int {
    2 * (c * d * unit + rc * along) - pc * (unit * unit)
}

/// What a point mirrored twice lacks to itself, exactly, in the coordinate
/// chosen by `c`, `rc`, `pc` and `ic`. With `(ix, iy)` for the first image
/// and `jc` for the coordinate of the second, as computed, and with what each
/// of them lacks to the exact mirror image of what it was computed from, the
/// difference between `jc` and the coordinate of the point is made up of
/// three terms: one that vanishes with the excess of the square of the normal
/// over 1, and the two shortfalls, the first of them mirrored.
proof fn lemma_twice_exact(
    ux: int,
    uy: int,
    d: int,
    px: int,
    py: int,
    ix: int,
    iy: int,
    unit: int,
    c: int,
    rc: int,
    pc: int,
    ic: int,
    jc: int,
)
    requires
        (c == ux && rc == -uy && pc == px && ic == ix) || (c == uy && rc == ux && pc == py && ic
            == iy),
    ensures
        ({
            let uu = unit * unit;
            let eta = ux * ux + uy * uy - uu;
            let along = px * (-uy) + py * ux;
            let dx = ix * uu - mirror_x(ux, uy, d, px, py, unit);
            let dy = iy * uu - mirror_y(ux, uy, d, px, py, unit);
            let dc = ic * uu - mirror_c(c, rc, d, along, pc, unit);
            let ec = jc * uu - mirror_c(c, rc, d, ix * (-uy) + iy * ux, ic, unit);
            (jc - pc) * (uu * uu) == 4 * (eta * (rc * along)) + (2 * (rc * (dx * (-uy) + dy * ux))
                - dc * uu) + ec * uu
        }),
{
    let uu = unit * unit;
    let sq = ux * ux + uy * uy;
    let eta = sq - uu;
    let r1 = -uy;
    let r2 = ux;
    let along = px * r1 + py * r2;
    let base_x = ux * d * unit;
    let base_y = uy * d * unit;
    let base_c = c * d * unit;
    let qx = 2 * (base_x + r1 * along) - px * uu;
    let qy = 2 * (base_y + r2 * along) - py * uu;
    let qc = 2 * (base_c + rc * along) - pc * uu;
    assert(qx == mirror_x(ux, uy, d, px, py, unit));
    assert(qy == mirror_y(ux, uy, d, px, py, unit));
    assert(qc == mirror_c(c, rc, d, along, pc, unit));
    let dx = ix * uu - qx;
    let dy = iy * uu - qy;
    let dc = ic * uu - qc;
    let along_i = ix * r1 + iy * r2;
    let mi = 2 * (base_c + rc * along_i) - ic * uu;
    assert(mi == mirror_c(c, rc, d, along_i, ic, unit));
    let ec = jc * uu - mi;
    // The normal and its quarter turn are at right angles.
    assert(base_x * r1 + base_y * r2 == 0) by (nonlinear_arith)
        requires
            base_x == ux * d * unit,
            base_y == uy * d * unit,
            r1 == -uy,
            r2 == ux,
    ;
    assert(r1 * r1 + r2 * r2 == sq) by (nonlinear_arith)
        requires
            r1 == -uy,
            r2 == ux,
            sq == ux * ux + uy * uy,
    ;
    // The exact image, taken along the line.
    let along_q = qx * r1 + qy * r2;
    let b1 = base_x * r1;
    let b2 = base_y * r2;
    let s11 = r1 * r1;
    let s22 = r2 * r2;
    let p1 = px * r1;
    let p2 = py * r2;
    assert(qx * r1 == 2 * b1 + 2 * (s11 * along) - p1 * uu) by (nonlinear_arith)
        requires
            qx == 2 * (base_x + r1 * along) - px * uu,
            b1 == base_x * r1,
            s11 == r1 * r1,
            p1 == px * r1,
    ;
    assert(qy * r2 == 2 * b2 + 2 * (s22 * along) - p2 * uu) by (nonlinear_arith)
        requires
            qy == 2 * (base_y + r2 * along) - py * uu,
            b2 == base_y * r2,
            s22 == r2 * r2,
            p2 == py * r2,
    ;
    assert(s11 * along + s22 * along == sq * along && p1 * uu + p2 * uu == along * uu)
        by (nonlinear_arith)
        requires
            s11 + s22 == sq,
            along == p1 + p2,
    ;
    assert(along * (2 * sq - uu) == 2 * (sq * along) - along * uu) by (nonlinear_arith);
    assert(along_q == along * (2 * sq - uu));
    // The exact image of the exact image.
    let m2 = 2 * (base_c * uu + rc * along_q) - qc * uu;
    assert(rc * along_q == (rc * along) * (2 * sq - uu)) by (nonlinear_arith)
        requires
            along_q == along * (2 * sq - uu),
    ;
    let ra = rc * along;
    assert(m2 == pc * (uu * uu) + 4 * (ra * eta)) by (nonlinear_arith)
        requires
            m2 == 2 * (base_c * uu + rc * along_q) - qc * uu,
            rc * along_q == ra * (2 * sq - uu),
            qc == 2 * (base_c + ra) - pc * uu,
            eta == sq - uu,
    ;
    // The image of the computed image against it.
    let along_d = dx * r1 + dy * r2;
    assert(along_i * uu == along_q + along_d) by (nonlinear_arith)
        requires
            along_i == ix * r1 + iy * r2,
            along_q == qx * r1 + qy * r2,
            along_d == dx * r1 + dy * r2,
            dx == ix * uu - qx,
            dy == iy * uu - qy,
    ;
    assert((rc * along_i) * uu == rc * along_q + rc * along_d) by (nonlinear_arith)
        requires
            along_i * uu == along_q + along_d,
    ;
    assert(mi * uu == m2 + (2 * (rc * along_d) - dc * uu)) by (nonlinear_arith)
        requires
            mi == 2 * (base_c + rc * along_i) - ic * uu,
            m2 == 2 * (base_c * uu + rc * along_q) - qc * uu,
            (rc * along_i) * uu == rc * along_q + rc * along_d,
            dc == ic * uu - qc,
    ;
    assert((jc - pc) * (uu * uu) == ec * uu + mi * uu - pc * (uu * uu)) by (nonlinear_arith)
        requires
            ec == jc * uu - mi,
    ;
    assert(ra * eta == eta * ra) by (nonlinear_arith);
}

/// The three terms that a point mirrored twice lacks to itself are small:
/// for a normal of unit length within one part in two to the thirty-second
/// and a point within 4, they add up to less than two to the minus 27.
proof fn lemma_twice_bound(
    ux: int,
    uy: int,
    px: int,
    py: int,
    unit: int,
    rc: int,
    dx: int,
    dy: int,
    dc: int,
    ec: int,
    diff: int,
)
    requires
        unit > 0,
        -(4 * unit) <= px <= 4 * unit,
        -(4 * unit) <= py <= 4 * unit,
        within(ux * ux + uy * uy, unit * unit, 0x1_0000_0000),
        rc == -uy || rc == ux,
        dc == dx || dc == dy,
        -(476 * (unit * unit * unit)) <= dx * HIDDEN_BIT <= 476 * (unit * unit * unit),
        -(476 * (unit * unit * unit)) <= dy * HIDDEN_BIT <= 476 * (unit * unit * unit),
        -(9124 * (unit * unit * unit)) <= ec * HIDDEN_BIT <= 9124 * (unit * unit * unit),
        diff * ((unit * unit) * (unit * unit)) == 4 * ((ux * ux + uy * uy - unit * unit) * (rc * (
        px * (-uy) + py * ux))) + (2 * (rc * (dx * (-uy) + dy * ux)) - dc * (unit * unit)) + ec
            * (unit * unit),
    ensures
        -unit <= diff * 0x800_0000 <= unit,
{
    let h = HIDDEN_BIT as int;
    let uu = unit * unit;
    let uuu = unit * unit * unit;
    let uu2 = uu * uu;
    let sq = ux * ux + uy * uy;
    let eta = sq - uu;
    let r1 = -uy;
    let r2 = ux;
    let along = px * r1 + py * r2;
    let two32: int = 0x1_0000_0000;
    assert(uu > 0 && uuu == uu * unit && uu2 > 0) by (nonlinear_arith)
        requires
            unit > 0,
            uu == unit * unit,
            uuu == unit * unit * unit,
            uu2 == uu * uu,
    ;
    assert(-uu <= eta * two32 <= uu);
    assert(0 <= sq && sq * two32 <= (two32 + 1) * uu && sq <= 2 * uu) by (nonlinear_arith)
        requires
            sq == ux * ux + uy * uy,
            -uu <= (sq - uu) * two32 <= uu,
            two32 == 0x1_0000_0000,
            uu > 0,
    ;
    // Twice the products of the turned normal with itself.
    let a1 = 2 * (rc * r1);
    let a2 = 2 * (rc * r2);
    let m12 = r1 * r2;
    assert(-sq <= 2 * m12 <= sq) by (nonlinear_arith)
        requires
            m12 == r1 * r2,
            sq == ux * ux + uy * uy,
            r1 == -uy,
            r2 == ux,
    ;
    assert(r1 * r1 == uy * uy && r2 * r2 == ux * ux && ux * ux >= 0 && uy * uy >= 0)
        by (nonlinear_arith)
        requires
            r1 == -uy,
            r2 == ux,
    ;
    assert(rc == r2 ==> rc * r1 == m12) by (nonlinear_arith)
        requires
            m12 == r1 * r2,
    ;
    let b1 = if rc == r1 {
        2 * (uy * uy)
    } else {
        sq
    };
    let b2 = if rc == r1 {
        sq
    } else {
        2 * (ux * ux)
    };
    assert(0 <= b1 && 0 <= b2 && -b1 <= a1 <= b1 && -b2 <= a2 <= b2 && b1 + b2 <= 3 * sq);
    // The first term: the excess of the normal, times the point along the line.
    let ra2 = 2 * (rc * along);
    assert(ra2 == px * a1 + py * a2) by (nonlinear_arith)
        requires
            ra2 == 2 * (rc * along),
            along == px * r1 + py * r2,
            a1 == 2 * (rc * r1),
            a2 == 2 * (rc * r2),
    ;
    assert(-(12 * (unit * sq)) <= ra2 <= 12 * (unit * sq)) by (nonlinear_arith)
        requires
            ra2 == px * a1 + py * a2,
            -(4 * unit) <= px <= 4 * unit,
            -(4 * unit) <= py <= 4 * unit,
            -b1 <= a1 <= b1,
            -b2 <= a2 <= b2,
            0 <= b1,
            0 <= b2,
            b1 + b2 <= 3 * sq,
            unit > 0,
    ;
    let first = 4 * (eta * (rc * along));
    assert(first == 2 * (eta * ra2)) by (nonlinear_arith)
        requires
            first == 4 * (eta * (rc * along)),
            ra2 == 2 * (rc * along),
    ;
    let us = unit * sq;
    let et = eta * two32;
    assert(-(24 * (uu * us)) <= first * two32 <= 24 * (uu * us)) by (nonlinear_arith)
        requires
            first == 2 * (eta * ra2),
            et == eta * two32,
            -uu <= et <= uu,
            -(12 * us) <= ra2 <= 12 * us,
            us >= 0,
            uu > 0,
    ;
    assert(us >= 0 && (uu * us) * two32 <= (two32 + 1) * (unit * uu2)) by (nonlinear_arith)
        requires
            us == unit * sq,
            0 <= sq,
            sq * two32 <= (two32 + 1) * uu,
            uu2 == uu * uu,
            unit > 0,
            uu > 0,
    ;
    let big = unit * uu2;
    let lead = first * two32;
    assert(-(24 * ((two32 + 1) * big)) <= lead * two32 <= 24 * ((two32 + 1) * big))
        by (nonlinear_arith)
        requires
            -(24 * (uu * us)) <= lead <= 24 * (uu * us),
            (uu * us) * two32 <= (two32 + 1) * big,
            two32 == 0x1_0000_0000,
    ;
    // The second term: the first shortfall, mirrored.
    let second = 2 * (rc * (dx * r1 + dy * r2)) - dc * uu;
    assert(second == dx * a1 + dy * a2 - dc * uu) by (nonlinear_arith)
        requires
            second == 2 * (rc * (dx * r1 + dy * r2)) - dc * uu,
            a1 == 2 * (rc * r1),
            a2 == 2 * (rc * r2),
    ;
    let dxh = dx * h;
    let dyh = dy * h;
    let dch = dc * h;
    let wide = 476 * uuu;
    let y1 = dx * a1;
    let y2 = dy * a2;
    let y3 = dc * uu;
    assert(y1 * h == dxh * a1) by (nonlinear_arith)
        requires
            y1 == dx * a1,
            dxh == dx * h,
    ;
    assert(y2 * h == dyh * a2) by (nonlinear_arith)
        requires
            y2 == dy * a2,
            dyh == dy * h,
    ;
    assert(y3 * h == dch * uu) by (nonlinear_arith)
        requires
            y3 == dc * uu,
            dch == dc * h,
    ;
    assert((y1 + y2 - y3) * h == y1 * h + y2 * h - y3 * h) by (nonlinear_arith);
    assert(second * h == dxh * a1 + dyh * a2 - dch * uu);
    assert(-(wide * (3 * sq + uu)) <= second * h <= wide * (3 * sq + uu)) by (nonlinear_arith)
        requires
            second * h == dxh * a1 + dyh * a2 - dch * uu,
            -wide <= dxh <= wide,
            -wide <= dyh <= wide,
            -wide <= dch <= wide,
            -b1 <= a1 <= b1,
            -b2 <= a2 <= b2,
            0 <= b1,
            0 <= b2,
            b1 + b2 <= 3 * sq,
            uu > 0,
            wide >= 0,
    ;
    assert(wide * (3 * sq + uu) <= 3332 * big) by (nonlinear_arith)
        requires
            wide == 476 * uuu,
            uuu == uu * unit,
            big == unit * uu2,
            uu2 == uu * uu,
            0 <= sq <= 2 * uu,
            unit > 0,
            uu > 0,
    ;
    // The third term: the second shortfall.
    let third = ec * uu;
    let ech = ec * h;
    assert(third * h == ech * uu && -(9124 * big) <= ech * uu <= 9124 * big) by (nonlinear_arith)
        requires
            third == ec * uu,
            ech == ec * h,
            -(9124 * uuu) <= ech <= 9124 * uuu,
            uuu == uu * unit,
            big == unit * uu2,
            uu2 == uu * uu,
            uu > 0,
    ;
    // All three, in parts of two to the minus 64.
    let two64 = two32 * two32;
    let sh = second * h;
    let th = third * h;
    assert(diff * uu2 == first + second + third);
    assert((diff * uu2) * two64 == lead * two32 + (sh + th) * 4096) by (nonlinear_arith)
        requires
            diff * uu2 == first + second + third,
            lead == first * two32,
            sh == second * h,
            th == third * h,
            two64 == two32 * two32,
            two32 == 0x1_0000_0000,
            h == 0x10_0000_0000_0000,
    ;
    let total = (diff * uu2) * two64;
    assert(-(0x20_0000_0000 * big) <= total <= 0x20_0000_0000 * big) by (nonlinear_arith)
        requires
            total == lead * two32 + (sh + th) * 4096,
            -(24 * ((two32 + 1) * big)) <= lead * two32 <= 24 * ((two32 + 1) * big),
            -(3332 * big) <= sh <= 3332 * big,
            -(9124 * big) <= th <= 9124 * big,
            two32 == 0x1_0000_0000,
            big >= 0,
    ;
    assert(-unit <= diff * 0x800_0000 <= unit) by (nonlinear_arith)
        requires
            total == (diff * uu2) * two64,
            -(0x20_0000_0000 * big) <= total <= 0x20_0000_0000 * big,
            big == unit * uu2,
            two64 == 0x1_0000_0000 * 0x1_0000_0000,
            uu2 > 0,
            unit > 0,
    ;
}

impl Line {
    /// Whether the line has a normal of unit length within one part in two
    /// to the thirty-second, by the exact sum of the squares of its components,
    /// and an offset within 4.
    pub open spec fn steady(self) -> bool {
        &&& !self.u.x.nan()
        &&& !self.u.x.infinite()
        &&& !self.u.y.nan()
        &&& !self.u.y.infinite()
        &&& within(
            self.u.x.value() * self.u.x.value() + self.u.y.value() * self.u.y.value(),
            (pow2(1074) * pow2(1074)) as int,
            0x1_0000_0000,
        )
        &&& self.d.reaches(4 * (pow2(1074) as int))
    }
}

/// Mirroring a point twice in one line gives the point back, within the
/// tolerance, in both coordinates. This is shown for steady lines and for
/// points with coordinates within 4.
pub proof fn lemma_reflect_twice(l: Line, p: Vector)
    requires
        l.steady(),
        p.x.reaches(4 * (pow2(1074) as int)),
        p.y.reaches(4 * (pow2(1074) as int)),
    ensures
        l.reflect_vector(l.reflect_vector(p)).equivalent(p),
{
    let unit = pow2(1074) as int;
    let uu = unit * unit;
    let uuu = unit * unit * unit;
    let h = HIDDEN_BIT as int;
    let ux = l.u.x.value();
    let uy = l.u.y.value();
    let d = l.d.value();
    let px = p.x.value();
    let py = p.y.value();
    lemma_pow2_pos(1074);
    // The components of the normal are within 2.
    assert(-(2 * unit) <= ux <= 2 * unit && -(2 * unit) <= uy <= 2 * unit) by (nonlinear_arith)
        requires
            within(ux * ux + uy * uy, unit * unit, 0x1_0000_0000),
            unit > 0,
    ;
    let line = Line { u: l.u, d: l.d };
    assert(line == l);
    let first = l.reflect_vector(p);
    lemma_mirror_image(l.u, l.d, p, 4 * unit);
    let ix = first.x.value();
    let iy = first.y.value();
    assert(17 * (4 * unit) + 28 * unit == 96 * unit);
    let second = l.reflect_vector(first);
    lemma_mirror_image(l.u, l.d, first, 96 * unit);
    let jx = second.x.value();
    let jy = second.y.value();
    assert(94 * ((4 * unit) * unit * unit) + 100 * (unit * unit * unit) == 476 * uuu)
        by (nonlinear_arith)
        requires
            uuu == unit * unit * unit,
    ;
    assert(94 * ((96 * unit) * unit * unit) + 100 * (unit * unit * unit) == 9124 * uuu)
        by (nonlinear_arith)
        requires
            uuu == unit * unit * unit,
    ;
    let along = px * (-uy) + py * ux;
    let along_i = ix * (-uy) + iy * ux;
    let dx = ix * uu - mirror_x(ux, uy, d, px, py, unit);
    let dy = iy * uu - mirror_y(ux, uy, d, px, py, unit);
    let ex = jx * uu - mirror_x(ux, uy, d, ix, iy, unit);
    let ey = jy * uu - mirror_y(ux, uy, d, ix, iy, unit);
    assert(mirror_c(ux, -uy, d, along, px, unit) == mirror_x(ux, uy, d, px, py, unit));
    assert(mirror_c(uy, ux, d, along, py, unit) == mirror_y(ux, uy, d, px, py, unit));
    assert(mirror_c(ux, -uy, d, along_i, ix, unit) == mirror_x(ux, uy, d, ix, iy, unit));
    assert(mirror_c(uy, ux, d, along_i, iy, unit) == mirror_y(ux, uy, d, ix, iy, unit));
    lemma_twice_exact(ux, uy, d, px, py, ix, iy, unit, ux, -uy, px, ix, jx);
    lemma_twice_exact(ux, uy, d, px, py, ix, iy, unit, uy, ux, py, iy, jy);
    lemma_twice_bound(ux, uy, px, py, unit, -uy, dx, dy, dx, ex, jx - px);
    lemma_twice_bound(ux, uy, px, py, unit, ux, dx, dy, dy, ey, jy - py);
    lemma_close_is_negligible(second.x, p.x);
    lemma_close_is_negligible(second.y, p.y);
}

} // verus!
