//! The seven Huzita-Justin axioms: the folds that each construction yields on
//! a sheet, in the order in which the construction derives them.
use crate::line::Line;
use crate::polynomial::{Cardano, Radicals, cardano, polynomial, polynomial_degree, spec_polynomial};
use crate::rect::Rect;
use crate::scalar::Scalar;
use crate::segment::Segment;
use crate::through::lemma_line_through_holds_both;
use crate::vector::Vector;
use vstd::prelude::*;

verus! {

/// The coefficients of `a x^3 + b x^2 + c x + d`.
#[derive(Clone, Copy, Debug, PartialEq, Eq, Structural)]
pub struct Coefficients {
    pub a: Scalar,
    pub b: Scalar,
    pub c: Scalar,
    pub d: Scalar,
}

/// The one fold, or none.
pub open spec fn one_if(holds: bool, fold: Line) -> Seq<Line> {
    if holds {
        seq![fold]
    } else {
        Seq::empty()
    }
}

/// The line through two points: its normal is their difference turned a
/// quarter, and its offset the mean of their offsets along that normal.
pub open spec fn line_through(a: Vector, b: Vector) -> Line {
    let u = b.subtract(a).rotate90().normalize();
    Line { u, d: a.add(b).dot(u).over(Scalar::whole(2)) }
}

/// The perpendicular bisector of two points: its normal is their difference,
/// and its offset the mean of their offsets along that normal.
pub open spec fn bisector_of(a: Vector, b: Vector) -> Line {
    let u = b.subtract(a).normalize();
    Line { u, d: a.add(b).dot(u).over(Scalar::whole(2)) }
}

/// The fold through two points, if both lie on the sheet.
pub open spec fn spec_axiom1(a: Vector, b: Vector, boundary: Rect) -> Seq<Line> {
    one_if(boundary.contains(a) && boundary.contains(b), line_through(a, b))
}

/// The fold that brings one point onto another, if both lie on the sheet.
pub open spec fn spec_axiom2(a: Vector, b: Vector, boundary: Rect) -> Seq<Line> {
    one_if(boundary.contains(a) && boundary.contains(b), bisector_of(a, b))
}

/// The fold midway between two lines that do not meet: the normal of the
/// first, and the mean of its offset and the offset of the second taken
/// along that normal.
pub open spec fn midway(a: Line, b: Line) -> Line {
    Line { u: a.u, d: a.d.plus(b.d.times(a.u.dot(b.u))).over(Scalar::whole(2)) }
}

/// The line through a point with a normal brought to unit length.
pub open spec fn line_at(p: Vector, normal: Vector) -> Line {
    let u = normal.normalize();
    Line { u, d: p.dot(u) }
}

/// Whether a fold brings the piece of one line onto that of another on the
/// sheet: a piece of the fold lies on the sheet, and the first piece, folded
/// over, overlaps the second.
pub open spec fn fits(fold: Line, piece_a: Segment, piece_b: Segment, boundary: Rect) -> bool {
    boundary.clip(fold).is_some() && fold.reflect_segment(piece_a).quick_overlap(piece_b)
}

/// The folds that bring one line onto another. Without a piece of both lines
/// on the sheet there is none. Lines that do not meet have the one fold midway
/// between them. Lines that meet have the two bisectors of their angles
/// through the meeting point, with the sum and the difference of the normals
/// for normals, each of them if it fits.
pub open spec fn spec_axiom3(a: Line, b: Line, boundary: Rect) -> Seq<Line> {
    match (boundary.clip(a), boundary.clip(b)) {
        (Some(piece_a), Some(piece_b)) => match a.intersect(b) {
            Some(p) => {
                let first = line_at(p, a.u.add(b.u));
                let second = line_at(p, a.u.subtract(b.u));
                one_if(fits(first, piece_a, piece_b, boundary), first) + one_if(
                    fits(second, piece_a, piece_b, boundary),
                    second,
                )
            },
            None => seq![midway(a, b)],
        },
        _ => Seq::empty(),
    }
}

/// The line through a point at right angles to a line.
pub open spec fn perpendicular(a: Vector, b: Line) -> Line {
    let u = b.u.rotate90();
    Line { u, d: a.dot(u) }
}

/// The fold through a point at right angles to a line, if a piece of it lies
/// on the sheet and so does the point reached from the given point by going
/// along the fold's normal as far as the point is from the line.
pub open spec fn spec_axiom4(a: Vector, b: Line, boundary: Rect) -> Seq<Line> {
    let fold = perpendicular(a, b);
    let dist = b.d.minus(a.dot(b.u));
    let mark = a.add(fold.u.scale(dist));
    one_if(boundary.contains(mark) && boundary.clip(fold).is_some(), fold)
}

/// The fold through `p1` that brings `p2` onto the point `mirror`, if that
/// point lies on the sheet.
pub open spec fn fold_onto(p1: Vector, p2: Vector, mirror: Vector, boundary: Rect) -> Seq<Line> {
    one_if(boundary.contains(mirror), line_at(p1, p2.subtract(mirror)))
}

/// The folds through one point that bring another onto a line. With the
/// distance from the first point to the line for one leg and the distance
/// between the points for hypotenuse, a line out of reach gives none. Else
/// the point lands where the other leg ends: on the foot of the first leg
/// where the other leg is under the tolerance, else to either side of it.
pub open spec fn spec_axiom5(p1: Vector, p2: Vector, l: Line, boundary: Rect) -> Seq<Line> {
    let a = l.d.minus(p1.dot(l.u));
    let c = p1.distance_to(p2);
    if c.below(a) {
        Seq::empty()
    } else {
        let b = c.times(c).minus(a.times(a)).root();
        let base_center = p1.add(l.u.scale(a));
        let base_vector = l.u.rotate90().scale(b);
        if b.below(Scalar::epsilon()) {
            fold_onto(p1, p2, base_center, boundary)
        } else {
            fold_onto(p1, p2, base_center.add(base_vector), boundary) + fold_onto(
                p1,
                p2,
                base_center.subtract(base_vector),
                boundary,
            )
        }
    }
}

/// The polynomial whose roots are the places along the first line onto which
/// a fold can bring the first point while it brings the second point onto the
/// second line.
pub open spec fn spec_axiom6_polynomial(p1: Vector, p2: Vector, l1: Line, l2: Line) -> Coefficients {
    let line_vec = l1.u.rotate90();
    let vec1 = p1.add(l1.u.scale(l1.d)).subtract(p2.scale(Scalar::whole(2)));
    let vec2 = l1.u.scale(l1.d).subtract(p1);
    let c1 = p2.dot(l2.u).minus(l2.d);
    let c2 = Scalar::whole(2).times(vec2.dot(line_vec));
    let c3 = vec2.dot(vec2);
    let c4 = vec1.add(vec2).dot(line_vec);
    let c5 = vec1.dot(vec2);
    let c6 = line_vec.dot(l2.u);
    let c7 = vec2.dot(l2.u);
    Coefficients {
        a: c6,
        b: c1.plus(c4.times(c6)).plus(c7),
        c: c1.times(c2).plus(c5.times(c6)).plus(c4.times(c7)),
        d: c1.times(c3).plus(c5.times(c7)),
    }
}

/// The fold that brings `p1` onto the point of `l1` at the place `n`, if
/// that point lies on the sheet and so does the point onto which the fold
/// brings `p2`.
pub open spec fn fold_at(p1: Vector, p2: Vector, l1: Line, n: Scalar, boundary: Rect) -> Seq<Line> {
    let first = l1.u.scale(l1.d).add(l1.u.rotate90().scale(n));
    let u = first.subtract(p1).normalize();
    let fold = Line { u, d: u.dot(first.midpoint(p1)) };
    let second = p2.add(fold.u.scale(Scalar::whole(2).times(fold.d.minus(p2.dot(fold.u)))));
    one_if(boundary.contains(first) && boundary.contains(second), fold)
}

/// The folds at the given places, in their order.
pub open spec fn folds_at(
    p1: Vector,
    p2: Vector,
    l1: Line,
    places: Seq<Scalar>,
    boundary: Rect,
) -> Seq<Line>
    decreases places.len(),
{
    if places.len() == 0 {
        Seq::empty()
    } else {
        folds_at(p1, p2, l1, places.drop_last(), boundary) + fold_at(
            p1,
            p2,
            l1,
            places.last(),
            boundary,
        )
    }
}

/// Whether a point is as good as on a line: the ratio of its offset along
/// the normal to the offset of the line is within `0.02` of 1.
pub open spec fn close_to(p: Vector, l: Line) -> bool {
    Scalar::one().minus(l.u.dot(p).over(l.d)).absolute().below(Scalar::proximity())
}

/// The folds that bring two points onto two lines, one for each real root of
/// the polynomial of the construction: none where the first point is as good
/// as on its line.
pub open spec fn spec_axiom6(
    p1: Vector,
    p2: Vector,
    l1: Line,
    l2: Line,
    boundary: Rect,
    radicals: Radicals,
) -> Seq<Line> {
    if close_to(p1, l1) {
        Seq::empty()
    } else {
        let k = spec_axiom6_polynomial(p1, p2, l1, l2);
        let roots = spec_polynomial(polynomial_degree(k.a, k.b, k.c), k.a, k.b, k.c, k.d, radicals);
        folds_at(p1, p2, l1, roots, boundary)
    }
}

/// The fold at right angles to `l1` that brings `p` onto `l2`: none where
/// the fold's normal is at right angles to that of `l2` within the tolerance,
/// the two lines then being parallel. Else the image of the point must lie on
/// the sheet, the fold must meet `l1` on the sheet, and the two places must
/// differ.
pub open spec fn spec_axiom7(p: Vector, l1: Line, l2: Line, boundary: Rect) -> Seq<Line> {
    let u = l1.u.rotate90();
    let u_u = u.dot(l2.u);
    if u_u.absolute().below(Scalar::epsilon()) {
        Seq::empty()
    } else {
        let a = p.dot(u);
        let b = p.dot(l2.u);
        let d = l2.d.plus(Scalar::whole(2).times(a).times(u_u)).minus(b).over(
            Scalar::whole(2).times(u_u),
        );
        let fold = Line { u, d };
        let image = fold.reflect_vector(p);
        one_if(
            boundary.contains(image) && match fold.intersect(l1) {
                Some(foot) => boundary.contains(foot) && !image.equivalent(foot),
                None => false,
            },
            fold,
        )
    }
}

/// The fold through two points: for two points of the sheet it is one line,
/// along whose normal both points have one offset within the tolerance.
pub fn axiom1(a: Vector, b: Vector, boundary: Rect) -> (r: Vec<Line>)
    ensures
        r@ == spec_axiom1(a, b, boundary),
        r@.len() <= 1,
        boundary.contains(a) && boundary.contains(b) ==> {
            &&& r@.len() == 1
            &&& r@[0] == line_through(a, b)
            &&& Vector::negligible(b.dot(r@[0].u).minus(a.dot(r@[0].u)))
        },
{
    let mut folds: Vec<Line> = Vec::new();
    if boundary.contains(a) && boundary.contains(b) {
        let u: Vector = b.subtract(a).rotate90().normalize();
        let d: Scalar = a.add(b).dot(u).div(Scalar::whole(2));
        folds.push(Line { u, d });
        proof {
            lemma_line_through_holds_both(a, b, boundary);
        }
    }
    assert(folds@ =~= spec_axiom1(a, b, boundary));
    folds
}

/// The fold that brings one point onto another.
pub fn axiom2(a: Vector, b: Vector, boundary: Rect) -> (r: Vec<Line>)
    ensures
        r@ == spec_axiom2(a, b, boundary),
        r@.len() <= 1,
        boundary.contains(a) && boundary.contains(b) ==> r@.len() == 1 && r@[0] == bisector_of(
            a,
            b,
        ),
{
    let mut folds: Vec<Line> = Vec::new();
    if boundary.contains(a) && boundary.contains(b) {
        let u: Vector = b.subtract(a).normalize();
        let d: Scalar = a.add(b).dot(u).div(Scalar::whole(2));
        folds.push(Line { u, d });
    }
    assert(folds@ =~= spec_axiom2(a, b, boundary));
    folds
}

/// The folds that bring one line onto another.
pub fn axiom3(a: Line, b: Line, boundary: Rect) -> (r: Vec<Line>)
    ensures
        r@ == spec_axiom3(a, b, boundary),
        r@.len() <= 2,
{
    let mut folds: Vec<Line> = Vec::new();
    let seg_a: Option<Segment> = boundary.clip(a);
    let seg_b: Option<Segment> = boundary.clip(b);
    match (seg_a, seg_b) {
        (Some(piece_a), Some(piece_b)) => {
            match a.intersect(b) {
                Some(p) => {
                    let u1: Vector = a.u.add(b.u).normalize();
                    let u2: Vector = a.u.subtract(b.u).normalize();
                    let first: Line = Line { u: u1, d: p.dot(u1) };
                    let second: Line = Line { u: u2, d: p.dot(u2) };
                    if boundary.clip(first).is_some() && first.reflect_segment(
                        piece_a,
                    ).quick_overlap(piece_b) {
                        folds.push(first);
                    }
                    if boundary.clip(second).is_some() && second.reflect_segment(
                        piece_a,
                    ).quick_overlap(piece_b) {
                        folds.push(second);
                    }
                },
                None => {
                    folds.push(
                        Line { u: a.u, d: a.d.add(b.d.mul(a.u.dot(b.u))).div(Scalar::whole(2)) },
                    );
                },
            }
        },
        _ => {},
    }
    assert(folds@ =~= spec_axiom3(a, b, boundary));
    folds
}

/// The fold through a point at right angles to a line.
pub fn axiom4(a: Vector, b: Line, boundary: Rect) -> (r: Vec<Line>)
    ensures
        r@ == spec_axiom4(a, b, boundary),
        r@.len() <= 1,
{
    let u: Vector = b.u.rotate90();
    let d: Scalar = a.dot(u);
    let solution: Line = Line { u, d };
    let dist: Scalar = b.d.sub(a.dot(b.u));
    let vector: Vector = u.scale(dist);
    let point: Vector = a.add(vector);
    let test1: bool = boundary.contains(point);
    let test2: bool = boundary.clip(solution).is_some();
    single(test1 && test2, solution)
}

/// The folds through `p1` that bring `p2` onto the line `l`.
pub fn axiom5(p1: Vector, p2: Vector, l: Line, boundary: Rect) -> (r: Vec<Line>)
    ensures
        r@ == spec_axiom5(p1, p2, l, boundary),
        r@.len() <= 2,
{
    let mut folds: Vec<Line> = Vec::new();
    let p1base: Scalar = p1.dot(l.u);
    let a: Scalar = l.d.sub(p1base);
    let c: Scalar = p1.distance_to(p2);
    if a.gt(c) {
        return folds;
    }
    let b: Scalar = c.mul(c).sub(a.mul(a)).sqrt();
    let a_vec: Vector = l.u.scale(a);
    let base_center: Vector = p1.add(a_vec);
    let base_vector: Vector = l.u.rotate90().scale(b);
    if b.lt(Scalar::epsilon()) {
        if boundary.contains(base_center) {
            let u: Vector = p2.subtract(base_center).normalize();
            folds.push(Line { u, d: p1.dot(u) });
        }
    } else {
        let first: Vector = base_center.add(base_vector);
        let second: Vector = base_center.subtract(base_vector);
        if boundary.contains(first) {
            let u: Vector = p2.subtract(first).normalize();
            folds.push(Line { u, d: p1.dot(u) });
        }
        if boundary.contains(second) {
            let u: Vector = p2.subtract(second).normalize();
            folds.push(Line { u, d: p1.dot(u) });
        }
    }
    assert(folds@ =~= spec_axiom5(p1, p2, l, boundary));
    folds
}

/// The polynomial of the construction that brings `p1` onto `l1` and `p2`
/// onto `l2`.
#[verifier::when_used_as_spec(spec_axiom6_polynomial)]
pub fn axiom6_polynomial(p1: Vector, p2: Vector, l1: Line, l2: Line) -> (k: Coefficients)
    ensures
        k == spec_axiom6_polynomial(p1, p2, l1, l2),
{
    let line_vec: Vector = l1.u.rotate90();
    let vec1: Vector = p1.add(l1.u.scale(l1.d)).subtract(p2.scale(Scalar::whole(2)));
    let vec2: Vector = l1.u.scale(l1.d).subtract(p1);
    let c1: Scalar = p2.dot(l2.u).sub(l2.d);
    let c2: Scalar = Scalar::whole(2).mul(vec2.dot(line_vec));
    let c3: Scalar = vec2.dot(vec2);
    let c4: Scalar = vec1.add(vec2).dot(line_vec);
    let c5: Scalar = vec1.dot(vec2);
    let c6: Scalar = line_vec.dot(l2.u);
    let c7: Scalar = vec2.dot(l2.u);
    Coefficients {
        a: c6,
        b: c1.add(c4.mul(c6)).add(c7),
        c: c1.mul(c2).add(c5.mul(c6)).add(c4.mul(c7)),
        d: c1.mul(c3).add(c5.mul(c7)),
    }
}

/// The cubic of the construction, reduced: it holds the angle of which
/// `axiom6` wants the cosine and the sine.
pub fn axiom6_cardano(p1: Vector, p2: Vector, l1: Line, l2: Line) -> (k: Cardano)
    ensures
        ({
            let p = spec_axiom6_polynomial(p1, p2, l1, l2);
            k == cardano(p.a, p.b, p.c, p.d)
        }),
{
    let p: Coefficients = axiom6_polynomial(p1, p2, l1, l2);
    cardano(p.a, p.b, p.c, p.d)
}

/// The folds that bring `p1` onto `l1` and `p2` onto `l2`. `radicals` holds
/// the cosine and the sine that belong to `axiom6_cardano(p1, p2, l1, l2)`;
/// they are read where the polynomial of the construction is a cubic with
/// three real roots.
pub fn axiom6(p1: Vector, p2: Vector, l1: Line, l2: Line, boundary: Rect, radicals: Radicals) -> (r:
    Vec<Line>)
    ensures
        r@ == spec_axiom6(p1, p2, l1, l2, boundary, radicals),
        r@.len() <= 3,
        close_to(p1, l1) ==> r@.len() == 0,
{
    let mut lines: Vec<Line> = Vec::new();
    if Scalar::one().sub(l1.u.dot(p1).div(l1.d)).abs().lt(Scalar::proximity()) {
        return lines;
    }
    let line_vec: Vector = l1.u.rotate90();
    let k: Coefficients = axiom6_polynomial(p1, p2, l1, l2);
    let degree: u8 = polynomial_degree(k.a, k.b, k.c);
    let roots: Vec<Scalar> = polynomial(degree, k.a, k.b, k.c, k.d, radicals);
    let mut i: usize = 0;
    while i < roots.len()
        invariant
            i <= roots.len(),
            line_vec == l1.u.rotate90(),
            lines@ == folds_at(p1, p2, l1, roots@.take(i as int), boundary),
            lines@.len() <= i,
        decreases roots.len() - i,
    {
        let n: Scalar = roots[i];
        proof {
            assert(roots@.take(i + 1).drop_last() =~= roots@.take(i as int));
            assert(roots@.take(i + 1).last() == n);
        }
        let mirror1: Vector = l1.u.scale(l1.d).add(line_vec.scale(n));
        let u: Vector = mirror1.subtract(p1).normalize();
        let solution: Line = Line { u, d: u.dot(mirror1.midpoint(p1)) };
        let mirror2: Vector = p2.add(
            solution.u.scale(Scalar::whole(2).mul(solution.d.sub(p2.dot(solution.u)))),
        );
        if boundary.contains(mirror1) && boundary.contains(mirror2) {
            lines.push(solution);
        }
        i = i + 1;
    }
    assert(roots@.take(i as int) =~= roots@);
    lines
}

/// The fold at right angles to `l1` that brings `p` onto `l2`.
pub fn axiom7(p: Vector, l1: Line, l2: Line, boundary: Rect) -> (r: Vec<Line>)
    ensures
        r@ == spec_axiom7(p, l1, l2, boundary),
        r@.len() <= 1,
        l1.u.rotate90().dot(l2.u).absolute().below(Scalar::epsilon()) ==> r@.len() == 0,
{
    let u: Vector = l1.u.rotate90();
    let u_u: Scalar = u.dot(l2.u);
    if u_u.abs().lt(Scalar::epsilon()) {
        return Vec::new();
    }
    let a: Scalar = p.dot(u);
    let b: Scalar = p.dot(l2.u);
    let d: Scalar = l2.d.add(Scalar::whole(2).mul(a).mul(u_u)).sub(b).div(
        Scalar::whole(2).mul(u_u),
    );
    let solution: Line = Line { u, d };
    let intersect: Option<Vector> = solution.intersect(l1);
    let reflection: Vector = solution.reflect_vector(p);
    let test1: bool = boundary.contains(reflection);
    let rest: bool = match intersect {
        Some(foot) => boundary.contains(foot) && !reflection.equivalent(foot),
        None => false,
    };
    single(test1 && rest, solution)
}

/// The folds that bring one of two meeting lines onto the other have for
/// normals the sum and the difference of the two normals, brought to unit
/// length: each fold that the axiom gives has one of these two, and where it
/// gives both, the sum comes first.
pub proof fn lemma_axiom3_normals(a: Line, b: Line, boundary: Rect)
    requires
        a.intersect(b).is_some(),
    ensures
        ({
            let folds = spec_axiom3(a, b, boundary);
            let sum = a.u.add(b.u).normalize();
            let difference = a.u.subtract(b.u).normalize();
            &&& folds.len() <= 2
            &&& forall|i: int|
                0 <= i < folds.len() ==> (#[trigger] folds[i]).u == sum || folds[i].u == difference
            &&& folds.len() == 2 ==> folds[0].u == sum && folds[1].u == difference
        }),
{
}

/// The one fold, or none.
fn single(holds: bool, fold: Line) -> (r: Vec<Line>)
    ensures
        r@ == one_if(holds, fold),
        r@.len() <= 1,
        holds ==> r@.len() == 1,
{
    let mut folds: Vec<Line> = Vec::new();
    if holds {
        folds.push(fold);
    }
    assert(folds@ =~= one_if(holds, fold));
    folds
}

} // verus!
