//! Lines in normal form.
use crate::algebra::{
    lemma_minus_opposes, lemma_over_opposites, lemma_same_number, lemma_same_number_chains,
    lemma_times_commutes,
};
use crate::scalar::{
    Scalar, lemma_negation_involutive, lemma_negation_keeps_magnitude, lemma_thresholds_ordered,
};
use crate::segment::Segment;
use crate::vector::{Vector, lemma_vector_arithmetic_opposite, lemma_vector_arithmetic_respects};
use vstd::prelude::*;

verus! {

/// The line of the points `p` with `u . p = d`, for a unit normal `u`. The
/// pairs `(u, d)` and `(-u, -d)` are the same line, and neither is preferred.
#[derive(Clone, Copy, Debug, PartialEq, Eq, Structural)]
pub struct Line {
    pub u: Vector,
    pub d: Scalar,
}

impl Line {
    /// The point where two lines meet, by Cramer's rule on their two
    /// equations: none where the determinant of the two normals is within
    /// the tolerance of zero, be the lines parallel or one and the same.
    pub open spec fn spec_intersect(&self, l: Line) -> Option<Vector> {
        let det = self.u.determinant(l.u);
        if det.absolute().below(Scalar::epsilon()) {
            None
        } else {
            let x = self.d.times(l.u.y).minus(l.d.times(self.u.y));
            let y = l.d.times(self.u.x).minus(self.d.times(l.u.x));
            Some(Vector { x: x.over(det), y: y.over(det) })
        }
    }

    /// Whether two normal forms describe one line: the normals are parallel,
    /// and the offsets agree once the second is scaled by the product of the
    /// normals, which is `-1` for opposite normals.
    pub open spec fn spec_equivalent(&self, l: Line) -> bool {
        &&& self.u.dot(l.u.rotate90()).absolute().below(Scalar::epsilon())
        &&& self.d.minus(l.d.times(self.u.dot(l.u))).absolute().below(Scalar::epsilon())
    }

    /// The mirror image of a point: twice its projection onto the line, less
    /// the point. The projection is the foot of the line, `u * d`, plus the
    /// part of the point along the line.
    pub open spec fn spec_reflect_vector(&self, p: Vector) -> Vector {
        let v1 = self.u.scale(self.d);
        let rot90 = self.u.rotate90();
        let v2 = rot90.scale(p.dot(rot90));
        let projection = v1.add(v2);
        projection.add(projection.subtract(p))
    }

    /// The mirror image of a segment: that of its two ends.
    pub open spec fn spec_reflect_segment(&self, s: Segment) -> Segment {
        Segment { a: self.spec_reflect_vector(s.a), b: self.spec_reflect_vector(s.b) }
    }

    /// The other normal form of the line: normal and offset both negated.
    pub open spec fn reversed(&self) -> Line {
        Line { u: self.u.flip(), d: self.d.negated() }
    }

    /// The line with this normal and this offset.
    pub fn new(u: Vector, d: Scalar) -> (r: Line)
        ensures
            r.u == u,
            r.d == d,
    {
        Line { u, d }
    }

    /// The point where two lines meet, if they are not parallel.
    #[verifier::when_used_as_spec(spec_intersect)]
    pub fn intersect(&self, l: Line) -> (r: Option<Vector>)
        ensures
            r == self.spec_intersect(l),
    {
        let det: Scalar = self.u.determinant(l.u);
        if det.abs().lt(Scalar::epsilon()) {
            return None;
        }
        let x: Scalar = self.d.mul(l.u.y).sub(l.d.mul(self.u.y));
        let y: Scalar = l.d.mul(self.u.x).sub(self.d.mul(l.u.x));
        Some(Vector { x: x.div(det), y: y.div(det) })
    }

    /// Whether two normal forms describe one line.
    #[verifier::when_used_as_spec(spec_equivalent)]
    pub fn equivalent(&self, l: Line) -> (r: bool)
        ensures
            r == self.spec_equivalent(l),
    {
        self.u.dot(l.u.rotate90()).abs().lt(Scalar::epsilon()) && self.d.sub(
            l.d.mul(self.u.dot(l.u)),
        ).abs().lt(Scalar::epsilon())
    }

    /// The mirror image of a point in the line.
    #[verifier::when_used_as_spec(spec_reflect_vector)]
    pub fn reflect_vector(&self, p: Vector) -> (r: Vector)
        ensures
            r == self.spec_reflect_vector(p),
    {
        let v1: Vector = self.u.scale(self.d);
        let rot90: Vector = self.u.rotate90();
        let v2: Vector = rot90.scale(p.dot(rot90));
        let projection: Vector = v1.add(v2);
        projection.add(projection.subtract(p))
    }

    /// The mirror image of a segment in the line.
    #[verifier::when_used_as_spec(spec_reflect_segment)]
    pub fn reflect_segment(&self, s: Segment) -> (r: Segment)
        ensures
            r == self.spec_reflect_segment(s),
    {
        Segment { a: self.reflect_vector(s.a), b: self.reflect_vector(s.b) }
    }
}

/// Where two lines meet does not depend on the order in which they are
/// taken: either way there is a point or none, and the points are one in
/// both coordinates.
pub proof fn lemma_intersect_symmetric(a: Line, b: Line)
    ensures
        a.intersect(b).is_some() == b.intersect(a).is_some(),
        a.intersect(b).is_some() ==> {
            &&& a.intersect(b).unwrap().x.same_number(b.intersect(a).unwrap().x)
            &&& a.intersect(b).unwrap().y.same_number(b.intersect(a).unwrap().y)
        },
{
    let det = a.u.determinant(b.u);
    let back = b.u.determinant(a.u);
    lemma_times_commutes(a.u.x, b.u.y);
    lemma_times_commutes(a.u.y, b.u.x);
    lemma_minus_opposes(a.u.x.times(b.u.y), a.u.y.times(b.u.x));
    assert(back.same_number(det.negated()));
    lemma_negation_keeps_magnitude(det);
    if !det.nan() {
        lemma_same_number(det.negated(), back);
    }
    assert(det.absolute().below(Scalar::epsilon()) == back.absolute().below(Scalar::epsilon()));
    if a.intersect(b).is_some() {
        let x = a.d.times(b.u.y).minus(b.d.times(a.u.y));
        let y = b.d.times(a.u.x).minus(a.d.times(b.u.x));
        lemma_minus_opposes(a.d.times(b.u.y), b.d.times(a.u.y));
        lemma_minus_opposes(b.d.times(a.u.x), a.d.times(b.u.x));
        assert(!det.vanishes()) by {
            if det.vanishes() {
                lemma_thresholds_ordered();
                assert(det.absolute() == Scalar::zero());
            }
        }
        lemma_over_opposites(x, det, b.d.times(a.u.y).minus(a.d.times(b.u.y)), back);
        lemma_over_opposites(y, det, a.d.times(b.u.x).minus(b.d.times(a.u.x)), back);
    }
}

/// Either normal form of a line mirrors a point into one and the same point.
pub proof fn lemma_reflect_vector_either_form(l: Line, p: Vector)
    ensures
        l.reversed().reflect_vector(p).same_point(l.reflect_vector(p)),
{
    let back = l.reversed();
    let v1 = l.u.scale(l.d);
    let rot90 = l.u.rotate90();
    let t = p.dot(rot90);
    let v2 = rot90.scale(t);
    let w1 = back.u.scale(back.d);
    let turned = back.u.rotate90();
    let s = p.dot(turned);
    let w2 = turned.scale(s);
    lemma_negation_involutive(l.u.y);
    assert(turned == rot90.flip());
    lemma_vector_arithmetic_opposite(l.u, l.u, l.d);
    assert(w1.same_point(v1));
    lemma_vector_arithmetic_opposite(p, rot90, t);
    assert(s.same_number(t.negated()));
    lemma_vector_arithmetic_opposite(rot90, rot90, t);
    lemma_same_number_chains(rot90.flip().x, rot90.flip().x, rot90.flip().x);
    lemma_same_number_chains(rot90.flip().y, rot90.flip().y, rot90.flip().y);
    lemma_vector_arithmetic_respects(rot90.flip(), p, s, rot90.flip(), p, t.negated());
    lemma_same_number_chains(w2.x, rot90.flip().scale(t.negated()).x, v2.x);
    lemma_same_number_chains(w2.y, rot90.flip().scale(t.negated()).y, v2.y);
    assert(w2.same_point(v2));
    lemma_vector_arithmetic_respects(w1, w2, t, v1, v2, t);
    let projection = v1.add(v2);
    let shadow = w1.add(w2);
    lemma_same_number_chains(p.x, p.x, p.x);
    lemma_same_number_chains(p.y, p.y, p.y);
    lemma_vector_arithmetic_respects(shadow, p, t, projection, p, t);
    lemma_vector_arithmetic_respects(
        shadow,
        shadow.subtract(p),
        t,
        projection,
        projection.subtract(p),
        t,
    );
}

} // verus!
