//! Finite pieces of a line.
use crate::scalar::Scalar;
use crate::vector::Vector;
use vstd::prelude::*;

verus! {

/// The piece of a line between two end points. Which end comes first has no
/// meaning.
#[derive(Clone, Copy, Debug, PartialEq, Eq, Structural)]
pub struct Segment {
    pub a: Vector,
    pub b: Vector,
}

impl Segment {
    /// The direction from the first end to the second.
    pub open spec fn span(&self) -> Vector {
        self.b.subtract(self.a)
    }

    /// Whether a point, taken along the segment from its first end, lies on
    /// the segment, its two ends included.
    pub open spec fn reaches(&self, p: Vector) -> bool {
        let t = self.span().normalize().dot(p.subtract(self.a));
        Scalar::zero().at_most(t) && t.at_most(self.span().magnitude())
    }

    /// Whether an end of one of the two segments lies on the other. For
    /// collinear segments this is to overlap, be it partly, wholly or in one
    /// shared end point.
    pub open spec fn spec_quick_overlap(&self, b: Segment) -> bool {
        b.reaches(self.a) || b.reaches(self.b) || self.reaches(b.a) || self.reaches(b.b)
    }

    /// The segment between these two points.
    pub fn new(a: Vector, b: Vector) -> (r: Segment)
        ensures
            r.a == a,
            r.b == b,
    {
        Segment { a, b }
    }

    /// Whether two segments that are known to be collinear overlap.
    #[verifier::when_used_as_spec(spec_quick_overlap)]
    pub fn quick_overlap(&self, b: Segment) -> (r: bool)
        ensures
            r == self.spec_quick_overlap(b),
    {
        let zero: Scalar = Scalar::zero();
        let vec_a: Vector = self.b.subtract(self.a);
        let mag_a: Scalar = vec_a.magnitude();
        let norm_a: Vector = vec_a.normalize();
        let vec_b: Vector = b.b.subtract(b.a);
        let mag_b: Scalar = vec_b.magnitude();
        let norm_b: Vector = vec_b.normalize();
        let aa: Scalar = norm_b.dot(self.a.subtract(b.a));
        let ab: Scalar = norm_b.dot(self.b.subtract(b.a));
        let ba: Scalar = norm_a.dot(b.a.subtract(self.a));
        let bb: Scalar = norm_a.dot(b.b.subtract(self.a));
        let t1: bool = aa.ge(zero) && aa.le(mag_b);
        let t2: bool = ab.ge(zero) && ab.le(mag_b);
        let t3: bool = ba.ge(zero) && ba.le(mag_a);
        let t4: bool = bb.ge(zero) && bb.le(mag_a);
        t1 || t2 || t3 || t4
    }
}

/// Whether two segments overlap does not depend on which of them comes
/// first.
pub proof fn lemma_overlap_either_order(a: Segment, b: Segment)
    ensures
        a.quick_overlap(b) == b.quick_overlap(a),
{
}

} // verus!
