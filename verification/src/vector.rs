//! Points and directions of the plane.
use crate::algebra::{
    lemma_minus_opposes, lemma_plus_commutes, lemma_plus_opposite, lemma_plus_respects,
    lemma_same_number_chains, lemma_times_commutes, lemma_times_opposite, lemma_times_respects,
};
use crate::scalar::{Scalar, lemma_negation_involutive, lemma_negation_keeps_magnitude};
use vstd::prelude::*;

verus! {

/// A point or a direction; which of the two is for the caller to know.
#[derive(Clone, Copy, Debug, PartialEq, Eq, Structural)]
pub struct Vector {
    pub x: Scalar,
    pub y: Scalar,
}

impl Vector {
    /// The square of the length: `x * x + y * y`.
    pub open spec fn spec_magnitude_squared(&self) -> Scalar {
        self.x.times(self.x).plus(self.y.times(self.y))
    }

    /// The length: the root of `x * x + y * y`.
    pub open spec fn spec_magnitude(&self) -> Scalar {
        self.spec_magnitude_squared().root()
    }

    /// The inner product: `x * u.x + y * u.y`.
    pub open spec fn spec_dot(&self, u: Vector) -> Scalar {
        self.x.times(u.x).plus(self.y.times(u.y))
    }

    /// The determinant of the two vectors as columns: `x * u.y - y * u.x`.
    pub open spec fn spec_determinant(&self, u: Vector) -> Scalar {
        self.x.times(u.y).minus(self.y.times(u.x))
    }

    /// The sum, component by component.
    pub open spec fn spec_add(&self, u: Vector) -> Vector {
        Vector { x: self.x.plus(u.x), y: self.y.plus(u.y) }
    }

    /// The difference, component by component.
    pub open spec fn spec_subtract(&self, u: Vector) -> Vector {
        Vector { x: self.x.minus(u.x), y: self.y.minus(u.y) }
    }

    /// The distance of two points: the length of their difference.
    pub open spec fn spec_distance_to(&self, u: Vector) -> Scalar {
        self.spec_subtract(u).spec_magnitude()
    }

    /// The vector with both components multiplied by `t`.
    pub open spec fn spec_scale(&self, t: Scalar) -> Vector {
        Vector { x: self.x.times(t), y: self.y.times(t) }
    }

    /// The length to divide by when a vector of the given length is brought
    /// to unit length: the length itself, or `1.0` where the length is under
    /// the tolerance, so that a vanishing vector stays as it is.
    pub open spec fn safe_length(magnitude: Scalar) -> Scalar {
        if magnitude.below(Scalar::epsilon()) {
            Scalar::one()
        } else {
            magnitude
        }
    }

    /// The vector divided by its length, or by `1.0` where its length is under
    /// the tolerance.
    pub open spec fn spec_normalize(&self) -> Vector {
        let m = Self::safe_length(self.spec_magnitude());
        Vector { x: self.x.over(m), y: self.y.over(m) }
    }

    /// The vector pointing the other way.
    pub open spec fn spec_flip(&self) -> Vector {
        Vector { x: self.x.negated(), y: self.y.negated() }
    }

    /// The vector turned a quarter counter-clockwise: `(x, y)` to `(-y, x)`.
    pub open spec fn spec_rotate90(&self) -> Vector {
        Vector { x: self.y.negated(), y: self.x }
    }

    /// The vector turned a quarter clockwise: `(x, y)` to `(y, -x)`.
    pub open spec fn spec_rotate270(&self) -> Vector {
        Vector { x: self.y, y: self.x.negated() }
    }

    /// The point halfway between two points.
    pub open spec fn spec_midpoint(&self, u: Vector) -> Vector {
        Vector {
            x: self.x.plus(u.x).over(Scalar::whole(2)),
            y: self.y.plus(u.y).over(Scalar::whole(2)),
        }
    }

    /// Whether the vector vanishes: `|x| + |y|` is under the tolerance.
    pub open spec fn spec_degenerate(&self) -> bool {
        self.x.absolute().plus(self.y.absolute()).below(Scalar::epsilon())
    }

    /// Whether a number lies strictly between minus the tolerance and the
    /// tolerance.
    pub open spec fn negligible(t: Scalar) -> bool {
        t.below(Scalar::epsilon()) && Scalar::epsilon().negated().below(t)
    }

    /// Whether two vectors agree within the tolerance in each component.
    pub open spec fn spec_equivalent(&self, u: Vector) -> bool {
        Self::negligible(self.x.minus(u.x)) && Self::negligible(self.y.minus(u.y))
    }

    /// Whether two directions are parallel or anti-parallel: the absolute
    /// cosine of the angle between them is within the tolerance of 1.
    pub open spec fn spec_parallel(&self, u: Vector) -> bool {
        Scalar::one().minus(self.spec_normalize().spec_dot(u.spec_normalize()).absolute()).below(
            Scalar::epsilon(),
        )
    }

    /// The vector with these components.
    pub fn new(x: Scalar, y: Scalar) -> (r: Vector)
        ensures
            r.x == x,
            r.y == y,
    {
        Vector { x, y }
    }

    /// The length.
    #[verifier::when_used_as_spec(spec_magnitude)]
    pub fn magnitude(&self) -> (r: Scalar)
        ensures
            r == self.spec_magnitude(),
    {
        self.x.mul(self.x).add(self.y.mul(self.y)).sqrt()
    }

    /// The square of the length.
    #[verifier::when_used_as_spec(spec_magnitude_squared)]
    pub fn magnitude_squared(&self) -> (r: Scalar)
        ensures
            r == self.spec_magnitude_squared(),
    {
        self.x.mul(self.x).add(self.y.mul(self.y))
    }

    /// The inner product.
    #[verifier::when_used_as_spec(spec_dot)]
    pub fn dot(&self, u: Vector) -> (r: Scalar)
        ensures
            r == self.spec_dot(u),
    {
        self.x.mul(u.x).add(self.y.mul(u.y))
    }

    /// The determinant of the two vectors as columns: positive where `u` lies
    /// counter-clockwise of the vector.
    #[verifier::when_used_as_spec(spec_determinant)]
    pub fn determinant(&self, u: Vector) -> (r: Scalar)
        ensures
            r == self.spec_determinant(u),
    {
        self.x.mul(u.y).sub(self.y.mul(u.x))
    }

    /// The distance of two points.
    #[verifier::when_used_as_spec(spec_distance_to)]
    pub fn distance_to(&self, u: Vector) -> (r: Scalar)
        ensures
            r == self.spec_distance_to(u),
    {
        self.subtract(u).magnitude()
    }

    /// The vector brought to unit length. A vector whose length is under the
    /// tolerance is divided by `1.0` instead, and so stays as it is.
    #[verifier::when_used_as_spec(spec_normalize)]
    pub fn normalize(&self) -> (r: Vector)
        ensures
            r == self.spec_normalize(),
    {
        let mut m: Scalar = self.magnitude();
        if m.lt(Scalar::epsilon()) {
            m = Scalar::one();
        }
        Vector { x: self.x.div(m), y: self.y.div(m) }
    }

    /// The vector with both components multiplied by `t`.
    #[verifier::when_used_as_spec(spec_scale)]
    pub fn scale(&self, t: Scalar) -> (r: Vector)
        ensures
            r == self.spec_scale(t),
    {
        Vector { x: self.x.mul(t), y: self.y.mul(t) }
    }

    /// The sum of two vectors.
    #[verifier::when_used_as_spec(spec_add)]
    pub fn add(&self, u: Vector) -> (r: Vector)
        ensures
            r == self.spec_add(u),
    {
        Vector { x: self.x.add(u.x), y: self.y.add(u.y) }
    }

    /// The difference of two vectors.
    #[verifier::when_used_as_spec(spec_subtract)]
    pub fn subtract(&self, u: Vector) -> (r: Vector)
        ensures
            r == self.spec_subtract(u),
    {
        Vector { x: self.x.sub(u.x), y: self.y.sub(u.y) }
    }

    /// Both components negated.
    #[verifier::when_used_as_spec(spec_flip)]
    pub fn flip(&self) -> (r: Vector)
        ensures
            r == self.spec_flip(),
    {
        Vector { x: self.x.neg(), y: self.y.neg() }
    }

    /// A quarter turn counter-clockwise.
    #[verifier::when_used_as_spec(spec_rotate90)]
    pub fn rotate90(&self) -> (r: Vector)
        ensures
            r == self.spec_rotate90(),
    {
        Vector { x: self.y.neg(), y: self.x }
    }

    /// A quarter turn clockwise.
    #[verifier::when_used_as_spec(spec_rotate270)]
    pub fn rotate270(&self) -> (r: Vector)
        ensures
            r == self.spec_rotate270(),
    {
        Vector { x: self.y, y: self.x.neg() }
    }

    /// The point halfway between two points.
    #[verifier::when_used_as_spec(spec_midpoint)]
    pub fn midpoint(&self, u: Vector) -> (r: Vector)
        ensures
            r == self.spec_midpoint(u),
    {
        let two: Scalar = Scalar::whole(2);
        Vector { x: self.x.add(u.x).div(two), y: self.y.add(u.y).div(two) }
    }

    /// Whether the vector vanishes.
    #[verifier::when_used_as_spec(spec_degenerate)]
    pub fn degenerate(&self) -> (r: bool)
        ensures
            r == self.spec_degenerate(),
    {
        self.x.abs().add(self.y.abs()).lt(Scalar::epsilon())
    }

    /// Whether two vectors agree within the tolerance in each component.
    #[verifier::when_used_as_spec(spec_equivalent)]
    pub fn equivalent(&self, u: Vector) -> (r: bool)
        ensures
            r == self.spec_equivalent(u),
    {
        let low: Scalar = Scalar::epsilon().neg();
        let dx: Scalar = self.x.sub(u.x);
        let dy: Scalar = self.y.sub(u.y);
        dx.lt(Scalar::epsilon()) && dx.gt(low) && dy.lt(Scalar::epsilon()) && dy.gt(low)
    }

    /// Whether two directions are parallel or anti-parallel.
    #[verifier::when_used_as_spec(spec_parallel)]
    pub fn parallel(&self, u: Vector) -> (r: bool)
        ensures
            r == self.spec_parallel(u),
    {
        Scalar::one().sub(self.normalize().dot(u.normalize()).abs()).lt(Scalar::epsilon())
    }
}

/// Flipping twice gives the vector back, bit for bit.
pub proof fn lemma_flip_twice(v: Vector)
    ensures
        v.flip().flip() == v,
{
    lemma_negation_involutive(v.x);
    lemma_negation_involutive(v.y);
}

/// Two quarter turns, either way, are a flip.
pub proof fn lemma_half_turn(v: Vector)
    ensures
        v.rotate90().rotate90() == v.flip(),
        v.rotate270().rotate270() == v.flip(),
{
}

/// Four quarter turns give the vector back, bit for bit.
pub proof fn lemma_full_turn(v: Vector)
    ensures
        v.rotate90().rotate90().rotate90().rotate90() == v,
{
    lemma_negation_involutive(v.x);
    lemma_negation_involutive(v.y);
}

/// A quarter turn one way and a quarter turn back give the vector back, bit
/// for bit, in either order.
pub proof fn lemma_turn_and_back(v: Vector)
    ensures
        v.rotate90().rotate270() == v,
        v.rotate270().rotate90() == v,
{
    lemma_negation_involutive(v.x);
    lemma_negation_involutive(v.y);
}

impl Vector {
    /// Whether two vectors are one point: their components are one number
    /// each.
    pub open spec fn same_point(self, other: Vector) -> bool {
        self.x.same_number(other.x) && self.y.same_number(other.y)
    }
}

/// Sum, difference, scaling and inner product are one whichever patterns
/// write the numbers that go into them.
pub proof fn lemma_vector_arithmetic_respects(
    v1: Vector,
    u1: Vector,
    t1: Scalar,
    v2: Vector,
    u2: Vector,
    t2: Scalar,
)
    requires
        v1.same_point(v2),
        u1.same_point(u2),
        t1.same_number(t2),
    ensures
        v1.add(u1).same_point(v2.add(u2)),
        v1.subtract(u1).same_point(v2.subtract(u2)),
        v1.scale(t1).same_point(v2.scale(t2)),
        v1.dot(u1).same_number(v2.dot(u2)),
{
    lemma_plus_respects(v1.x, u1.x, v2.x, u2.x);
    lemma_plus_respects(v1.y, u1.y, v2.y, u2.y);
    lemma_same_number_chains(u1.x, u2.x, u2.x);
    lemma_same_number_chains(u1.y, u2.y, u2.y);
    lemma_plus_respects(v1.x, u1.x.negated(), v2.x, u2.x.negated());
    lemma_plus_respects(v1.y, u1.y.negated(), v2.y, u2.y.negated());
    lemma_times_respects(v1.x, t1, v2.x, t2);
    lemma_times_respects(v1.y, t1, v2.y, t2);
    lemma_times_respects(v1.x, u1.x, v2.x, u2.x);
    lemma_times_respects(v1.y, u1.y, v2.y, u2.y);
    lemma_plus_respects(v1.x.times(u1.x), v1.y.times(u1.y), v2.x.times(u2.x), v2.y.times(u2.y));
}

/// The inner product with the opposite of a vector is the opposite of the
/// inner product, and scaling the opposite of a vector by the opposite of a
/// number is scaling the vector by the number.
pub proof fn lemma_vector_arithmetic_opposite(v: Vector, u: Vector, t: Scalar)
    ensures
        v.dot(u.flip()).same_number(v.dot(u).negated()),
        v.flip().scale(t.negated()).same_point(v.scale(t)),
{
    lemma_times_opposite(v.x, u.x);
    lemma_times_opposite(v.y, u.y);
    lemma_plus_opposite(v.x.times(u.x), v.y.times(u.y));
    lemma_plus_respects(
        v.x.times(u.x.negated()),
        v.y.times(u.y.negated()),
        v.x.times(u.x).negated(),
        v.y.times(u.y).negated(),
    );
    lemma_same_number_chains(
        v.dot(u.flip()),
        v.x.times(u.x).negated().plus(v.y.times(u.y).negated()),
        v.dot(u).negated(),
    );
    lemma_times_opposite(v.x, t);
    lemma_times_opposite(v.y, t);
}

/// A quarter turn or a flip keeps the length of a vector, bit for bit.
pub proof fn lemma_turn_keeps_length(v: Vector)
    ensures
        v.rotate90().magnitude() == v.magnitude(),
        v.rotate270().magnitude() == v.magnitude(),
        v.flip().magnitude() == v.magnitude(),
{
    lemma_negation_keeps_magnitude(v.x);
    lemma_negation_keeps_magnitude(v.y);
    lemma_plus_commutes(v.x.times(v.x), v.y.times(v.y));
}

/// The inner product does not depend on the order of the two vectors.
pub proof fn lemma_dot_commutes(v: Vector, u: Vector)
    ensures
        v.dot(u) == u.dot(v),
{
    lemma_times_commutes(v.x, u.x);
    lemma_times_commutes(v.y, u.y);
}

/// Whether two vectors agree within the tolerance does not depend on their
/// order.
pub proof fn lemma_equivalent_symmetric(v: Vector, u: Vector)
    ensures
        v.equivalent(u) == u.equivalent(v),
{
    lemma_negligible_opposite(v.x.minus(u.x), u.x.minus(v.x));
    lemma_negligible_opposite(v.y.minus(u.y), u.y.minus(v.y));
    lemma_minus_opposes(v.x, u.x);
    lemma_minus_opposes(v.y, u.y);
}

/// Opposite numbers are within the tolerance of zero together.
proof fn lemma_negligible_opposite(t: Scalar, back: Scalar)
    ensures
        back.same_number(t.negated()) ==> Vector::negligible(back) == Vector::negligible(t),
{
    lemma_negation_keeps_magnitude(t);
    lemma_negation_keeps_magnitude(Scalar::epsilon());
}

} // verus!
