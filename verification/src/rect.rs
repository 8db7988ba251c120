//! The sheet of paper.
use crate::algebra::{lemma_plus_zero, lemma_times_commutes, lemma_times_one, lemma_times_zero};
use crate::bounds::lemma_infinity_is_large;
use crate::outward_sides;
use crate::line::Line;
use crate::scalar::{Scalar, lemma_negation_keeps_magnitude, lemma_thresholds_ordered};
use crate::segment::Segment;
use crate::vector::Vector;
use vstd::arithmetic::power2::{lemma_pow2_pos, lemma_pow2_strictly_increases, pow2};
use vstd::prelude::*;

verus! {

/// A sheet bounded by four lines, in the order bottom, right, top, left.
#[derive(Clone, Copy, Debug)]
pub struct Rect {
    pub sides: [Line; 4],
}

/// The least of the positions, as a left-to-right scan finds it: the first
/// position, replaced whenever a later one is below the least so far.
pub open spec fn least(ts: Seq<Scalar>) -> Scalar
    recommends
        ts.len() > 0,
    decreases ts.len(),
{
    if ts.len() <= 1 {
        ts[0]
    } else {
        let so_far = least(ts.drop_last());
        if ts.last().below(so_far) {
            ts.last()
        } else {
            so_far
        }
    }
}

/// The greatest of the positions, as a left-to-right scan finds it.
pub open spec fn greatest(ts: Seq<Scalar>) -> Scalar
    recommends
        ts.len() > 0,
    decreases ts.len(),
{
    if ts.len() <= 1 {
        ts[0]
    } else {
        let so_far = greatest(ts.drop_last());
        if so_far.below(ts.last()) {
            ts.last()
        } else {
            so_far
        }
    }
}

impl Rect {
    /// Whether a point lies on the sheet, edges included. The sheet is the
    /// unit square: both coordinates from `0.0` to `1.0`. The sides are not
    /// read; `spec_encloses` reads them.
    pub open spec fn spec_contains(&self, p: Vector) -> bool {
        &&& Scalar::zero().at_most(p.x)
        &&& p.x.at_most(Scalar::one())
        &&& Scalar::zero().at_most(p.y)
        &&& p.y.at_most(Scalar::one())
    }

    /// Whether a point lies on a line or behind it: along the normal of the
    /// line the point stands at the offset of the line at most.
    pub open spec fn behind(side: Line, p: Vector) -> bool {
        side.u.dot(p).at_most(side.d)
    }

    /// Whether a point lies behind every side or on it. For a sheet whose
    /// sides all have their normal pointing away from it, these are the
    /// points of the sheet, edges included.
    pub open spec fn spec_encloses(&self, p: Vector) -> bool {
        forall|i: int| 0 <= i < 4 ==> Self::behind(#[trigger] self.sides@[i], p)
    }

    /// The position along a line of a point of it: the distance from the
    /// foot of the line, `u * d`, in the direction of the normal turned a
    /// quarter.
    pub open spec fn position(l: Line, p: Vector) -> Scalar {
        p.subtract(l.u.scale(l.d)).dot(l.u.rotate90())
    }

    /// The positions along a line of the points where it meets the first `n`
    /// sides, as far as those points lie on the sheet, in the order of the
    /// sides.
    pub open spec fn crossings(&self, l: Line, n: nat) -> Seq<Scalar>
        decreases n,
    {
        if n == 0 || n > 4 {
            Seq::empty()
        } else {
            let rest = self.crossings(l, (n - 1) as nat);
            match self.sides@[n - 1].intersect(l) {
                Some(p) => if self.contains(p) {
                    rest.push(Self::position(l, p))
                } else {
                    rest
                },
                None => rest,
            }
        }
    }

    /// The piece of a line on the sheet: none unless the line meets the
    /// sides in two points at least that lie on the sheet; then the piece
    /// between the outermost of these, and none where the piece is shorter
    /// than the tolerance.
    pub open spec fn spec_clip(&self, l: Line) -> Option<Segment> {
        let ts = self.crossings(l, 4);
        if ts.len() < 2 {
            None
        } else {
            let min = least(ts);
            let max = greatest(ts);
            if max.minus(min).below(Scalar::epsilon()) {
                None
            } else {
                let origin = l.u.scale(l.d);
                let vector = l.u.rotate90();
                Some(
                    Segment {
                        a: origin.add(vector.scale(min)),
                        b: origin.add(vector.scale(max)),
                    },
                )
            }
        }
    }

    /// Whether a point lies on the sheet, edges included.
    #[verifier::when_used_as_spec(spec_contains)]
    pub fn contains(&self, p: Vector) -> (r: bool)
        ensures
            r == self.spec_contains(p),
    {
        p.x.ge(Scalar::zero()) && p.x.le(Scalar::one()) && p.y.ge(Scalar::zero()) && p.y.le(
            Scalar::one(),
        )
    }

    /// Whether a point lies behind every side or on it.
    #[verifier::when_used_as_spec(spec_encloses)]
    pub fn encloses(&self, p: Vector) -> (r: bool)
        ensures
            r == self.spec_encloses(p),
    {
        let mut i: usize = 0;
        while i < 4
            invariant
                i <= 4,
                forall|j: int| 0 <= j < i ==> Self::behind(#[trigger] self.sides@[j], p),
            decreases 4 - i,
        {
            let side: Line = self.sides[i];
            if !side.u.dot(p).le(side.d) {
                return false;
            }
            i += 1;
        }
        true
    }

    /// The piece of a line on the sheet.
    #[verifier::when_used_as_spec(spec_clip)]
    pub fn clip(&self, l: Line) -> (r: Option<Segment>)
        ensures
            r == self.spec_clip(l),
    {
        let origin: Vector = l.u.scale(l.d);
        let vector: Vector = l.u.rotate90();
        let mut count: usize = 0;
        let mut min: Scalar = Scalar::zero();
        let mut max: Scalar = Scalar::zero();
        let mut i: usize = 0;
        while i < 4
            invariant
                i <= 4,
                origin == l.u.scale(l.d),
                vector == l.u.rotate90(),
                count == self.crossings(l, i as nat).len(),
                count <= i,
                count > 0 ==> min == least(self.crossings(l, i as nat)),
                count > 0 ==> max == greatest(self.crossings(l, i as nat)),
            decreases 4 - i,
        {
            let side: Line = self.sides[i];
            let hit: Option<Vector> = side.intersect(l);
            let ghost before = self.crossings(l, i as nat);
            let ghost after = self.crossings(l, (i + 1) as nat);
            match hit {
                Some(p) => {
                    if self.contains(p) {
                        let t: Scalar = p.subtract(origin).dot(vector);
                        proof {
                            assert(after == before.push(t));
                            assert(after.drop_last() =~= before);
                            assert(after.last() == t);
                        }
                        if count == 0 {
                            min = t;
                            max = t;
                        } else {
                            if t.lt(min) {
                                min = t;
                            }
                            if max.lt(t) {
                                max = t;
                            }
                        }
                        count = count + 1;
                    }
                },
                None => {},
            }
            i = i + 1;
        }
        if count < 2 {
            return None;
        }
        if max.sub(min).lt(Scalar::epsilon()) {
            return None;
        }
        Some(Segment { a: origin.add(vector.scale(min)), b: origin.add(vector.scale(max)) })
    }
}

/// The points on the sheet are those whose coordinates, taken as numbers, lie
/// between zero and one: in units of two to the minus 1074, between 0 and two
/// to the 1074.
pub proof fn lemma_contains_is_unit_square(sheet: Rect, p: Vector)
    ensures
        sheet.contains(p) <==> {
            &&& !p.x.nan()
            &&& !p.y.nan()
            &&& 0 <= p.x.value() <= pow2(1074)
            &&& 0 <= p.y.value() <= pow2(1074)
        },
{
    lemma_thresholds_ordered();
}

/// On the unit square with every normal pointing away from it, the points
/// behind all four sides are the points of the sheet: reading the sides and
/// comparing the coordinates with zero and one decide alike, for every point,
/// the infinite ones and the NaNs included.
pub proof fn lemma_encloses_is_contains(square: Rect, sheet: Rect, p: Vector)
    requires
        square.sides@ == outward_sides(),
    ensures
        square.encloses(p) == sheet.contains(p),
{
    let zero = Scalar::zero();
    let one = Scalar::one();
    let bottom = square.sides@[0];
    let right = square.sides@[1];
    let top = square.sides@[2];
    let left = square.sides@[3];
    lemma_thresholds_ordered();
    lemma_infinity_is_large();
    lemma_pow2_strictly_increases(1074, 2098);
    lemma_pow2_pos(1074);
    assert(Scalar::undefined().nan());
    if p.x.nan() || p.y.nan() {
        assert(!Rect::behind(bottom, p));
    } else if p.x.infinite() {
        assert(!Rect::behind(bottom, p));
    } else if p.y.infinite() {
        assert(!Rect::behind(right, p));
    } else {
        lemma_times_zero(p.x, zero);
        lemma_times_zero(p.y, zero);
        lemma_times_one(p.x);
        lemma_times_one(p.y);
        lemma_times_commutes(one, p.x);
        lemma_times_commutes(one, p.y);
        lemma_times_commutes(one.negated(), p.x);
        lemma_times_commutes(one.negated(), p.y);
        lemma_negation_keeps_magnitude(p.x);
        lemma_negation_keeps_magnitude(p.y);
        lemma_plus_zero(p.y.negated(), zero.times(p.x));
        lemma_plus_zero(p.x, zero.times(p.y));
        lemma_plus_zero(p.y, zero.times(p.x));
        lemma_plus_zero(p.x.negated(), zero.times(p.y));
        assert(Rect::behind(bottom, p) == zero.at_most(p.y));
        assert(Rect::behind(right, p) == p.x.at_most(one));
        assert(Rect::behind(top, p) == p.y.at_most(one));
        assert(Rect::behind(left, p) == zero.at_most(p.x));
    }
}

/// Among positions none of which is a NaN, the least is one of them and none
/// is below it; the greatest is one of them and is below none.
pub proof fn lemma_extremes(ts: Seq<Scalar>)
    requires
        ts.len() > 0,
        forall|i: int| 0 <= i < ts.len() ==> !(#[trigger] ts[i]).nan(),
    ensures
        exists|i: int| 0 <= i < ts.len() && ts[i] == least(ts),
        exists|i: int| 0 <= i < ts.len() && ts[i] == greatest(ts),
        forall|i: int| 0 <= i < ts.len() ==> least(ts).at_most(#[trigger] ts[i]),
        forall|i: int| 0 <= i < ts.len() ==> (#[trigger] ts[i]).at_most(greatest(ts)),
        least(ts).at_most(greatest(ts)),
    decreases ts.len(),
{
    if ts.len() <= 1 {
        assert(ts[0] == least(ts));
        assert(ts[0] == greatest(ts));
    } else {
        let init = ts.drop_last();
        assert forall|i: int| 0 <= i < init.len() implies !(#[trigger] init[i]).nan() by {
            assert(init[i] == ts[i]);
        }
        lemma_extremes(init);
        let lo = choose|i: int| 0 <= i < init.len() && init[i] == least(init);
        let hi = choose|i: int| 0 <= i < init.len() && init[i] == greatest(init);
        assert(ts[lo] == init[lo]);
        assert(ts[hi] == init[hi]);
        let n = ts.len() - 1;
        assert(ts[n] == ts.last());
        if ts.last().below(least(init)) {
            assert(ts[n] == least(ts));
        } else {
            assert(ts[lo] == least(ts));
        }
        if greatest(init).below(ts.last()) {
            assert(ts[n] == greatest(ts));
        } else {
            assert(ts[hi] == greatest(ts));
        }
        assert forall|i: int| 0 <= i < ts.len() implies least(ts).at_most(#[trigger] ts[i]) by {
            if i < n {
                assert(init[i] == ts[i]);
                assert(least(init).at_most(init[i]));
            }
        }
        assert forall|i: int| 0 <= i < ts.len() implies (#[trigger] ts[i]).at_most(
            greatest(ts),
        ) by {
            if i < n {
                assert(init[i] == ts[i]);
                assert(init[i].at_most(greatest(init)));
            }
        }
        assert(least(ts).at_most(ts[0]));
        assert(ts[0].at_most(greatest(ts)));
    }
}

} // verus!
