//! The folds that the seven Huzita-Justin axioms yield on a sheet of paper.
//!
//! Numbers are IEEE-754 doubles carried by their bit pattern, see [`Scalar`]:
//! their arithmetic is integer arithmetic on the patterns, rounded to the
//! nearest double.
//!
//! - `scalar`, `nearest`, `round`, `arith`: the numbers, what it is to round,
//!   and the operations on them;
//! - `vector`, `line`, `segment`, `rect`: points, lines, pieces of lines and
//!   the sheet;
//! - `polynomial`, `axioms`: the roots of a cubic and the seven constructions;
//! - `algebra`, `bounds`, `unit`, `mirror`, `through`: laws of the arithmetic
//!   and of the geometry, with the error analysis behind them.
pub mod algebra;
pub mod arith;
pub mod axioms;
pub mod bounds;
pub mod line;
pub mod mirror;
pub mod nearest;
pub mod polynomial;
pub mod rect;
pub mod round;
pub mod scalar;
pub mod segment;
pub mod through;
pub mod unit;
pub mod vector;

pub use line::Line;
pub use rect::Rect;
pub use scalar::Scalar;
pub use segment::Segment;
pub use vector::Vector;

use vstd::prelude::*;

verus! {

/// The four sides of the unit square: bottom, right, top, left.
pub open spec fn square_sides() -> Seq<Line> {
    let zero = Scalar::zero();
    let one = Scalar::one();
    let minus_one = Scalar::one().negated();
    seq![
        Line { u: Vector { x: zero, y: one }, d: zero },
        Line { u: Vector { x: one, y: zero }, d: one },
        Line { u: Vector { x: zero, y: minus_one }, d: minus_one },
        Line { u: Vector { x: minus_one, y: zero }, d: zero },
    ]
}

/// The unit square, with its sides in the order bottom, right, top, left. The
/// normals of the right and the left side point away from the square, those
/// of the bottom and the top into it.
pub fn make_square() -> (r: Rect)
    ensures
        r.sides@ == square_sides(),
{
    let zero: Scalar = Scalar::zero();
    let one: Scalar = Scalar::one();
    let minus_one: Scalar = Scalar::one().neg();
    let r = Rect {
        sides: [
            Line { u: Vector { x: zero, y: one }, d: zero },
            Line { u: Vector { x: one, y: zero }, d: one },
            Line { u: Vector { x: zero, y: minus_one }, d: minus_one },
            Line { u: Vector { x: minus_one, y: zero }, d: zero },
        ],
    };
    assert(r.sides@ =~= square_sides());
    r
}

/// The four sides of the unit square, each with its normal pointing away
/// from the square: bottom, right, top, left.
pub open spec fn outward_sides() -> Seq<Line> {
    let zero = Scalar::zero();
    let one = Scalar::one();
    let minus_one = Scalar::one().negated();
    seq![
        Line { u: Vector { x: zero, y: minus_one }, d: zero },
        Line { u: Vector { x: one, y: zero }, d: one },
        Line { u: Vector { x: zero, y: one }, d: one },
        Line { u: Vector { x: minus_one, y: zero }, d: zero },
    ]
}

/// The unit square with every normal pointing away from it, so that
/// [`Rect::encloses`] tells its points. The lines are those of
/// [`make_square`]; the bottom and the top are written from the other side.
pub fn make_outward_square() -> (r: Rect)
    ensures
        r.sides@ == outward_sides(),
{
    let zero: Scalar = Scalar::zero();
    let one: Scalar = Scalar::one();
    let minus_one: Scalar = Scalar::one().neg();
    let r = Rect {
        sides: [
            Line { u: Vector { x: zero, y: minus_one }, d: zero },
            Line { u: Vector { x: one, y: zero }, d: one },
            Line { u: Vector { x: zero, y: one }, d: one },
            Line { u: Vector { x: minus_one, y: zero }, d: zero },
        ],
    };
    assert(r.sides@ =~= outward_sides());
    r
}

} // verus!
