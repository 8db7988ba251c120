use rabbit_ear::axioms;
use rabbit_ear::make_outward_square;
use rabbit_ear::make_square;
use rabbit_ear::polynomial;
use rabbit_ear::polynomial::{Cardano, Radicals};
use rabbit_ear::{Line, Rect, Scalar, Segment, Vector};

const EPSILON: f64 = f64::EPSILON * 10.0;

fn s(x: f64) -> Scalar {
    Scalar::from_bits(x.to_bits())
}

fn f(x: Scalar) -> f64 {
    f64::from_bits(x.to_bits())
}

fn v(x: f64, y: f64) -> Vector {
    Vector::new(s(x), s(y))
}

fn l(x: f64, y: f64, d: f64) -> Line {
    Line::new(v(x, y), s(d))
}

fn close(x: f64, y: f64, d: f64) -> bool {
    x - y < d && y - x < d
}

// The cosine and the sine of a third of the angle of a reduced cubic, which
// the library leaves to its caller.
fn radicals(k: &Cardano) -> Radicals {
    let third = f(k.height).atan2(f(k.r)) / 3.0;
    Radicals { cosine: s(third.cos()), sine: s(third.sin()) }
}

fn solve(degree: u8, a: f64, b: f64, c: f64, d: f64) -> Vec<f64> {
    let k = polynomial::cardano(s(a), s(b), s(c), s(d));
    polynomial::polynomial(degree, s(a), s(b), s(c), s(d), radicals(&k)).into_iter().map(f).collect()
}

fn fold_axiom6(p1: Vector, p2: Vector, l1: Line, l2: Line, sheet: Rect) -> Vec<Line> {
    let k = axioms::axiom6_cardano(p1, p2, l1, l2);
    axioms::axiom6(p1, p2, l1, l2, sheet, radicals(&k))
}

fn make_line(vector: Vector, origin: Vector) -> Line {
    let u = vector.normalize().rotate90();
    let d = f(origin.dot(u));
    if d < 0.0 {
        l(-f(u.x), -f(u.y), -d)
    } else {
        l(f(u.x), f(u.y), d)
    }
}

#[test]
fn vector_tests() {
    let sqrt2 = (2.0_f64).sqrt();
    let v1 = v(1.2, -0.8);
    let u = v(2.0, 2.0);
    let l1 = l(1.0, 0.0, 1.0);
    let m = l(-sqrt2, sqrt2, 1.0);
    let mag1: f64 = f(u.magnitude());
    let mag2: f64 = f(u.normalize().magnitude());
    let mag3: f64 = f(u.magnitude_squared());
    let norm = u.normalize();
    let rot90 = u.normalize().rotate90();
    let rot270 = u.normalize().rotate270();
    let flip = v1.flip();
    let dot: f64 = f(u.dot(v1));
    let determ: f64 = f(v1.determinant(u));
    let degenerate: bool = u.degenerate();
    let parallel: bool = u.parallel(v1);
    let crossing = l1.intersect(m);
    let equivalent: bool = u.equivalent(v1);
    assert_eq!(true, close(mag1, 2.8284271247461903, EPSILON));
    assert_eq!(true, close(mag2, 1.0, EPSILON));
    assert_eq!(true, close(mag3, 8.0, EPSILON));
    assert_eq!(true, close(f(norm.x), (2.0_f64).sqrt() / 2.0, EPSILON));
    assert_eq!(true, close(f(norm.y), (2.0_f64).sqrt() / 2.0, EPSILON));
    assert_eq!(true, close(f(rot90.x), -(2.0_f64).sqrt() / 2.0, EPSILON));
    assert_eq!(true, close(f(rot90.y), (2.0_f64).sqrt() / 2.0, EPSILON));
    assert_eq!(true, close(f(rot270.x), (2.0_f64).sqrt() / 2.0, EPSILON));
    assert_eq!(true, close(f(rot270.y), -(2.0_f64).sqrt() / 2.0, EPSILON));
    assert_eq!(true, close(f(flip.x), -1.2, EPSILON));
    assert_eq!(true, close(f(flip.y), 0.8, EPSILON));
    assert_eq!(true, close(dot, 0.8, EPSILON));
    assert_eq!(true, close(determ, 4.0, EPSILON));
    assert_eq!(degenerate, false);
    assert_eq!(parallel, false);
    assert_eq!(crossing.is_some(), true);
    assert_eq!(equivalent, false);
    let intersect = crossing.unwrap();
    assert_eq!(true, close(f(intersect.x), 1.0, EPSILON));
    assert_eq!(true, close(f(intersect.y), 1.0_f64 + 2.0_f64.sqrt() / 2.0, EPSILON));
}

#[test]
fn line_tests() {
    let a = l(0.7071067811865475, 0.7071067811865475, 0.7071067811865475);
    let b = l(1.0, 0.0, 0.5);
    let equivalent_a: bool = a.equivalent(b);
    let equivalent_b: bool = b.equivalent(a);
    let reflect1 = a.reflect_vector(v(0.2, -0.2));
    let _reflect2 = a.reflect_segment(Segment::new(v(0.0, 0.0), v(1.0, 1.0)));
    assert_eq!(equivalent_a, false);
    assert_eq!(equivalent_b, false);
    assert_eq!(true, close(f(reflect1.x), 1.2, EPSILON));
    assert_eq!(true, close(f(reflect1.y), 0.8, EPSILON));
}

#[test]
fn axiom_tests() {
    let unit_square: Rect = make_square();

    let t = v(1.01, 0.0);
    let o = v(0.0, 0.0);
    let p = v(0.5, 0.75);
    let v1 = v(1.2, -0.8);
    let w = v(6.0, 13.0).normalize();
    let l1 = l(1.0, 0.0, 1.0);
    let m = l(0.0, 1.0, 1.0);
    let n = l(0.0, 1.0, 0.5);
    let r = Line::new(w, s(3.0));
    let s1 = l(1.0, 0.0, 2.0);
    let ax1 = axioms::axiom1(o, p, unit_square);
    let ax2 = axioms::axiom2(o, p, unit_square);
    let _ax3a = axioms::axiom3(l1, m, unit_square);
    let ax3b = axioms::axiom3(m, n, unit_square);
    let _ax4 = axioms::axiom4(v1, r, unit_square);
    let _ax5 = axioms::axiom5(t, o, s1, unit_square);
    let _ax6 = fold_axiom6(t, o, s1, r, unit_square);
    let _ax7 = axioms::axiom7(o, r, l1, unit_square);
    assert_eq!(ax1.len(), 1);
    assert_eq!(ax2.len(), 1);
    assert_eq!(ax3b.len(), 1);
    assert_eq!(true, close(f(ax3b[0].u.x), 0.0, EPSILON));
    assert_eq!(true, close(f(ax3b[0].u.y), 1.0, EPSILON));
    assert_eq!(true, close(f(ax3b[0].d), 0.75, EPSILON));
}

#[test]
fn axiom1() {
    let unit_square: Rect = make_square();
    let _res0 = axioms::axiom1(v(2.0 / 3.0, 1.0 / 3.0), v(1.0 / 3.0, 2.0 / 3.0), unit_square);
    let _res1 = axioms::axiom1(v(2.0 / 3.0, 1.0 / 3.0), v(1.0 / 3.0, 2.0 / 3.0), unit_square);
}

#[test]
fn axiom5() {
    let unit_square: Rect = make_square();

    let line1 = make_line(v(1.0, 1.0), v(0.0, 0.0));
    let point1 = v(0.1, 0.0);
    let point2 = v(0.9, 0.1);
    let _res = axioms::axiom5(point1, point2, line1, unit_square);
}

#[test]
fn axiom6() {
    let unit_square: Rect = make_square();

    let line1 = make_line(v(0.0, 1.0), v(1.0, 0.0));
    let line2 = make_line(v(1.0, 0.0), v(0.0, 1.0));
    let point1 = v(0.75, 0.0);
    let point2 = v(0.0, 0.75);
    let _res = fold_axiom6(point1, point2, line1, line2, unit_square);
}

#[test]
fn square_has_its_four_sides_in_order() {
    let sq = make_square();
    let expected = [(0.0, 1.0, 0.0), (1.0, 0.0, 1.0), (0.0, -1.0, -1.0), (-1.0, 0.0, 0.0)];
    for (side, (x, y, d)) in sq.sides.iter().zip(expected) {
        assert_eq!(side.u.x.to_bits(), f64::to_bits(x));
        assert_eq!(side.u.y.to_bits(), f64::to_bits(y));
        assert_eq!(side.d.to_bits(), f64::to_bits(d));
    }
}

#[test]
fn quarter_turns_are_exact() {
    for (x, y) in [(1.2, -0.8), (0.0, -0.0), (1.0e300, 5e-324), (f64::NAN, f64::INFINITY)] {
        let p = v(x, y);
        let once = p.rotate90();
        assert_eq!(once.x.to_bits(), (-y).to_bits());
        assert_eq!(once.y.to_bits(), x.to_bits());
        let back = p.rotate270();
        assert_eq!(back.x.to_bits(), y.to_bits());
        assert_eq!(back.y.to_bits(), (-x).to_bits());
        assert_eq!(p.rotate90().rotate90().rotate90().rotate90(), p);
        assert_eq!(p.rotate90().rotate270(), p);
        assert_eq!(p.rotate270().rotate90(), p);
        assert_eq!(p.rotate90().rotate90(), p.flip());
        assert_eq!(p.flip().flip(), p);
        assert_eq!(p.flip().x.to_bits(), (-x).to_bits());
        assert_eq!(p.flip().y.to_bits(), (-y).to_bits());
    }
}

#[test]
fn vector_formulas_have_their_exact_values() {
    let a = v(3.0, 4.0);
    let b = v(-1.5, 0.25);
    assert_eq!(f(a.magnitude()), 5.0);
    assert_eq!(f(a.magnitude_squared()), 25.0);
    assert_eq!(f(a.dot(b)), -3.5);
    assert_eq!(f(a.determinant(b)), 6.75);
    assert_eq!(f(a.distance_to(v(0.0, 0.0))), 5.0);
    assert_eq!(f(a.distance_to(v(6.0, 8.0))), 5.0);
    assert_eq!(a.add(b), v(1.5, 4.25));
    assert_eq!(a.subtract(b), v(4.5, 3.75));
    assert_eq!(a.scale(s(0.5)), v(1.5, 2.0));
    assert_eq!(a.midpoint(b), v(0.75, 2.125));
    assert_eq!(a.normalize(), v(0.6, 0.8));
    assert_eq!(a.flip(), v(-3.0, -4.0));
    assert_eq!(a.rotate90(), v(-4.0, 3.0));
    assert_eq!(a.rotate270(), v(4.0, -3.0));
}

#[test]
fn normalizing_a_scaled_unit_vector_gives_it_back() {
    let unit = v(6.0, 13.0).normalize();
    assert!(close(f(unit.magnitude()), 1.0, 1.0e-15));
    for k in [0.5, 1.0, 3.0, 1.0e6, 1.0e-6, 1.0e100] {
        let again = unit.scale(s(k)).normalize();
        assert!(close(f(again.x), f(unit.x), 1.0e-8));
        assert!(close(f(again.y), f(unit.y), 1.0e-8));
        assert!(again.equivalent(unit));
    }
}

#[test]
fn normalize_spares_a_vanishing_vector() {
    assert_eq!(v(0.0, 0.0).normalize(), v(0.0, 0.0));
    assert_eq!(v(3.0e-9, 0.0).normalize(), v(3.0e-9, 0.0));
    assert_eq!(v(3.0e-9, -4.0e-9).normalize(), v(3.0e-9, -4.0e-9));
    assert_eq!(v(1.0e-8, 0.0).normalize(), v(1.0, 0.0));
    assert_eq!(v(0.0, -2.5).normalize(), v(0.0, -1.0));
}

#[test]
fn degenerate_is_a_taxicab_length_under_the_tolerance() {
    assert!(v(0.0, 0.0).degenerate());
    assert!(v(4.0e-9, -5.0e-9).degenerate());
    assert!(!v(6.0e-9, -5.0e-9).degenerate());
    assert!(!v(1.0e-8, 0.0).degenerate());
    assert!(!v(f64::NAN, 0.0).degenerate());
}

#[test]
fn equivalent_is_open_and_symmetric() {
    let a = v(0.25, 0.5);
    assert!(a.equivalent(a));
    assert!(a.equivalent(v(0.25 + 5.0e-9, 0.5 - 5.0e-9)));
    assert!(v(0.25 + 5.0e-9, 0.5 - 5.0e-9).equivalent(a));
    assert!(!a.equivalent(v(0.25 + 2.0e-8, 0.5)));
    assert!(!v(0.25 + 2.0e-8, 0.5).equivalent(a));
    assert!(!a.equivalent(v(0.25, 0.5 - 2.0e-8)));
    assert!(!v(1.0e-8, 0.0).equivalent(v(0.0, 0.0)));
    assert!(!v(0.0, -1.0e-8).equivalent(v(0.0, 0.0)));
    assert!(v(0.99e-8, -0.99e-8).equivalent(v(0.0, 0.0)));
    assert!(!v(f64::NAN, 0.0).equivalent(v(f64::NAN, 0.0)));
    let points = [v(0.0, 0.0), v(3.0e-9, -9.0e-9), v(1.0e-8, 0.0), v(0.5, 0.0), v(-0.0, 1.0e-8)];
    for p in points {
        for q in points {
            assert_eq!(p.equivalent(q), q.equivalent(p));
        }
    }
}

#[test]
fn parallel_takes_either_sense() {
    assert!(v(1.0, 2.0).parallel(v(2.0, 4.0)));
    assert!(v(1.0, 2.0).parallel(v(-3.0, -6.0)));
    assert!(!v(1.0, 0.0).parallel(v(0.0, 1.0)));
    assert!(!v(1.0, 0.0).parallel(v(1.0, 0.001)));
}

#[test]
fn intersect_solves_the_two_equations() {
    let p = l(1.0, 0.0, 0.25).intersect(l(0.0, 1.0, 0.75)).unwrap();
    assert_eq!(f(p.x), 0.25);
    assert_eq!(f(p.y), 0.75);
}

#[test]
fn intersect_is_symmetric() {
    let lines = [
        l(1.0, 0.0, 0.25),
        l(0.0, 1.0, 0.75),
        l(0.6, 0.8, 0.5),
        l(-0.8, 0.6, 0.1),
        l(1.0, 0.0, 1.0),
        l(-(2.0_f64).sqrt(), (2.0_f64).sqrt(), 1.0),
        l(0.0, 1.0, 1.0),
        l(0.0, 1.0, 0.5),
        l(0.6, 0.8, 0.0),
        l(0.0, -1.0, 0.0),
        Line::new(v(6.0, 13.0).normalize(), s(3.0)),
    ];
    for a in lines {
        for b in lines {
            let ab = a.intersect(b);
            let ba = b.intersect(a);
            assert_eq!(ab.is_some(), ba.is_some());
            if let (Some(p), Some(q)) = (ab, ba) {
                assert_eq!(f(p.x), f(q.x));
                assert_eq!(f(p.y), f(q.y));
            }
        }
    }
}

#[test]
fn intersect_in_the_other_order_may_turn_the_sign_of_a_zero() {
    let p = l(1.0, 0.0, 0.25).intersect(l(0.0, 1.0, 0.0)).unwrap();
    let q = l(0.0, 1.0, 0.0).intersect(l(1.0, 0.0, 0.25)).unwrap();
    assert_eq!(p, v(0.25, 0.0));
    assert_eq!(q, v(0.25, -0.0));
    assert_ne!(p, q);
    assert_eq!(f(p.y), f(q.y));
}

#[test]
fn intersect_finds_nothing_for_parallel_or_coincident_lines() {
    assert!(l(0.0, 1.0, 1.0).intersect(l(0.0, 1.0, 0.5)).is_none());
    assert!(l(0.0, 1.0, 1.0).intersect(l(0.0, 1.0, 1.0)).is_none());
    assert!(l(0.0, 1.0, 1.0).intersect(l(0.0, -1.0, -1.0)).is_none());
    assert!(l(1.0, 0.0, 0.5).intersect(l(1.0, 0.99e-8, 0.5)).is_none());
    assert!(l(1.0, 0.0, 0.5).intersect(l(1.0, 1.0e-8, 0.5)).is_some());
}

#[test]
fn line_equivalent_sees_through_the_sign_of_the_normal() {
    assert!(l(1.0, 0.0, 0.5).equivalent(l(-1.0, 0.0, -0.5)));
    assert!(l(-1.0, 0.0, -0.5).equivalent(l(1.0, 0.0, 0.5)));
    assert!(l(0.6, 0.8, 0.5).equivalent(l(0.6, 0.8, 0.5)));
    assert!(!l(1.0, 0.0, 0.5).equivalent(l(1.0, 0.0, 0.6)));
    assert!(!l(1.0, 0.0, 0.5).equivalent(l(0.0, 1.0, 0.5)));
    assert!(l(1.0, 0.0, 0.5).equivalent(l(1.0, 0.0, 0.5 + 0.99e-8)));
    assert!(!l(1.0, 0.0, 0.5).equivalent(l(1.0, 0.0, 0.5 + 1.01e-8)));
}

#[test]
fn reflect_vector_mirrors_in_the_line() {
    let image = l(1.0, 0.0, 0.5).reflect_vector(v(0.25, 0.75));
    assert_eq!(image, v(0.75, 0.75));
    let image = l(0.0, 1.0, 0.25).reflect_vector(v(0.5, 1.0));
    assert_eq!(image, v(0.5, -0.5));
    let piece = l(1.0, 0.0, 0.5).reflect_segment(Segment::new(v(0.0, 0.0), v(0.25, 1.0)));
    assert_eq!(piece, Segment::new(v(1.0, 0.0), v(0.75, 1.0)));
}

#[test]
fn reflecting_twice_gives_the_point_back() {
    let line = Line::new(v(6.0, 13.0).normalize(), s(0.4));
    for p in [v(0.2, -0.2), v(0.0, 0.0), v(3.5, 1.25), v(-0.75, 0.5)] {
        let again = line.reflect_vector(line.reflect_vector(p));
        assert!(close(f(again.x), f(p.x), 1.0e-12));
        assert!(close(f(again.y), f(p.y), 1.0e-12));
    }
    let axis = l(0.0, 1.0, 0.25);
    for p in [v(0.5, 1.0), v(0.0, 0.0), v(-3.0, 0.125)] {
        assert_eq!(axis.reflect_vector(axis.reflect_vector(p)), p);
    }
}

#[test]
fn quick_overlap_counts_partial_full_and_touching() {
    let base = Segment::new(v(0.0, 0.0), v(1.0, 0.0));
    assert!(base.quick_overlap(Segment::new(v(0.5, 0.0), v(1.5, 0.0))));
    assert!(base.quick_overlap(Segment::new(v(0.25, 0.0), v(0.75, 0.0))));
    assert!(Segment::new(v(0.25, 0.0), v(0.75, 0.0)).quick_overlap(base));
    assert!(base.quick_overlap(Segment::new(v(1.0, 0.0), v(2.0, 0.0))));
    assert!(base.quick_overlap(Segment::new(v(2.0, 0.0), v(1.0, 0.0))));
    assert!(base.quick_overlap(Segment::new(v(-1.0, 0.0), v(0.0, 0.0))));
    assert!(!base.quick_overlap(Segment::new(v(1.5, 0.0), v(2.0, 0.0))));
    assert!(!base.quick_overlap(Segment::new(v(-2.0, 0.0), v(-0.5, 0.0))));
}

#[test]
fn quick_overlap_does_not_depend_on_which_segment_comes_first() {
    let pieces = [
        Segment::new(v(0.0, 0.0), v(1.0, 0.0)),
        Segment::new(v(0.5, 0.0), v(1.5, 0.0)),
        Segment::new(v(2.0, 0.0), v(1.0, 0.0)),
        Segment::new(v(1.5, 0.0), v(2.5, 0.0)),
        Segment::new(v(-3.0, 0.0), v(-2.0, 0.0)),
        Segment::new(v(0.25, 0.25), v(0.75, 0.75)),
    ];
    for a in pieces {
        for b in pieces {
            assert_eq!(a.quick_overlap(b), b.quick_overlap(a));
        }
    }
}

#[test]
fn contains_is_the_closed_unit_square() {
    let sq = make_square();
    for (x, y) in [(0.0, 0.0), (1.0, 1.0), (0.0, 1.0), (0.5, 0.75), (-0.0, 0.5), (1.0, -0.0)] {
        assert!(sq.contains(v(x, y)), "({}, {})", x, y);
    }
    let outside = [
        (1.01, 0.0),
        (1.2, -0.8),
        (-1.0e-300, 0.5),
        (0.5, 1.0 + f64::EPSILON),
        (0.5, -5e-324),
        (f64::NAN, 0.5),
        (0.5, f64::NAN),
        (f64::INFINITY, 0.5),
    ];
    for (x, y) in outside {
        assert!(!sq.contains(v(x, y)), "({}, {})", x, y);
    }
}

#[test]
fn contains_agrees_with_the_coordinate_test() {
    let sq = make_square();
    let grid = [-0.5, -0.0, 0.0, 1.0e-9, 0.3, 1.0, 1.0 + 1.0e-9, 2.0, f64::NAN];
    for x in grid {
        for y in grid {
            let expected = x >= 0.0 && x <= 1.0 && y >= 0.0 && y <= 1.0;
            assert_eq!(sq.contains(v(x, y)), expected);
        }
    }
}

#[test]
fn clip_gives_the_piece_inside() {
    let sq = make_square();
    let piece = sq.clip(l(1.0, 0.0, 0.25)).unwrap();
    assert_eq!(piece, Segment::new(v(0.25, 0.0), v(0.25, 1.0)));
    let piece = sq.clip(l(0.0, 1.0, 0.5)).unwrap();
    assert_eq!((f(piece.a.x), f(piece.a.y)), (1.0, 0.5));
    assert_eq!((f(piece.b.x), f(piece.b.y)), (0.0, 0.5));
    let diagonal = sq.clip(Line::new(v(1.0, -1.0).normalize(), s(0.0))).unwrap();
    assert!(close(f(diagonal.a.distance_to(diagonal.b)), (2.0_f64).sqrt(), 1.0e-12));
    let edge = sq.clip(l(1.0, 0.0, 1.0)).unwrap();
    assert_eq!(edge, Segment::new(v(1.0, 0.0), v(1.0, 1.0)));
}

#[test]
fn clip_fails_outside_and_at_a_corner() {
    let sq = make_square();
    assert!(sq.clip(l(1.0, 0.0, 2.0)).is_none());
    assert!(sq.clip(l(1.0, 0.0, -0.5)).is_none());
    assert!(sq.clip(l(1.0, 0.0, 1.0 + 1.0e-12)).is_none());
    let corner = Line::new(v(1.0, 1.0).normalize(), s((2.0_f64).sqrt()));
    assert!(sq.clip(corner).is_none());
    let nearly = Line::new(v(1.0, 1.0).normalize(), s((2.0_f64).sqrt() - 1.0e-9));
    assert!(sq.clip(nearly).is_none());
    let short = Line::new(v(1.0, 1.0).normalize(), s((2.0_f64).sqrt() - 1.0e-6));
    assert!(sq.clip(short).is_some());
}

#[test]
fn polynomial_degree_skips_vanishing_leading_coefficients() {
    assert_eq!(polynomial::polynomial_degree(s(1.0), s(1.0), s(1.0)), 3);
    assert_eq!(polynomial::polynomial_degree(s(-2.0e-8), s(0.0), s(0.0)), 3);
    assert_eq!(polynomial::polynomial_degree(s(1.0e-8), s(1.0), s(1.0)), 2);
    assert_eq!(polynomial::polynomial_degree(s(0.0), s(-0.5), s(0.0)), 2);
    assert_eq!(polynomial::polynomial_degree(s(1.0e-9), s(-1.0e-9), s(3.0)), 1);
    assert_eq!(polynomial::polynomial_degree(s(0.0), s(0.0), s(1.0e-8)), 0);
    assert_eq!(polynomial::polynomial_degree(s(0.0), s(0.0), s(0.0)), 0);
    assert_eq!(polynomial::polynomial_degree(s(f64::NAN), s(f64::NAN), s(f64::NAN)), 0);
}

#[test]
fn linear_root() {
    assert_eq!(solve(1, 0.0, 0.0, 2.0, -4.0), vec![2.0]);
    assert_eq!(solve(1, 9.0, 9.0, 4.0, 1.0), vec![-0.25]);
}

#[test]
fn quadratic_with_two_roots() {
    let roots = solve(2, 0.0, 1.0, 0.0, -4.0);
    assert_eq!(roots.len(), 2);
    assert!(roots.contains(&2.0));
    assert!(roots.contains(&-2.0));
    assert_eq!(roots, vec![2.0, -2.0]);
    assert_eq!(solve(2, 7.0, 2.0, -2.0, -12.0), vec![3.0, -2.0]);
}

#[test]
fn quadratic_with_a_double_root_or_none() {
    assert_eq!(solve(2, 0.0, 1.0, -2.0, 1.0), vec![1.0]);
    assert_eq!(solve(2, 0.0, 1.0, 0.0, 4.0), Vec::<f64>::new());
    assert_eq!(solve(2, 0.0, 1.0, 0.0, 0.251e-8).len(), 0);
    assert_eq!(solve(2, 0.0, 1.0, 0.0, 0.249e-8).len(), 1);
    assert_eq!(solve(2, 0.0, 1.0, 0.0, -0.249e-8).len(), 1);
    assert_eq!(solve(2, 0.0, 1.0, 0.0, -0.251e-8).len(), 2);
}

#[test]
fn other_degrees_have_no_roots() {
    assert_eq!(solve(0, 1.0, 1.0, 1.0, 1.0), Vec::<f64>::new());
    assert_eq!(solve(4, 1.0, 1.0, 1.0, 1.0), Vec::<f64>::new());
    assert_eq!(solve(255, 1.0, 1.0, 1.0, 1.0), Vec::<f64>::new());
}

#[test]
fn cubic_is_reduced_after_cardano() {
    let k = polynomial::cardano(s(2.0), s(-12.0), s(6.0), s(8.0));
    assert_eq!(f(k.q), -3.0);
    assert_eq!(f(k.r), 3.0);
    assert_eq!(f(k.discriminant), -18.0);
    assert_eq!(f(k.shift), 2.0);
    assert_eq!(f(k.height), 18.0_f64.sqrt());
    let k = polynomial::cardano(s(3.0), s(1.0), s(-2.0), s(0.1));
    let a2 = 1.0 / 3.0;
    let a1 = -2.0 / 3.0;
    let a0 = 0.1 / 3.0;
    assert_eq!(f(k.q), (3.0 * a1 - a2 * a2) / 9.0);
    assert_eq!(f(k.r), (9.0 * a2 * a1 - 27.0 * a0 - 2.0 * (a2 * a2 * a2)) / 54.0);
    assert_eq!(f(k.shift), -a2 / 3.0);
    let d0 = f(k.q) * f(k.q) * f(k.q) + f(k.r) * f(k.r);
    assert!(d0 < 0.0);
    assert_eq!(f(k.discriminant), d0);
    assert_eq!(f(k.height), (-d0).sqrt());
    let k = polynomial::cardano(s(1.0), s(0.0), s(0.0), s(-8.0));
    assert_eq!(f(k.q), 0.0);
    assert_eq!(f(k.r), 4.0);
    assert_eq!(f(k.discriminant), 16.0);
    assert!(k.height.is_nan());
}

#[test]
fn cubic_with_one_real_root() {
    let roots = solve(3, 1.0, 0.0, 0.0, -8.0);
    assert_eq!(roots.len(), 1);
    assert!(close(roots[0], 2.0, 1.0e-12));
    let negative = solve(3, 1.0, 0.0, 0.0, 27.0);
    assert_eq!(negative.len(), 1);
    assert!(close(negative[0], -3.0, 1.0e-12));
}

#[test]
fn cubic_with_three_real_roots() {
    let mut roots = solve(3, 1.0, 0.0, -1.0, 0.0);
    assert_eq!(roots.len(), 3);
    roots.sort_by(|a, b| a.partial_cmp(b).unwrap());
    assert!(close(roots[0], -1.0, 1.0e-12));
    assert!(close(roots[1], 0.0, 1.0e-12));
    assert!(close(roots[2], 1.0, 1.0e-12));
    let mut shifted = solve(3, 2.0, -12.0, 22.0, -12.0);
    shifted.sort_by(|a, b| a.partial_cmp(b).unwrap());
    assert_eq!(shifted.len(), 3);
    assert!(close(shifted[0], 1.0, 1.0e-12));
    assert!(close(shifted[1], 2.0, 1.0e-12));
    assert!(close(shifted[2], 3.0, 1.0e-12));
}

#[test]
fn cubic_with_a_repeated_root() {
    let roots = solve(3, 1.0, 0.0, -3.0, -2.0);
    assert_eq!(roots.len(), 2);
    assert!(close(roots[0], 2.0, 1.0e-12));
    assert!(close(roots[1], -1.0, 1.0e-12));
}

#[test]
fn cubic_with_a_repeated_root_and_negative_r_has_none() {
    assert_eq!(solve(3, 1.0, 0.0, -3.0, 2.0), Vec::<f64>::new());
}

#[test]
fn cubic_picks_its_form_by_the_discriminant() {
    let given = Radicals { cosine: s(0.5), sine: s(0.25) };
    let pick = |a: f64, b: f64, c: f64, d: f64| -> Vec<f64> {
        polynomial::polynomial(3, s(a), s(b), s(c), s(d), given).into_iter().map(f).collect()
    };
    // x^3 - 8: q = 0, r = 4, one root on the cube roots of 8 and of 0.
    assert_eq!(pick(1.0, 0.0, 0.0, -8.0), vec![2.0]);
    // x^3 + 8: r = -4, the cube roots of 0 and of -8.
    assert_eq!(pick(1.0, 0.0, 0.0, 8.0), vec![-2.0]);
    // x^3 - 6 x^2 + 12 x - 16: the first shifted by 2.
    assert_eq!(pick(1.0, -6.0, 12.0, -16.0), vec![4.0]);
    // x^3 - 3x - 2: q = -1, r = 1, a repeated root.
    assert_eq!(pick(1.0, 0.0, -3.0, -2.0), vec![2.0, -1.0]);
    // x^3 - 3x + 2: q = -1, r = -1, a repeated root that is not taken.
    assert_eq!(pick(1.0, 0.0, -3.0, 2.0), Vec::<f64>::new());
    // x^3 - 12x: q = -4, r = 0, three roots on a radius of 2, which the given
    // cosine and sine place.
    let side = 3.0_f64.sqrt() * 0.5;
    assert_eq!(pick(1.0, 0.0, -12.0, 0.0), vec![2.0, -1.0 - side, -1.0 + side]);
    // 2 x^3 - 12 x^2 + 22 x - 12: q = -1/3 nearly, r = 0, shifted by 2.
    let k = polynomial::cardano(s(2.0), s(-12.0), s(22.0), s(-12.0));
    let radius = f(k.r.mul(k.r).sub(k.discriminant).cbrt().sqrt());
    let side = 3.0_f64.sqrt() * (radius * 0.25);
    assert_eq!(
        pick(2.0, -12.0, 22.0, -12.0),
        vec![2.0 + 2.0 * (radius * 0.5), 2.0 - radius * 0.5 - side, 2.0 - radius * 0.5 + side]
    );
}

#[test]
fn cubrt_keeps_the_sign() {
    assert_eq!(polynomial::cubrt(s(-8.0)).to_bits(), (-2.0_f64).to_bits());
    assert_eq!(polynomial::cubrt(s(8.0)).to_bits(), 2.0_f64.to_bits());
    assert_eq!(polynomial::cubrt(s(0.0)).to_bits(), 0.0_f64.to_bits());
    assert_eq!(polynomial::cubrt(s(-0.0)).to_bits(), (-0.0_f64).to_bits());
    assert_eq!(polynomial::cubrt(s(-1.0e-300)).to_bits(), (-1.0e-100_f64).to_bits());
    assert!(polynomial::cubrt(s(f64::NAN)).is_nan());
}

#[test]
fn axiom1_on_interior_points_gives_the_line_through_both() {
    let sq = make_square();
    let a = v(0.0, 0.0);
    let b = v(0.5, 0.75);
    let folds = axioms::axiom1(a, b, sq);
    assert_eq!(folds.len(), 1);
    let fold = folds[0];
    assert!(close(f(fold.u.magnitude()), 1.0, 1.0e-15));
    assert!(close(f(a.dot(fold.u)), f(b.dot(fold.u)), 1.0e-15));
    assert!(close(f(a.dot(fold.u)), f(fold.d), 1.0e-15));
    assert!(close(f(fold.u.x), -0.75 / 0.8125_f64.sqrt(), 1.0e-15));
    assert!(close(f(fold.u.y), 0.5 / 0.8125_f64.sqrt(), 1.0e-15));
    assert_eq!(axioms::axiom1(v(0.25, 0.0), v(0.25, 1.0), sq), vec![l(-1.0, 0.0, -0.25)]);
}

#[test]
fn axiom2_on_interior_points_gives_the_perpendicular_bisector() {
    let sq = make_square();
    let a = v(0.0, 0.0);
    let b = v(0.5, 0.75);
    let folds = axioms::axiom2(a, b, sq);
    assert_eq!(folds.len(), 1);
    let fold = folds[0];
    let image = fold.reflect_vector(a);
    assert!(close(f(image.x), 0.5, 1.0e-15));
    assert!(close(f(image.y), 0.75, 1.0e-15));
    assert!(close(f(fold.d), 0.8125_f64.sqrt() / 2.0, 1.0e-15));
    assert_eq!(axioms::axiom2(v(0.25, 0.5), v(0.75, 0.5), sq), vec![l(1.0, 0.0, 0.5)]);
}

#[test]
fn axioms_1_and_2_need_both_points_on_the_sheet() {
    let sq = make_square();
    let inside = v(0.5, 0.75);
    for outside in [v(1.01, 0.0), v(-0.1, 0.5), v(0.5, 1.5), v(f64::NAN, 0.5)] {
        assert_eq!(axioms::axiom1(inside, outside, sq).len(), 0);
        assert_eq!(axioms::axiom1(outside, inside, sq).len(), 0);
        assert_eq!(axioms::axiom2(inside, outside, sq).len(), 0);
        assert_eq!(axioms::axiom2(outside, inside, sq).len(), 0);
    }
}

#[test]
fn axiom3_on_parallel_lines_gives_the_line_midway() {
    let sq = make_square();
    let folds = axioms::axiom3(l(0.0, 1.0, 1.0), l(0.0, 1.0, 0.5), sq);
    assert_eq!(folds, vec![l(0.0, 1.0, 0.75)]);
    let folds = axioms::axiom3(l(1.0, 0.0, 0.25), l(-1.0, 0.0, -0.75), sq);
    assert_eq!(folds, vec![l(1.0, 0.0, 0.5)]);
}

#[test]
fn axiom3_on_two_edges_gives_the_diagonal() {
    let sq = make_square();
    let folds = axioms::axiom3(l(1.0, 0.0, 1.0), l(0.0, 1.0, 1.0), sq);
    assert_eq!(folds.len(), 1);
    assert_eq!(folds[0].u, v(1.0, 0.0).subtract(v(0.0, 1.0)).normalize());
    assert!(close(f(folds[0].u.x), 0.7071067811865475, EPSILON));
    assert!(close(f(folds[0].u.y), -0.7071067811865475, EPSILON));
    assert!(close(f(folds[0].d), 0.0, EPSILON));
}

#[test]
fn axiom3_on_crossing_lines_gives_both_bisectors_in_order() {
    let sq = make_square();
    let folds = axioms::axiom3(l(1.0, 0.0, 0.5), l(0.0, 1.0, 0.5), sq);
    assert_eq!(folds.len(), 2);
    assert_eq!(folds[0].u, v(1.0, 1.0).normalize());
    assert_eq!(folds[1].u, v(1.0, -1.0).normalize());
    assert!(close(f(folds[0].d), 0.5 * (2.0_f64).sqrt(), 1.0e-15));
    assert!(close(f(folds[1].d), 0.0, 1.0e-15));
}

#[test]
fn axiom3_needs_both_lines_on_the_sheet() {
    let sq = make_square();
    assert_eq!(axioms::axiom3(l(1.0, 0.0, 2.0), l(0.0, 1.0, 0.5), sq).len(), 0);
    assert_eq!(axioms::axiom3(l(1.0, 0.0, 0.5), l(0.0, 1.0, -2.0), sq).len(), 0);
    assert_eq!(axioms::axiom3(l(1.0, 0.0, 2.0), l(1.0, 0.0, 0.5), sq).len(), 0);
}

#[test]
fn axiom4_gives_the_perpendicular_through_the_point() {
    let sq = make_square();
    let folds = axioms::axiom4(v(0.25, 0.5), l(1.0, 0.0, 0.75), sq);
    assert_eq!(folds, vec![l(-0.0, 1.0, 0.5)]);
    let slanted = Line::new(v(6.0, 13.0).normalize(), s(3.0));
    assert_eq!(axioms::axiom4(v(1.2, -0.8), slanted, sq).len(), 0);
}

#[test]
fn axiom4_needs_the_mark_and_a_piece_on_the_sheet() {
    let sq = make_square();
    assert_eq!(axioms::axiom4(v(0.25, 0.5), l(1.0, 0.0, 0.75), sq).len(), 1);
    assert_eq!(axioms::axiom4(v(0.25, 0.5), l(1.0, 0.0, 1.0), sq).len(), 0);
    assert_eq!(axioms::axiom4(v(0.25, 1.5), l(1.0, 0.0, 0.75), sq).len(), 0);
    assert_eq!(axioms::axiom4(v(0.25, 0.5), l(1.0, 0.0, 0.25), sq).len(), 1);
}

#[test]
fn axiom5_gives_two_folds_through_the_fixed_point() {
    let sq = make_square();
    let p1 = v(0.5, 0.5);
    let p2 = v(0.5, 0.0);
    let line = l(1.0, 0.0, 0.9);
    let folds = axioms::axiom5(p1, p2, line, sq);
    assert_eq!(folds.len(), 2);
    for fold in &folds {
        assert!(close(f(p1.dot(fold.u)), f(fold.d), 1.0e-15));
        let image = fold.reflect_vector(p2);
        assert!(close(f(image.x), 0.9, 1.0e-12));
        assert!(close(f(image.distance_to(p1)), 0.5, 1.0e-12));
    }
    assert!(f(folds[0].reflect_vector(p2).y) > 0.5);
    assert!(f(folds[1].reflect_vector(p2).y) < 0.5);
}

#[test]
fn axiom5_gives_one_fold_where_the_line_is_just_in_reach() {
    let sq = make_square();
    let folds = axioms::axiom5(v(0.5, 0.5), v(0.25, 0.5), l(1.0, 0.0, 0.75), sq);
    assert_eq!(folds, vec![l(-1.0, 0.0, -0.5)]);
}

#[test]
fn axiom5_out_of_reach_gives_nothing() {
    let sq = make_square();
    assert_eq!(axioms::axiom5(v(0.1, 0.5), v(0.2, 0.5), l(1.0, 0.0, 0.9), sq).len(), 0);
    assert_eq!(axioms::axiom5(v(1.01, 0.0), v(0.0, 0.0), l(1.0, 0.0, 2.0), sq).len(), 0);
    assert_eq!(axioms::axiom5(v(0.5, 0.5), v(0.5, 0.25), l(1.0, 0.0, 0.75), sq).len(), 1);
    assert_eq!(axioms::axiom5(v(0.5, 0.5), v(0.5, 0.25), l(1.0, 0.0, 0.75 + 1.0e-15), sq).len(), 0);
}

#[test]
fn axiom5_takes_the_line_with_either_normal() {
    let sq = make_square();
    let p1 = v(0.5, 0.5);
    let p2 = v(0.5, 0.0);
    assert_eq!(axioms::axiom5(p1, p2, l(1.0, 0.0, 0.9), sq).len(), 2);
    assert_eq!(axioms::axiom5(p1, p2, l(-1.0, 0.0, -0.9), sq).len(), 2);
}

#[test]
fn axiom5_drops_folds_that_land_off_the_sheet() {
    let sq = make_square();
    let folds = axioms::axiom5(v(0.5, 0.75), v(0.5, 0.25), l(1.0, 0.0, 0.9), sq);
    assert_eq!(folds.len(), 1);
    let image = folds[0].reflect_vector(v(0.5, 0.25));
    assert!(close(f(image.x), 0.9, 1.0e-12));
    assert!(f(image.y) < 0.75);
}

#[test]
fn axiom6_polynomial_has_its_coefficients() {
    let p1 = v(0.75, 0.0);
    let p2 = v(0.0, 0.75);
    let l1 = make_line(v(0.0, 1.0), v(1.0, 0.0));
    let l2 = make_line(v(1.0, 0.0), v(0.0, 1.0));
    let k = axioms::axiom6_polynomial(p1, p2, l1, l2);
    assert_eq!(polynomial::polynomial_degree(k.a, k.b, k.c), 3);
    assert_eq!(axioms::axiom6_cardano(p1, p2, l1, l2), polynomial::cardano(k.a, k.b, k.c, k.d));
}

#[test]
fn axiom6_gives_folds_that_bring_both_points_onto_their_lines() {
    let sq = make_square();
    let l1 = make_line(v(0.0, 1.0), v(1.0, 0.0));
    let l2 = make_line(v(1.0, 0.0), v(0.0, 1.0));
    let p1 = v(0.75, 0.0);
    let p2 = v(0.0, 0.75);
    let folds = fold_axiom6(p1, p2, l1, l2, sq);
    assert!(folds.len() >= 1);
    for fold in folds {
        let first = fold.reflect_vector(p1);
        let second = fold.reflect_vector(p2);
        assert!(close(f(first.dot(l1.u)), f(l1.d), 1.0e-9));
        assert!(close(f(second.dot(l2.u)), f(l2.d), 1.0e-9));
        assert!(f(first.y) > -1.0e-9 && f(first.y) < 1.0 + 1.0e-9);
        assert!(f(second.x) > -1.0e-9 && f(second.x) < 1.0 + 1.0e-9);
    }
}

#[test]
fn axiom6_gives_nothing_for_a_point_close_to_its_line() {
    let sq = make_square();
    let l1 = l(1.0, 0.0, 0.5);
    let l2 = l(0.0, 1.0, 0.5);
    assert_eq!(fold_axiom6(v(0.5, 0.25), v(0.25, 0.75), l1, l2, sq).len(), 0);
    assert_eq!(fold_axiom6(v(0.495, 0.25), v(0.25, 0.75), l1, l2, sq).len(), 0);
    assert_eq!(fold_axiom6(v(0.505, 0.25), v(0.25, 0.75), l1, l2, sq).len(), 0);
    assert_eq!(fold_axiom6(v(0.5, 0.25), v(0.25, 0.75), l1, l1, sq).len(), 0);
    assert_eq!(fold_axiom6(v(0.5, 0.25), v(0.25, 0.75), l1, l(-1.0, 0.0, -0.75), sq).len(), 0);
}

#[test]
fn axiom6_on_a_quadratic_gives_the_fold_between_the_lines() {
    let sq = make_square();
    let l1 = l(1.0, 0.0, 0.75);
    let l2 = l(1.0, 0.0, 0.5);
    let p1 = v(0.25, 0.5);
    let p2 = v(0.25, 0.25);
    let k = axioms::axiom6_polynomial(p1, p2, l1, l2);
    assert_eq!(f(k.a), 0.0);
    assert_eq!(f(k.b), 0.25);
    assert_eq!(polynomial::polynomial_degree(k.a, k.b, k.c), 2);
    let folds = fold_axiom6(p1, p2, l1, l2, sq);
    assert!(folds.len() >= 1);
    for fold in folds {
        assert!(close(f(fold.reflect_vector(p1).x), 0.75, 1.0e-12));
        assert!(close(f(fold.reflect_vector(p2).x), 0.5, 1.0e-12));
    }
}

#[test]
fn axiom7_gives_the_fold_at_right_angles() {
    let sq = make_square();
    let p = v(0.25, 0.5);
    let l1 = l(0.0, 1.0, 0.5);
    let l2 = l(1.0, 0.0, 0.75);
    let folds = axioms::axiom7(p, l1, l2, sq);
    assert_eq!(folds.len(), 1);
    assert_eq!(f(folds[0].d).abs(), 0.5);
    let image = folds[0].reflect_vector(p);
    assert!(close(f(image.x), 0.75, 1.0e-15));
    assert!(close(f(folds[0].u.dot(l1.u)), 0.0, 1.0e-15));
}

#[test]
fn axiom7_gives_nothing_for_parallel_lines() {
    let sq = make_square();
    assert_eq!(axioms::axiom7(v(0.25, 0.5), l(1.0, 0.0, 0.5), l(1.0, 0.0, 0.75), sq).len(), 0);
    assert_eq!(axioms::axiom7(v(0.25, 0.5), l(1.0, 0.0, 0.5), l(-1.0, 0.0, -0.75), sq).len(), 0);
    assert_eq!(axioms::axiom7(v(0.25, 0.5), l(0.0, 1.0, 0.5), l(0.99e-8, 1.0, 0.75), sq).len(), 0);
}

#[test]
fn axiom7_needs_image_and_foot_on_the_sheet_and_apart() {
    let sq = make_square();
    let l1 = l(0.0, 1.0, 0.5);
    assert_eq!(axioms::axiom7(v(0.25, 0.5), l1, l(1.0, 0.0, 0.75), sq).len(), 1);
    assert_eq!(axioms::axiom7(v(0.25, 0.5), l1, l(1.0, 0.0, 1.75), sq).len(), 0);
    assert_eq!(axioms::axiom7(v(0.25, 0.5), l(0.0, 1.0, 1.5), l(1.0, 0.0, 0.75), sq).len(), 0);
    assert_eq!(axioms::axiom7(v(0.75, 0.5), l1, l(1.0, 0.0, 0.75), sq).len(), 0);
    assert_eq!(axioms::axiom7(v(0.75, 0.25), l1, l(1.0, 0.0, 0.75), sq).len(), 1);
}

#[test]
fn axioms_give_the_same_twice() {
    let sq = make_square();
    let o = v(0.0, 0.0);
    let p = v(0.5, 0.75);
    let t = v(0.3, 0.2);
    let m = l(0.0, 1.0, 1.0);
    let n = l(1.0, 0.0, 0.5);
    let r = Line::new(v(6.0, 13.0).normalize(), s(0.6));
    assert_eq!(axioms::axiom1(o, p, sq), axioms::axiom1(o, p, sq));
    assert_eq!(axioms::axiom2(o, p, sq), axioms::axiom2(o, p, sq));
    assert_eq!(axioms::axiom3(m, n, sq), axioms::axiom3(m, n, sq));
    assert_eq!(axioms::axiom4(p, r, sq), axioms::axiom4(p, r, sq));
    assert_eq!(axioms::axiom5(p, t, n, sq), axioms::axiom5(p, t, n, sq));
    assert_eq!(fold_axiom6(t, p, n, m, sq), fold_axiom6(t, p, n, m, sq));
    assert_eq!(axioms::axiom7(t, n, m, sq), axioms::axiom7(t, n, m, sq));
}

#[test]
fn no_axiom_gives_more_folds_than_its_construction() {
    let sq = make_square();
    let points = [v(0.0, 0.0), v(0.5, 0.75), v(0.3, 0.2), v(0.9, 0.1), v(1.01, 0.0)];
    let lines = [
        l(0.0, 1.0, 1.0),
        l(1.0, 0.0, 0.5),
        l(0.0, 1.0, 0.5),
        Line::new(v(6.0, 13.0).normalize(), s(0.6)),
        Line::new(v(1.0, -1.0).normalize(), s(0.0)),
    ];
    for a in points {
        for b in points {
            assert!(axioms::axiom1(a, b, sq).len() <= 1);
            assert!(axioms::axiom2(a, b, sq).len() <= 1);
            for m in lines {
                assert!(axioms::axiom5(a, b, m, sq).len() <= 2);
                for n in lines {
                    assert!(fold_axiom6(a, b, m, n, sq).len() <= 3);
                }
            }
        }
        for m in lines {
            assert!(axioms::axiom4(a, m, sq).len() <= 1);
            for n in lines {
                assert!(axioms::axiom7(a, m, n, sq).len() <= 1);
            }
        }
    }
    for m in lines {
        for n in lines {
            assert!(axioms::axiom3(m, n, sq).len() <= 2);
        }
    }
}

fn next(state: &mut u64) -> u64 {
    let mut x: u64 = *state;
    x ^= x << 13;
    x ^= x >> 7;
    x ^= x << 17;
    *state = x;
    x
}

// A number between `low` and `high`.
fn between(state: &mut u64, low: f64, high: f64) -> f64 {
    low + (high - low) * ((next(state) >> 11) as f64 / (1u64 << 53) as f64)
}

#[test]
fn normalizing_undoes_a_moderate_scale() {
    let mut state: u64 = 0x1357_9BDF_0246_8ACE;
    for _ in 0..5_000 {
        let unit = v(between(&mut state, -1.0, 1.0), between(&mut state, -1.0, 1.0)).normalize();
        if f(unit.magnitude()) < 0.5 {
            continue;
        }
        let top = f64::from_bits(0x5FC0_0000_0000_0000);
        for k in [1.000_000_01e-8, 1.5e-8, 1.0e-3, 0.75, 1.0, 3.0, 1.0e9, 1.0e60, top] {
            assert!(unit.scale(s(k)).normalize().equivalent(unit));
        }
    }
    let axis = v(0.0, -1.0);
    assert_eq!(axis.scale(s(8.0)).normalize(), axis);
}

#[test]
fn normalizing_does_not_undo_a_vanishing_scale() {
    let unit = v(0.6, 0.8);
    assert!(!unit.scale(s(0.5e-8)).normalize().equivalent(unit));
    assert_eq!(unit.scale(s(0.5e-8)).normalize(), unit.scale(s(0.5e-8)));
    let huge = f64::from_bits(0x5FF0_0000_0000_0000);
    assert_eq!(unit.scale(s(huge)).normalize(), v(0.0, 0.0));
}

#[test]
fn reflecting_twice_is_within_the_tolerance() {
    let mut state: u64 = 0x0F1E_2D3C_4B5A_6978;
    for _ in 0..5_000 {
        let normal = v(between(&mut state, -1.0, 1.0), between(&mut state, -1.0, 1.0)).normalize();
        if f(normal.magnitude()) < 0.5 {
            continue;
        }
        let line = Line::new(normal, s(between(&mut state, -4.0, 4.0)));
        let p = v(between(&mut state, -4.0, 4.0), between(&mut state, -4.0, 4.0));
        assert!(line.reflect_vector(line.reflect_vector(p)).equivalent(p));
    }
}

#[test]
fn reflecting_twice_is_not_exact() {
    let line = l(0.7071067811865475, 0.7071067811865475, 0.7071067811865475);
    let p = v(0.2, -0.2);
    let again = line.reflect_vector(line.reflect_vector(p));
    assert!(again.equivalent(p));
    assert_ne!(again, p);
}

#[test]
fn reading_outward_sides_agrees_with_the_unit_square() {
    let square = make_outward_square();
    let sheet = make_square();
    let values = [
        f64::NAN,
        f64::NEG_INFINITY,
        -1.0,
        -1.0e-300,
        -0.0,
        0.0,
        5.0e-324,
        0.5,
        1.0 - f64::EPSILON / 2.0,
        1.0,
        1.0 + f64::EPSILON,
        2.0,
        f64::MAX,
        f64::INFINITY,
    ];
    for x in values {
        for y in values {
            assert_eq!(square.encloses(v(x, y)), sheet.contains(v(x, y)));
        }
    }
    let mut state: u64 = 0x5A5A_1234_0F0F_4321;
    for _ in 0..5_000 {
        let p = v(between(&mut state, -0.5, 1.5), between(&mut state, -0.5, 1.5));
        assert_eq!(square.encloses(p), sheet.contains(p));
    }
    assert!(square.encloses(v(0.5, 0.5)));
    assert!(square.encloses(v(1.0, 0.0)));
    assert!(!square.encloses(v(0.5, 1.5)));
    assert!(!square.encloses(v(-1.0e-300, 0.5)));
}

#[test]
fn sides_with_inward_normals_do_not_tell_the_points_of_the_square() {
    let sheet = make_square();
    assert!(sheet.contains(v(0.5, 0.5)));
    assert!(!sheet.encloses(v(0.5, 0.5)));
    assert!(!sheet.encloses(v(0.5, 0.0)));
    assert!(!sheet.encloses(v(0.5, 1.0)));
}

#[test]
fn folds_of_points_apart_have_unit_normals() {
    let sq = make_square();
    let mut state: u64 = 0x2C1B_3C6D_4E5F_6071;
    let width = 1.0 / 4_294_967_296.0;
    for _ in 0..5_000 {
        let a = v(between(&mut state, 0.0, 1.0), between(&mut state, 0.0, 1.0));
        let b = v(between(&mut state, 0.0, 1.0), between(&mut state, 0.0, 1.0));
        if f(b.distance_to(a)) < 1.0e-8 {
            continue;
        }
        for fold in axioms::axiom1(a, b, sq).into_iter().chain(axioms::axiom2(a, b, sq)) {
            let square = f(fold.u.x) * f(fold.u.x) + f(fold.u.y) * f(fold.u.y);
            assert!(close(square, 1.0, width));
        }
    }
    let near = axioms::axiom1(v(0.5, 0.5), v(0.5 + 1.0e-8, 0.5), sq);
    assert_eq!(near[0].u, v(-0.0, 1.0));
    let nearer = axioms::axiom1(v(0.5, 0.5), v(0.5 + 1.0e-9, 0.5), sq);
    assert!(f(nearer[0].u.y) < 1.0e-8);
}

#[test]
fn both_points_have_one_offset_along_the_fold_of_axiom1() {
    let sq = make_square();
    let mut state: u64 = 0x7F4A_7C15_9E37_79B9;
    let tiny = [0.0, 1.0e-300, 1.0e-9, 0.5, 1.0 - 1.0e-9, 1.0];
    for _ in 0..5_000 {
        let a = v(between(&mut state, 0.0, 1.0), between(&mut state, 0.0, 1.0));
        let b = v(between(&mut state, 0.0, 1.0), between(&mut state, 0.0, 1.0));
        let folds = axioms::axiom1(a, b, sq);
        assert_eq!(folds.len(), 1);
        let gap = f(b.dot(folds[0].u)) - f(a.dot(folds[0].u));
        assert!(gap < 1.0e-8 && gap > -1.0e-8);
        assert!(close(f(folds[0].d), f(a.dot(folds[0].u)), 1.0e-8));
    }
    for ax in tiny {
        for by in tiny {
            let a = v(ax, 0.25);
            let b = v(0.25 + 1.0e-9, by);
            let folds = axioms::axiom1(a, b, sq);
            assert_eq!(folds.len(), 1);
            let gap = f(b.dot(folds[0].u)) - f(a.dot(folds[0].u));
            assert!(gap < 1.0e-8 && gap > -1.0e-8);
        }
    }
    let same = axioms::axiom1(v(0.5, 0.5), v(0.5, 0.5), sq);
    assert_eq!(same, vec![l(-0.0, 0.0, 0.0)]);
}

#[test]
fn folds_of_axiom3_have_the_sum_and_the_difference_for_normals() {
    let sq = make_square();
    let mut state: u64 = 0x2468_ACE0_1357_9BDF;
    let mut both: u32 = 0;
    for _ in 0..3_000 {
        let a = Line::new(
            v(between(&mut state, -1.0, 1.0), between(&mut state, -1.0, 1.0)).normalize(),
            s(between(&mut state, -0.5, 1.0)),
        );
        let b = Line::new(
            v(between(&mut state, -1.0, 1.0), between(&mut state, -1.0, 1.0)).normalize(),
            s(between(&mut state, -0.5, 1.0)),
        );
        if a.intersect(b).is_none() {
            continue;
        }
        let folds = axioms::axiom3(a, b, sq);
        let sum = a.u.add(b.u).normalize();
        let difference = a.u.subtract(b.u).normalize();
        assert!(folds.len() <= 2);
        for fold in &folds {
            assert!(fold.u == sum || fold.u == difference);
        }
        if folds.len() == 2 {
            assert_eq!(folds[0].u, sum);
            assert_eq!(folds[1].u, difference);
            both += 1;
        }
    }
    assert!(both > 10);
}

#[test]
fn either_normal_form_of_a_line_mirrors_alike() {
    let mut state: u64 = 0x0BAD_CAFE_F00D_1234;
    for _ in 0..2_000 {
        let normal = v(between(&mut state, -1.0, 1.0), between(&mut state, -1.0, 1.0)).normalize();
        let line = Line::new(normal, s(between(&mut state, -2.0, 2.0)));
        let back = Line::new(normal.flip(), line.d.neg());
        let p = v(between(&mut state, -2.0, 2.0), between(&mut state, -2.0, 2.0));
        let one = line.reflect_vector(p);
        let other = back.reflect_vector(p);
        assert_eq!(f(one.x), f(other.x));
        assert_eq!(f(one.y), f(other.y));
    }
}

#[test]
fn turning_keeps_the_length_and_the_inner_product_its_value() {
    let mut state: u64 = 0x1111_2222_3333_4444;
    for _ in 0..2_000 {
        let a = v(between(&mut state, -9.0, 9.0), between(&mut state, -9.0, 9.0));
        let b = v(between(&mut state, -9.0, 9.0), between(&mut state, -9.0, 9.0));
        assert_eq!(a.rotate90().magnitude(), a.magnitude());
        assert_eq!(a.rotate270().magnitude(), a.magnitude());
        assert_eq!(a.flip().magnitude(), a.magnitude());
        assert_eq!(a.dot(b), b.dot(a));
    }
}
