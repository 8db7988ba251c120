// Every formula of the library, evaluated once more in the floating point of
// the machine: the two must agree bit for bit, NaNs apart.
use rabbit_ear::axioms;
use rabbit_ear::make_square;
use rabbit_ear::polynomial;
use rabbit_ear::polynomial::Radicals;
use rabbit_ear::{Line, Scalar, Segment, Vector};

const EPS: f64 = 1.0e-8;

#[derive(Clone, Copy, Debug)]
struct V {
    x: f64,
    y: f64,
}

#[derive(Clone, Copy, Debug)]
struct L {
    u: V,
    d: f64,
}

#[derive(Clone, Copy, Debug)]
struct S {
    a: V,
    b: V,
}

fn s(x: f64) -> Scalar {
    Scalar::from_bits(x.to_bits())
}

fn vk(v: V) -> Vector {
    Vector::new(s(v.x), s(v.y))
}

fn lk(l: L) -> Line {
    Line::new(vk(l.u), s(l.d))
}

fn sk(seg: S) -> Segment {
    Segment::new(vk(seg.a), vk(seg.b))
}

fn same(got: Scalar, expected: f64) -> bool {
    if expected.is_nan() {
        got.is_nan()
    } else {
        got.to_bits() == expected.to_bits()
    }
}

fn same_v(got: Vector, expected: V) -> bool {
    same(got.x, expected.x) && same(got.y, expected.y)
}

fn same_l(got: Line, expected: L) -> bool {
    same_v(got.u, expected.u) && same(got.d, expected.d)
}

fn same_s(got: Segment, expected: S) -> bool {
    same_v(got.a, expected.a) && same_v(got.b, expected.b)
}

fn same_lines(got: &Vec<Line>, expected: &Vec<L>) -> bool {
    got.len() == expected.len() && got.iter().zip(expected).all(|(g, e)| same_l(*g, *e))
}

fn dot(a: V, b: V) -> f64 {
    a.x * b.x + a.y * b.y
}

fn determinant(a: V, b: V) -> f64 {
    a.x * b.y - a.y * b.x
}

fn magnitude(a: V) -> f64 {
    (a.x * a.x + a.y * a.y).sqrt()
}

fn add(a: V, b: V) -> V {
    V { x: a.x + b.x, y: a.y + b.y }
}

fn subtract(a: V, b: V) -> V {
    V { x: a.x - b.x, y: a.y - b.y }
}

fn scale(a: V, t: f64) -> V {
    V { x: a.x * t, y: a.y * t }
}

fn rotate90(a: V) -> V {
    V { x: -a.y, y: a.x }
}

fn midpoint(a: V, b: V) -> V {
    V { x: (a.x + b.x) / 2.0, y: (a.y + b.y) / 2.0 }
}

fn normalize(a: V) -> V {
    let mut m = magnitude(a);
    if m < EPS {
        m = 1.0;
    }
    V { x: a.x / m, y: a.y / m }
}

fn equivalent(a: V, b: V) -> bool {
    a.x - b.x < EPS && a.x - b.x > -EPS && a.y - b.y < EPS && a.y - b.y > -EPS
}

fn intersect(a: L, b: L) -> Option<V> {
    let det = determinant(a.u, b.u);
    if det.abs() < EPS {
        return None;
    }
    let x = a.d * b.u.y - b.d * a.u.y;
    let y = b.d * a.u.x - a.d * b.u.x;
    Some(V { x: x / det, y: y / det })
}

fn reflect_vector(l: L, p: V) -> V {
    let v1 = scale(l.u, l.d);
    let rot90 = rotate90(l.u);
    let v2 = scale(rot90, dot(p, rot90));
    let projection = add(v1, v2);
    add(projection, subtract(projection, p))
}

fn reflect_segment(l: L, seg: S) -> S {
    S { a: reflect_vector(l, seg.a), b: reflect_vector(l, seg.b) }
}

fn quick_overlap(a: S, b: S) -> bool {
    let vec_a = subtract(a.b, a.a);
    let mag_a = magnitude(vec_a);
    let norm_a = normalize(vec_a);
    let vec_b = subtract(b.b, b.a);
    let mag_b = magnitude(vec_b);
    let norm_b = normalize(vec_b);
    let aa = dot(norm_b, subtract(a.a, b.a));
    let ab = dot(norm_b, subtract(a.b, b.a));
    let ba = dot(norm_a, subtract(b.a, a.a));
    let bb = dot(norm_a, subtract(b.b, a.a));
    (aa >= 0.0 && aa <= mag_b)
        || (ab >= 0.0 && ab <= mag_b)
        || (ba >= 0.0 && ba <= mag_a)
        || (bb >= 0.0 && bb <= mag_a)
}

fn contains(p: V) -> bool {
    p.x >= 0.0 && p.x <= 1.0 && p.y >= 0.0 && p.y <= 1.0
}

fn sides() -> [L; 4] {
    [
        L { u: V { x: 0.0, y: 1.0 }, d: 0.0 },
        L { u: V { x: 1.0, y: 0.0 }, d: 1.0 },
        L { u: V { x: 0.0, y: -1.0 }, d: -1.0 },
        L { u: V { x: -1.0, y: 0.0 }, d: 0.0 },
    ]
}

fn clip(l: L) -> Option<S> {
    let results: Vec<V> =
        sides().iter().filter_map(|side| intersect(*side, l)).filter(|p| contains(*p)).collect();
    if results.len() < 2 {
        return None;
    }
    let origin = scale(l.u, l.d);
    let vector = rotate90(l.u);
    let ts: Vec<f64> = results.iter().map(|pt| dot(subtract(*pt, origin), vector)).collect();
    let min = ts.iter().fold(ts[0], |a, b| if *b < a { *b } else { a });
    let max = ts.iter().fold(ts[0], |a, b| if *b > a { *b } else { a });
    if max - min < EPS {
        return None;
    }
    Some(S { a: add(origin, scale(vector, min)), b: add(origin, scale(vector, max)) })
}

fn axiom1(a: V, b: V) -> Vec<L> {
    if !contains(a) || !contains(b) {
        return vec![];
    }
    let u = normalize(rotate90(subtract(b, a)));
    vec![L { u, d: dot(add(a, b), u) / 2.0 }]
}

fn axiom2(a: V, b: V) -> Vec<L> {
    if !contains(a) || !contains(b) {
        return vec![];
    }
    let u = normalize(subtract(b, a));
    vec![L { u, d: dot(add(a, b), u) / 2.0 }]
}

fn axiom3(a: L, b: L) -> Vec<L> {
    let (seg_a, seg_b) = match (clip(a), clip(b)) {
        (Some(x), Some(y)) => (x, y),
        _ => return vec![],
    };
    let p = match intersect(a, b) {
        Some(p) => p,
        None => return vec![L { u: a.u, d: (a.d + b.d * dot(a.u, b.u)) / 2.0 }],
    };
    let u1 = normalize(add(a.u, b.u));
    let u2 = normalize(subtract(a.u, b.u));
    let solutions = vec![L { u: u1, d: dot(p, u1) }, L { u: u2, d: dot(p, u2) }];
    solutions
        .into_iter()
        .filter(|l| clip(*l).is_some() && quick_overlap(reflect_segment(*l, seg_a), seg_b))
        .collect()
}

fn axiom4(a: V, b: L) -> Vec<L> {
    let u = rotate90(b.u);
    let solution = L { u, d: dot(a, u) };
    let dist = b.d - dot(a, b.u);
    let point = add(a, scale(u, dist));
    if contains(point) && clip(solution).is_some() {
        vec![solution]
    } else {
        vec![]
    }
}

fn axiom5(p1: V, p2: V, l: L) -> Vec<L> {
    let a = l.d - dot(p1, l.u);
    let c = magnitude(subtract(p1, p2));
    if a > c {
        return vec![];
    }
    let b = (c * c - a * a).sqrt();
    let base_center = add(p1, scale(l.u, a));
    let base_vector = scale(rotate90(l.u), b);
    let mirrors = if b < EPS {
        vec![base_center]
    } else {
        vec![add(base_center, base_vector), subtract(base_center, base_vector)]
    };
    mirrors
        .into_iter()
        .filter(|m| contains(*m))
        .map(|m| normalize(subtract(p2, m)))
        .map(|u| L { u, d: dot(p1, u) })
        .collect()
}

fn axiom6_lower(p1: V, p2: V, l1: L, l2: L) -> Option<Vec<L>> {
    if (1.0 - (dot(l1.u, p1) / l1.d)).abs() < 0.02 {
        return Some(vec![]);
    }
    let line_vec = rotate90(l1.u);
    let vec1 = subtract(add(p1, scale(l1.u, l1.d)), scale(p2, 2.0));
    let vec2 = subtract(scale(l1.u, l1.d), p1);
    let c1 = dot(p2, l2.u) - l2.d;
    let c2 = 2.0 * dot(vec2, line_vec);
    let c3 = dot(vec2, vec2);
    let c4 = dot(add(vec1, vec2), line_vec);
    let c5 = dot(vec1, vec2);
    let c6 = dot(line_vec, l2.u);
    let c7 = dot(vec2, l2.u);
    let a = c6;
    let b = c1 + c4 * c6 + c7;
    let c = c1 * c2 + c5 * c6 + c4 * c7;
    let d = c1 * c3 + c5 * c7;
    let roots = if a.abs() > EPS {
        return None;
    } else if b.abs() > EPS {
        let discriminant = c * c - (4.0 * b * d);
        if discriminant < -EPS {
            vec![]
        } else if discriminant < EPS {
            vec![-c / (2.0 * b)]
        } else {
            let q1 = -c / (2.0 * b);
            let q2 = discriminant.sqrt() / (2.0 * b);
            vec![q1 + q2, q1 - q2]
        }
    } else if c.abs() > EPS {
        vec![-d / c]
    } else {
        vec![]
    };
    let mut lines = vec![];
    for n in roots {
        let mirror1 = add(scale(l1.u, l1.d), scale(line_vec, n));
        let u = normalize(subtract(mirror1, p1));
        let d = dot(u, midpoint(mirror1, p1));
        let mirror2 = add(p2, scale(u, 2.0 * (d - dot(p2, u))));
        if contains(mirror1) && contains(mirror2) {
            lines.push(L { u, d });
        }
    }
    Some(lines)
}

fn axiom7(p: V, l1: L, l2: L) -> Vec<L> {
    let u = rotate90(l1.u);
    let u_u = dot(u, l2.u);
    if u_u.abs() < EPS {
        return vec![];
    }
    let a = dot(p, u);
    let b = dot(p, l2.u);
    let d = (l2.d + 2.0 * a * u_u - b) / (2.0 * u_u);
    let solution = L { u, d };
    let reflection = reflect_vector(solution, p);
    let test1 = contains(reflection);
    let rest = match intersect(solution, l1) {
        Some(foot) => contains(foot) && !equivalent(reflection, foot),
        None => false,
    };
    if test1 && rest {
        vec![solution]
    } else {
        vec![]
    }
}

fn next(state: &mut u64) -> u64 {
    let mut x: u64 = *state;
    x ^= x << 13;
    x ^= x >> 7;
    x ^= x << 17;
    *state = x;
    x
}

// A number from a grid of step 1/64 in [-0.5, 1.5], or now and then a number
// off the grid, a tiny one or a huge one.
fn number(state: &mut u64) -> f64 {
    let raw: u64 = next(state);
    match raw % 16 {
        0 => (raw >> 11) as f64 / (1u64 << 53) as f64 * 2.0 - 0.5,
        1 => ((raw >> 11) as f64 / (1u64 << 53) as f64 - 0.5) * 1.0e-7,
        2 => ((raw >> 11) as f64 / (1u64 << 53) as f64 - 0.5) * 1.0e3,
        _ => ((raw >> 8) % 129) as f64 / 64.0 - 0.5,
    }
}

fn point(state: &mut u64) -> V {
    V { x: number(state), y: number(state) }
}

fn line(state: &mut u64) -> L {
    let u = match next(state) % 4 {
        0 => V { x: 1.0, y: 0.0 },
        1 => V { x: 0.0, y: -1.0 },
        _ => normalize(point(state)),
    };
    L { u, d: number(state) }
}

#[test]
fn vectors_agree_with_the_hardware() {
    let mut state: u64 = 0x2545_F491_4F6C_DD1D;
    for _ in 0..20_000 {
        let a = point(&mut state);
        let b = point(&mut state);
        let t = number(&mut state);
        assert!(same(vk(a).magnitude(), magnitude(a)));
        assert!(same(vk(a).magnitude_squared(), a.x * a.x + a.y * a.y));
        assert!(same(vk(a).dot(vk(b)), dot(a, b)));
        assert!(same(vk(a).determinant(vk(b)), determinant(a, b)));
        assert!(same(vk(a).distance_to(vk(b)), magnitude(subtract(a, b))));
        assert!(same_v(vk(a).normalize(), normalize(a)));
        assert!(same_v(vk(a).scale(s(t)), scale(a, t)));
        assert!(same_v(vk(a).add(vk(b)), add(a, b)));
        assert!(same_v(vk(a).subtract(vk(b)), subtract(a, b)));
        assert!(same_v(vk(a).flip(), V { x: -a.x, y: -a.y }));
        assert!(same_v(vk(a).rotate90(), rotate90(a)));
        assert!(same_v(vk(a).rotate270(), V { x: a.y, y: -a.x }));
        assert!(same_v(vk(a).midpoint(vk(b)), midpoint(a, b)));
        assert_eq!(vk(a).degenerate(), a.x.abs() + a.y.abs() < EPS);
        assert_eq!(vk(a).equivalent(vk(b)), equivalent(a, b));
        let cosine = dot(normalize(a), normalize(b));
        assert_eq!(vk(a).parallel(vk(b)), 1.0 - cosine.abs() < EPS);
    }
}

#[test]
fn lines_and_segments_agree_with_the_hardware() {
    let mut state: u64 = 0x9E37_79B9_7F4A_7C15;
    for _ in 0..20_000 {
        let a = line(&mut state);
        let b = line(&mut state);
        let p = point(&mut state);
        let seg = S { a: point(&mut state), b: point(&mut state) };
        let other = S { a: point(&mut state), b: point(&mut state) };
        match (lk(a).intersect(lk(b)), intersect(a, b)) {
            (Some(got), Some(expected)) => assert!(same_v(got, expected)),
            (None, None) => {}
            (got, expected) => panic!("{:?} against {:?}", got, expected),
        }
        let cross = dot(a.u, rotate90(b.u));
        let gap = a.d - b.d * dot(a.u, b.u);
        assert_eq!(lk(a).equivalent(lk(b)), cross.abs() < EPS && gap.abs() < EPS);
        assert!(same_v(lk(a).reflect_vector(vk(p)), reflect_vector(a, p)));
        assert!(same_s(lk(a).reflect_segment(sk(seg)), reflect_segment(a, seg)));
        assert_eq!(sk(seg).quick_overlap(sk(other)), quick_overlap(seg, other));
        let along = S { a: seg.a, b: add(seg.a, scale(subtract(seg.b, seg.a), number(&mut state))) };
        assert_eq!(sk(seg).quick_overlap(sk(along)), quick_overlap(seg, along));
    }
}

#[test]
fn the_sheet_agrees_with_the_hardware() {
    let sq = make_square();
    for (side, expected) in sq.sides.iter().zip(sides()) {
        assert!(same_l(*side, expected));
    }
    let mut state: u64 = 0xD1B5_4A32_D192_ED03;
    let mut pieces: u32 = 0;
    for _ in 0..20_000 {
        let p = point(&mut state);
        assert_eq!(sq.contains(vk(p)), contains(p));
        let l = line(&mut state);
        match (sq.clip(lk(l)), clip(l)) {
            (Some(got), Some(expected)) => {
                assert!(same_s(got, expected));
                pieces += 1;
            }
            (None, None) => {}
            (got, expected) => panic!("{:?} against {:?}", got, expected),
        }
    }
    assert!(pieces > 1000);
}

#[test]
fn axioms_agree_with_the_hardware() {
    let sq = make_square();
    let mut state: u64 = 0x94D0_49BB_1331_11EB;
    let mut found: [u32; 8] = [0; 8];
    for _ in 0..6_000 {
        let a = point(&mut state);
        let b = point(&mut state);
        let l = line(&mut state);
        let m = line(&mut state);
        let got = axioms::axiom1(vk(a), vk(b), sq);
        assert!(same_lines(&got, &axiom1(a, b)));
        found[1] += got.len() as u32;
        let got = axioms::axiom2(vk(a), vk(b), sq);
        assert!(same_lines(&got, &axiom2(a, b)));
        found[2] += got.len() as u32;
        let got = axioms::axiom3(lk(l), lk(m), sq);
        assert!(same_lines(&got, &axiom3(l, m)), "{:?} {:?}", l, m);
        found[3] += got.len() as u32;
        let got = axioms::axiom4(vk(a), lk(l), sq);
        assert!(same_lines(&got, &axiom4(a, l)));
        found[4] += got.len() as u32;
        let got = axioms::axiom5(vk(a), vk(b), lk(l), sq);
        assert!(same_lines(&got, &axiom5(a, b, l)));
        found[5] += got.len() as u32;
        if let Some(expected) = axiom6_lower(a, b, l, m) {
            let unread = Radicals { cosine: s(f64::NAN), sine: s(f64::NAN) };
            let got = axioms::axiom6(vk(a), vk(b), lk(l), lk(m), sq, unread);
            assert!(same_lines(&got, &expected));
            found[6] += got.len() as u32;
        }
        let got = axioms::axiom7(vk(a), lk(l), lk(m), sq);
        assert!(same_lines(&got, &axiom7(a, l, m)));
        found[7] += got.len() as u32;
    }
    for k in 1..8 {
        assert!(found[k] > 5, "construction {}: {} folds", k, found[k]);
    }
}

#[test]
fn folds_through_the_middle_agree_with_the_hardware() {
    let sq = make_square();
    let mut state: u64 = 0x6C62_272E_07BB_0142;
    let mut found: u32 = 0;
    let near = |state: &mut u64| {
        V { x: 0.25 + (next(state) % 33) as f64 / 64.0, y: 0.25 + (next(state) % 33) as f64 / 64.0 }
    };
    for _ in 0..4_000 {
        let a = near(&mut state);
        let b = near(&mut state);
        let l = L { u: normalize(point(&mut state)), d: 0.25 + (next(&mut state) % 33) as f64 / 64.0 };
        let m = L { u: normalize(point(&mut state)), d: 0.125 + (next(&mut state) % 33) as f64 / 64.0 };
        let got = axioms::axiom3(lk(l), lk(m), sq);
        assert!(same_lines(&got, &axiom3(l, m)));
        found += got.len() as u32;
        let got = axioms::axiom5(vk(a), vk(b), lk(l), sq);
        assert!(same_lines(&got, &axiom5(a, b, l)));
        found += got.len() as u32;
        let got = axioms::axiom7(vk(a), lk(l), lk(m), sq);
        assert!(same_lines(&got, &axiom7(a, l, m)));
        found += got.len() as u32;
    }
    assert!(found > 1000);
}

#[test]
fn lower_degrees_agree_with_the_hardware() {
    let mut state: u64 = 0xA076_1D64_78BD_642F;
    let unread = Radicals { cosine: s(f64::NAN), sine: s(f64::NAN) };
    for _ in 0..20_000 {
        let b = number(&mut state);
        let c = number(&mut state);
        let d = number(&mut state);
        let got = polynomial::polynomial(1, s(0.0), s(b), s(c), s(d), unread);
        assert_eq!(got.len(), 1);
        assert!(same(got[0], -d / c));
        let got = polynomial::polynomial(2, s(0.0), s(b), s(c), s(d), unread);
        let discriminant = c * c - (4.0 * b * d);
        let q1 = -c / (2.0 * b);
        let q2 = discriminant.sqrt() / (2.0 * b);
        if discriminant < -EPS {
            assert_eq!(got.len(), 0);
        } else if discriminant < EPS {
            assert_eq!(got.len(), 1);
            assert!(same(got[0], q1));
        } else {
            assert_eq!(got.len(), 2);
            assert!(same(got[0], q1 + q2));
            assert!(same(got[1], q1 - q2));
        }
    }
}
