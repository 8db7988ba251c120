use rabbit_ear::Scalar;

fn s(x: f64) -> Scalar {
    Scalar::from_bits(x.to_bits())
}

fn same(got: Scalar, expected: f64) -> bool {
    if expected.is_nan() {
        got.is_nan()
    } else {
        got.to_bits() == expected.to_bits()
    }
}

fn next(state: &mut u64) -> u64 {
    let mut x: u64 = *state;
    x ^= x << 13;
    x ^= x >> 7;
    x ^= x << 17;
    *state = x;
    x
}

fn specials() -> Vec<f64> {
    vec![
        0.0,
        -0.0,
        5e-324,
        -5e-324,
        1.0e-310,
        f64::MIN_POSITIVE,
        -f64::MIN_POSITIVE,
        f64::from_bits(0x000F_FFFF_FFFF_FFFF),
        1.0e-8,
        0.02,
        1.0 / 3.0,
        0.1,
        0.5,
        1.0 - f64::EPSILON / 2.0,
        1.0,
        1.0 + f64::EPSILON,
        -1.0,
        1.5,
        2.0,
        3.0,
        -2.8284271247461903,
        0.7071067811865475,
        0.7071067811865476,
        1.0e15,
        9007199254740992.0,
        9007199254740993.0,
        1.0e154,
        1.0e155,
        -1.0e300,
        f64::MAX,
        f64::MIN,
        f64::INFINITY,
        f64::NEG_INFINITY,
        f64::NAN,
    ]
}

// Patterns spread over all exponents, and patterns near one so that sums
// cancel and products stay in range.
fn draws(count: usize) -> Vec<f64> {
    let mut state: u64 = 0x9E37_79B9_7F4A_7C15;
    let mut out: Vec<f64> = Vec::new();
    for i in 0..count {
        let raw: u64 = next(&mut state);
        let x = if i % 2 == 0 {
            f64::from_bits(raw)
        } else {
            let exponent: u64 = 1023 - 30 + (next(&mut state) % 60);
            f64::from_bits((raw & 0x800F_FFFF_FFFF_FFFF) | (exponent << 52))
        };
        out.push(x);
    }
    out
}

#[test]
fn products_agree_with_the_hardware_on_special_values() {
    for x in specials() {
        for y in specials() {
            assert!(same(s(x).mul(s(y)), x * y), "{:e} * {:e}", x, y);
        }
    }
}

#[test]
fn products_agree_with_the_hardware_on_many_values() {
    let xs = draws(600);
    for x in &xs {
        for y in &xs {
            assert!(same(s(*x).mul(s(*y)), x * y), "{:e} * {:e}", x, y);
        }
    }
}

#[test]
fn products_round_into_the_subnormals() {
    let tiny = [5e-324, 1.0e-310, 2.0e-308, f64::MIN_POSITIVE, 3.0e-200, 1.0e-160];
    let factors = [0.5, 0.25, 0.75, 1.0e-3, 1.5, 0.3, 1.0e-150, 1.0e-170, 0.49999999999999994];
    for x in tiny {
        for y in factors {
            assert!(same(s(x).mul(s(y)), x * y), "{:e} * {:e}", x, y);
            assert!(same(s(-x).mul(s(y)), -x * y), "{:e} * {:e}", -x, y);
        }
    }
}

#[test]
fn sums_agree_with_the_hardware_on_special_values() {
    for x in specials() {
        for y in specials() {
            assert!(same(s(x).add(s(y)), x + y), "{:e} + {:e}", x, y);
            assert!(same(s(x).sub(s(y)), x - y), "{:e} - {:e}", x, y);
        }
    }
}

#[test]
fn sums_agree_with_the_hardware_on_many_values() {
    let xs = draws(600);
    for x in &xs {
        for y in &xs {
            assert!(same(s(*x).add(s(*y)), x + y), "{:e} + {:e}", x, y);
            assert!(same(s(*x).sub(s(*y)), x - y), "{:e} - {:e}", x, y);
        }
    }
}

#[test]
fn sums_of_zeros_keep_the_sign_rules() {
    assert_eq!(s(0.0).add(s(0.0)).to_bits(), 0.0_f64.to_bits());
    assert_eq!(s(-0.0).add(s(0.0)).to_bits(), 0.0_f64.to_bits());
    assert_eq!(s(0.0).add(s(-0.0)).to_bits(), 0.0_f64.to_bits());
    assert_eq!(s(-0.0).add(s(-0.0)).to_bits(), (-0.0_f64).to_bits());
    assert_eq!(s(1.5).sub(s(1.5)).to_bits(), 0.0_f64.to_bits());
    assert_eq!(s(-1.5).add(s(1.5)).to_bits(), 0.0_f64.to_bits());
    assert_eq!(s(0.0).sub(s(0.0)).to_bits(), 0.0_f64.to_bits());
    assert_eq!(s(-0.0).sub(s(0.0)).to_bits(), (-0.0_f64).to_bits());
}

#[test]
fn sums_of_numbers_far_apart_round_by_the_sticky_part() {
    let bigs = [1.0, 1.0 + f64::EPSILON, 2.0 - f64::EPSILON, 4503599627370496.0, 1.0e300];
    let smalls = [5e-324, 1.0e-30, 1.0e-17, 1.1102230246251565e-16, 5.551115123125783e-17, 1.0e-300];
    for x in bigs {
        for y in smalls {
            for (a, b) in [(x, y), (x, -y), (-x, y), (-x, -y), (y, x), (-y, x)] {
                assert!(same(s(a).add(s(b)), a + b), "{:e} + {:e}", a, b);
                assert!(same(s(a).sub(s(b)), a - b), "{:e} - {:e}", a, b);
            }
        }
    }
}

#[test]
fn quotients_agree_with_the_hardware_on_special_values() {
    for x in specials() {
        for y in specials() {
            assert!(same(s(x).div(s(y)), x / y), "{:e} / {:e}", x, y);
        }
    }
}

#[test]
fn quotients_agree_with_the_hardware_on_many_values() {
    let xs = draws(600);
    for x in &xs {
        for y in &xs {
            assert!(same(s(*x).div(s(*y)), x / y), "{:e} / {:e}", x, y);
        }
    }
}

#[test]
fn quotients_round_into_the_subnormals() {
    let tiny = [5e-324, 1.0e-310, 2.0e-308, f64::MIN_POSITIVE, 3.0e-200, 1.0e-160];
    let divisors = [2.0, 4.0, 3.0, 1.0e3, 0.75, 7.0, 1.0e150, 1.0e170, 1.9999999999999998];
    for x in tiny {
        for y in divisors {
            assert!(same(s(x).div(s(y)), x / y), "{:e} / {:e}", x, y);
            assert!(same(s(-x).div(s(y)), -x / y), "{:e} / {:e}", -x, y);
            assert!(same(s(y).div(s(x)), y / x), "{:e} / {:e}", y, x);
        }
    }
}

#[test]
fn roots_agree_with_the_hardware_on_special_values() {
    for x in specials() {
        assert!(same(s(x).sqrt(), x.sqrt()), "sqrt {:e}", x);
    }
    assert_eq!(s(-0.0).sqrt().to_bits(), (-0.0_f64).to_bits());
    assert_eq!(s(4.0).sqrt().to_bits(), 2.0_f64.to_bits());
    assert_eq!(s(2.0).sqrt().to_bits(), 1.4142135623730951_f64.to_bits());
    assert!(s(-1.0).sqrt().is_nan());
    assert!(s(f64::NEG_INFINITY).sqrt().is_nan());
}

#[test]
fn roots_agree_with_the_hardware_on_many_values() {
    for x in draws(200_000) {
        assert!(same(s(x).sqrt(), x.sqrt()), "sqrt {:e}", x);
        assert!(same(s(x.abs()).sqrt(), x.abs().sqrt()), "sqrt {:e}", x.abs());
    }
}

#[test]
fn roots_of_squares_are_exact() {
    let mut state: u64 = 0x1234_5678_9ABC_DEF1;
    for _ in 0..20_000 {
        let n: u64 = next(&mut state) % 94_906_265;
        let x = n as f64;
        assert_eq!(s(x * x).sqrt().to_bits(), x.to_bits());
    }
    for x in [5e-324, 1.0e-320, 2.0e-308, f64::MIN_POSITIVE, 4.0e-308, f64::MAX] {
        assert!(same(s(x).sqrt(), x.sqrt()), "sqrt {:e}", x);
    }
}

#[test]
fn cube_roots_of_cubes_are_exact() {
    for n in 0..2000u32 {
        let x = n as f64;
        assert_eq!(s(x * x * x).cbrt().to_bits(), x.to_bits());
        assert_eq!(s(-(x * x * x)).cbrt().to_bits(), (-x).to_bits());
    }
    for k in -340..340i32 {
        let x = 2.0_f64.powi(k);
        assert_eq!(s(x * x * x).cbrt().to_bits(), x.to_bits(), "2^{}", k);
    }
    assert_eq!(s(0.001).cbrt().to_bits(), 0.1_f64.to_bits());
    assert_eq!(s(0.027).cbrt().to_bits(), 0.3_f64.to_bits());
    assert_eq!(s(5e-324).cbrt().to_bits(), 5e-324_f64.cbrt().to_bits());
}

#[test]
fn cube_roots_keep_sign_and_special_values() {
    assert_eq!(s(0.0).cbrt().to_bits(), 0.0_f64.to_bits());
    assert_eq!(s(-0.0).cbrt().to_bits(), (-0.0_f64).to_bits());
    assert_eq!(s(f64::INFINITY).cbrt().to_bits(), f64::INFINITY.to_bits());
    assert_eq!(s(f64::NEG_INFINITY).cbrt().to_bits(), f64::NEG_INFINITY.to_bits());
    assert!(s(f64::NAN).cbrt().is_nan());
    assert_eq!(s(-27.0).cbrt().to_bits(), (-3.0_f64).to_bits());
}

#[test]
fn cube_roots_stay_within_a_step_of_the_hardware() {
    for x in draws(100_000) {
        if x.is_nan() {
            continue;
        }
        let got = s(x).cbrt();
        let expected = x.cbrt();
        let gap = (got.to_bits() as i128 - expected.to_bits() as i128).abs();
        assert!(gap <= 1, "cbrt {:e}: {:e} against {:e}", x, f64::from_bits(got.to_bits()), expected);
    }
}

#[test]
fn cube_roots_rise_with_their_argument() {
    let mut last = s(0.0).cbrt();
    let mut x: f64 = 1.0e-320;
    while x < 1.0e300 {
        let root = s(x).cbrt();
        assert!(last.le(root));
        assert!(!root.mul(root).mul(root).is_nan());
        last = root;
        x *= 1.37;
    }
}

#[test]
fn cube_roots_lie_between_the_cubes_of_their_neighbours() {
    let mut state: u64 = 0x0123_4567_89AB_CDEF;
    for _ in 0..20_000 {
        let raw: u64 = next(&mut state);
        let exponent: u64 = 1023 + (next(&mut state) % 3);
        let x = f64::from_bits((raw & 0x000F_FFFF_FFFF_FFFF) | (exponent << 52));
        let r = f64::from_bits(s(x).cbrt().to_bits());
        assert!(r >= 1.0 && r < 2.0);
        let low = r - f64::EPSILON;
        let high = r + f64::EPSILON;
        assert!(low * low * low < x || low < 1.0);
        assert!(high * high * high > x);
    }
}

#[test]
fn whole_numbers_are_exact() {
    for n in [0u32, 1, 2, 3, 4, 9, 27, 54, 255, 65_536, 16_777_217, u32::MAX] {
        assert_eq!(Scalar::whole(n).to_bits(), (n as f64).to_bits());
    }
}
