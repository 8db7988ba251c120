//! Rounding in practice: from a number held as a whole number times a power
//! of two, with a note of whether more follows, to the magnitude of the
//! nearest double.
use crate::nearest::{
    lemma_cubes_rise, lemma_nearest_same_fraction, lemma_units_packed, nearest,
    nearest_cube_root, nearest_root,
};
use crate::scalar::{HIDDEN_BIT, INFINITY_BITS, lemma_units_increasing, units};
use vstd::arithmetic::power2::{lemma_pow2_adds, lemma_pow2_pos, lemma_pow2_unfold, pow2};
use vstd::prelude::*;

verus! {

/// The positive part of an exponent.
pub open spec fn up_shift(x: int) -> nat {
    if x >= 0 {
        x as nat
    } else {
        0
    }
}

/// The negative part of an exponent.
pub open spec fn down_shift(x: int) -> nat {
    if x >= 0 {
        0
    } else {
        (-x) as nat
    }
}

/// The step at which a number of `l` bits, scaled by `2^x`, is rounded, as a
/// power of two: what lies beyond fifty-three bits is dropped, but nothing
/// under one unit is kept.
pub open spec fn step_exponent(l: int, x: int) -> int {
    if l + x - 53 >= 0 {
        l + x - 53
    } else {
        0
    }
}

/// Whether the dropped part `rem`, out of `2^k`, rounds the kept part `sig`
/// up: beyond the half always, and at the half where more follows or `sig`
/// is odd.
pub open spec fn rounds_up(rem: int, k: int, sig: int, sticky: bool) -> bool {
    2 * rem > pow2(k as nat) || (2 * rem == pow2(k as nat) && (sticky || sig % 2 == 1))
}

/// What is known of the magnitude `r` that the number `m * 2^x` was rounded
/// to. Where the number is exact, it rounds to `r`. Where more follows (the
/// exact number lies strictly between `m * 2^x` and `(m + 1) * 2^x`), both
/// ends of that stretch lie between the midpoints to the neighbours of `r`.
pub open spec fn rounds_to(m: int, x: int, sticky: bool, r: int) -> bool {
    let p = pow2(up_shift(x)) as int;
    let q = pow2(down_shift(x)) as int;
    if sticky {
        &&& 0 <= r <= INFINITY_BITS
        &&& r > 0 ==> (units(r - 1) + units(r)) * q <= 2 * (m * p)
        &&& r < INFINITY_BITS ==> 2 * ((m + 1) * p) <= (units(r) + units(r + 1)) * q
    } else {
        nearest(m * p, q, r)
    }
}

/// The kept part of a number has at most fifty-three bits, and exactly so
/// many above the lowest step.
proof fn lemma_kept_bounds(m: int, l: int, x: int, k: int, sig: int, rem: int)
    requires
        l >= 1,
        pow2((l - 1) as nat) <= m < pow2(l as nat),
        k == step_exponent(l, x) - x,
        k >= 1,
        m == sig * pow2(k as nat) + rem,
        0 <= rem < pow2(k as nat),
    ensures
        0 <= sig < 2 * HIDDEN_BIT,
        step_exponent(l, x) >= 1 ==> sig >= HIDDEN_BIT,
{
    let kk = pow2(k as nat) as int;
    lemma_pow2_pos(k as nat);
    lemma_pow2_pos((l - 1) as nat);
    vstd::arithmetic::power2::lemma2_to64_rest();
    assert(sig >= 0) by (nonlinear_arith)
        requires
            m >= 1,
            m == sig * kk + rem,
            0 <= rem < kk,
    ;
    if l - k <= 0 {
        if l < k {
            vstd::arithmetic::power2::lemma_pow2_strictly_increases(l as nat, k as nat);
        }
        assert(sig < 1) by (nonlinear_arith)
            requires
                m < kk,
                m == sig * kk + rem,
                0 <= rem,
                kk > 0,
        ;
    } else {
        let top = pow2((l - k) as nat) as int;
        lemma_pow2_adds((l - k) as nat, k as nat);
        assert(sig < top) by (nonlinear_arith)
            requires
                m < top * kk,
                m == sig * kk + rem,
                0 <= rem,
                kk > 0,
        ;
        assert(l - k <= 53);
        if l - k < 53 {
            vstd::arithmetic::power2::lemma_pow2_strictly_increases((l - k) as nat, 53);
        }
    }
    if step_exponent(l, x) >= 1 {
        assert(k == l - 53);
        lemma_pow2_adds(52, k as nat);
        assert(sig + 1 > HIDDEN_BIT) by (nonlinear_arith)
            requires
                HIDDEN_BIT * kk <= m,
                m == sig * kk + rem,
                rem < kk,
                kk > 0,
        ;
    }
}

/// Rounding the kept part up or down at the half of the dropped part gives
/// the magnitude that the number rounds to, infinity where it is too large.
pub proof fn lemma_rounding(m: int, l: int, x: int, k: int, sig: int, rem: int, sticky: bool)
    requires
        l >= 1,
        pow2((l - 1) as nat) <= m < pow2(l as nat),
        k == step_exponent(l, x) - x,
        k >= 1,
        m == sig * pow2(k as nat) + rem,
        0 <= rem < pow2(k as nat),
    ensures
        0 <= sig < 2 * HIDDEN_BIT,
        step_exponent(l, x) >= 1 ==> sig >= HIDDEN_BIT,
        ({
            let t = step_exponent(l, x) * HIDDEN_BIT + sig + if rounds_up(rem, k, sig, sticky) {
                1int
            } else {
                0int
            };
            rounds_to(
                m,
                x,
                sticky,
                if t < INFINITY_BITS {
                    t
                } else {
                    INFINITY_BITS as int
                },
            )
        }),
{
    lemma_kept_bounds(m, l, x, k, sig, rem);
    let j = step_exponent(l, x);
    let h = HIDDEN_BIT as int;
    let inf = INFINITY_BITS as int;
    let up = rounds_up(rem, k, sig, sticky);
    let t = j * h + sig;
    let r0 = t + if up {
        1int
    } else {
        0int
    };
    let r = if r0 < inf {
        r0
    } else {
        inf
    };
    let kk = pow2(k as nat) as int;
    let jj = pow2(j as nat) as int;
    let p = pow2(up_shift(x)) as int;
    let q = pow2(down_shift(x)) as int;
    lemma_pow2_pos(k as nat);
    lemma_pow2_pos(j as nat);
    lemma_pow2_pos(up_shift(x));
    lemma_pow2_pos(down_shift(x));
    lemma_pow2_adds(j as nat, down_shift(x));
    lemma_pow2_adds(k as nat, up_shift(x));
    assert(jj * q == kk * p);
    lemma_units_packed(j, sig);
    lemma_units_packed(j, sig + 1);
    assert(units(t) == sig * jj);
    assert(units(t + 1) == (sig + 1) * jj);
    assert(t >= 0) by (nonlinear_arith)
        requires
            t == j * h + sig,
            j >= 0,
            sig >= 0,
            h > 0,
    ;
    // The value of the kept part and of its successor, on the scale of `m`.
    assert(units(t) * q == sig * kk * p) by (nonlinear_arith)
        requires
            units(t) == sig * jj,
            jj * q == kk * p,
    ;
    assert(units(t + 1) * q == (sig + 1) * kk * p) by (nonlinear_arith)
        requires
            units(t + 1) == (sig + 1) * jj,
            jj * q == kk * p,
    ;
    assert(sig * kk * p <= m * p && (m + 1) * p <= (sig + 1) * kk * p) by (nonlinear_arith)
        requires
            m == sig * kk + rem,
            0 <= rem < kk,
            p > 0,
    ;
    if r0 > inf {
        // Far beyond the largest finite double.
        lemma_units_increasing(inf - 1, inf);
        let base = r0 - 1;
        if inf < base {
            lemma_units_increasing(inf, base);
        }
        if up {
            assert(base == t);
        } else {
            lemma_units_increasing(t - 1, t);
            assert(base == t - 1);
            if inf < t - 1 {
            }
            lemma_units_increasing(inf, t);
        }
        assert(units(inf) <= units(t));
        assert((units(inf - 1) + units(inf)) * q < 2 * (m * p)) by (nonlinear_arith)
            requires
                units(inf - 1) < units(inf),
                units(inf) <= units(t),
                units(t) * q == sig * kk * p,
                sig * kk * p <= m * p,
                q > 0,
        ;
    } else if up {
        // `r0 == t + 1`.
        assert((units(t) + units(t + 1)) * q == (2 * sig + 1) * kk * p) by (nonlinear_arith)
            requires
                units(t) * q == sig * kk * p,
                units(t + 1) * q == (sig + 1) * kk * p,
        ;
        assert((2 * sig + 1) * kk * p <= 2 * (m * p)) by (nonlinear_arith)
            requires
                m == sig * kk + rem,
                2 * rem >= kk,
                p > 0,
        ;
        assert(2 * rem == kk <==> (2 * sig + 1) * kk * p == 2 * (m * p)) by (nonlinear_arith)
            requires
                m == sig * kk + rem,
                p > 0,
        ;
        assert(t % 2 == sig % 2) by {
            assert(j * h == 2 * (j * 0x8_0000_0000_0000)) by (nonlinear_arith)
                requires
                    h == 0x10_0000_0000_0000,
            ;
        }
        if r0 < inf {
            lemma_units_increasing(t + 1, t + 2);
            assert(2 * ((m + 1) * p) < (units(t + 1) + units(t + 2)) * q) by (nonlinear_arith)
                requires
                    units(t + 1) < units(t + 2),
                    units(t + 1) * q == (sig + 1) * kk * p,
                    (m + 1) * p <= (sig + 1) * kk * p,
                    q > 0,
            ;
            assert(2 * (m * p) < 2 * ((m + 1) * p)) by (nonlinear_arith)
                requires
                    p > 0,
            ;
        }
    } else {
        // `r0 == t`.
        if t > 0 {
            lemma_units_increasing(t - 1, t);
            assert((units(t - 1) + units(t)) * q < 2 * (m * p)) by (nonlinear_arith)
                requires
                    units(t - 1) < units(t),
                    units(t) * q == sig * kk * p,
                    sig * kk * p <= m * p,
                    q > 0,
            ;
        }
        assert((units(t) + units(t + 1)) * q == (2 * sig + 1) * kk * p) by (nonlinear_arith)
            requires
                units(t) * q == sig * kk * p,
                units(t + 1) * q == (sig + 1) * kk * p,
        ;
        assert(2 * (m * p) <= (2 * sig + 1) * kk * p) by (nonlinear_arith)
            requires
                m == sig * kk + rem,
                2 * rem <= kk,
                p > 0,
        ;
        assert(2 * rem == kk <==> (2 * sig + 1) * kk * p == 2 * (m * p)) by (nonlinear_arith)
            requires
                m == sig * kk + rem,
                p > 0,
        ;
        let half = pow2((k - 1) as nat) as int;
        lemma_pow2_unfold(k as nat);
        assert(2 * rem < kk ==> 2 * ((m + 1) * p) <= (2 * sig + 1) * kk * p) by (nonlinear_arith)
            requires
                m == sig * kk + rem,
                kk == 2 * half,
                p > 0,
        ;
        assert(t % 2 == sig % 2) by {
            assert(j * h == 2 * (j * 0x8_0000_0000_0000)) by (nonlinear_arith)
                requires
                    h == 0x10_0000_0000_0000,
            ;
        }
    }
}

/// What the exact number `m * 2^x` rounds to, any fraction of that value
/// rounds to.
pub proof fn lemma_exact_rounds(m: int, x: int, r: int, n: int, d: int)
    requires
        d > 0,
        rounds_to(m, x, false, r),
        (m * pow2(up_shift(x))) * d == n * pow2(down_shift(x)),
    ensures
        nearest(n, d, r),
{
    lemma_pow2_pos(down_shift(x));
    lemma_nearest_same_fraction(m * pow2(up_shift(x)), pow2(down_shift(x)) as int, n, d, r);
}

/// What every number strictly between `m * 2^x` and `(m + 1) * 2^x` rounds
/// to, a fraction between them rounds to.
pub proof fn lemma_between_rounds(m: int, x: int, r: int, n: int, d: int)
    requires
        d > 0,
        rounds_to(m, x, true, r),
        (m * pow2(up_shift(x))) * d < n * pow2(down_shift(x)),
        n * pow2(down_shift(x)) < ((m + 1) * pow2(up_shift(x))) * d,
    ensures
        nearest(n, d, r),
{
    let p = pow2(up_shift(x)) as int;
    let q = pow2(down_shift(x)) as int;
    lemma_pow2_pos(down_shift(x));
    if r > 0 {
        let a = units(r - 1) + units(r);
        assert(a * d < 2 * n) by (nonlinear_arith)
            requires
                a * q <= 2 * (m * p),
                (m * p) * d < n * q,
                q > 0,
                d > 0,
        ;
    }
    if r < INFINITY_BITS {
        let b = units(r) + units(r + 1);
        assert(2 * n < b * d) by (nonlinear_arith)
            requires
                2 * ((m + 1) * p) <= b * q,
                n * q < ((m + 1) * p) * d,
                q > 0,
                d > 0,
        ;
    }
}

/// What the number `s * 2^h` rounds to, or every number between it and
/// `(s + 1) * 2^h`, the square root of `m * 4^h` rounds to, for `s` the whole
/// part of the square root of `m`.
pub proof fn lemma_root_rounds(s: int, h: int, sticky: bool, r: int, m: int)
    requires
        h >= 0,
        s >= 0,
        s * s <= m < (s + 1) * (s + 1),
        sticky == (s * s != m),
        rounds_to(s, h, sticky, r),
    ensures
        nearest_root(m * (pow2(h as nat) * pow2(h as nat)), r),
{
    let p = pow2(h as nat) as int;
    lemma_pow2_pos(h as nat);
    vstd::arithmetic::power2::lemma2_to64();
    assert(up_shift(h) == h as nat);
    assert(down_shift(h) == 0);
    let x = m * (p * p);
    let lo = 2 * (s * p);
    let hi = 2 * ((s + 1) * p);
    assert(lo * lo <= 4 * x && (sticky ==> lo * lo < 4 * x) && (!sticky ==> lo * lo == 4 * x))
        by (nonlinear_arith)
        requires
            lo == 2 * (s * p),
            x == m * (p * p),
            s * s <= m,
            sticky == (s * s != m),
            p > 0,
    ;
    assert(4 * x < hi * hi) by (nonlinear_arith)
        requires
            hi == 2 * ((s + 1) * p),
            x == m * (p * p),
            m < (s + 1) * (s + 1),
            p > 0,
    ;
    assert(lo >= 0 && hi > 0) by (nonlinear_arith)
        requires
            lo == 2 * (s * p),
            hi == 2 * ((s + 1) * p),
            s >= 0,
            p > 0,
    ;
    assert(units(0) == 0);
    if r > 0 {
        let a = units(r - 1) + units(r);
        lemma_units_increasing(r - 1, r);
        if r - 1 > 0 {
            lemma_units_increasing(0, r - 1);
        }
        assert(a > 0);
        if sticky {
            assert(a * 1 <= lo);
            assert(a * a <= lo * lo) by (nonlinear_arith)
                requires
                    0 < a <= lo,
            ;
        } else {
            assert(a * 1 < lo || (a * 1 == lo && r % 2 == 0));
            if a < lo {
                assert(a * a < lo * lo) by (nonlinear_arith)
                    requires
                        0 < a < lo,
                ;
            }
        }
    }
    if r < INFINITY_BITS {
        let b = units(r) + units(r + 1);
        if sticky {
            assert(hi <= b * 1);
            assert(hi * hi <= b * b) by (nonlinear_arith)
                requires
                    0 < hi <= b,
            ;
        } else {
            assert(lo < b * 1 || (lo == b * 1 && r % 2 == 0));
            if lo < b {
                assert(lo * lo < b * b) by (nonlinear_arith)
                    requires
                        0 <= lo < b,
                ;
            }
        }
    }
}

/// What the number `s * 2^h` rounds to, or every number between it and
/// `(s + 1) * 2^h`, the cube root of `m * 8^h` rounds to, for `s` the whole
/// part of the cube root of `m`.
pub proof fn lemma_cube_root_rounds(s: int, h: int, sticky: bool, r: int, m: int)
    requires
        h >= 0,
        s >= 0,
        s * s * s <= m < (s + 1) * (s + 1) * (s + 1),
        sticky == (s * s * s != m),
        rounds_to(s, h, sticky, r),
    ensures
        nearest_cube_root(m * (pow2(h as nat) * pow2(h as nat) * pow2(h as nat)), r),
{
    let p = pow2(h as nat) as int;
    lemma_pow2_pos(h as nat);
    vstd::arithmetic::power2::lemma2_to64();
    assert(up_shift(h) == h as nat);
    assert(down_shift(h) == 0);
    let x = m * (p * p * p);
    let lo = 2 * (s * p);
    let hi = 2 * ((s + 1) * p);
    let below = s * s * s;
    let above = (s + 1) * (s + 1) * (s + 1);
    assert(lo * lo * lo == 8 * (below * (p * p * p))) by (nonlinear_arith)
        requires
            lo == 2 * (s * p),
            below == s * s * s,
    ;
    assert(hi * hi * hi == 8 * (above * (p * p * p))) by (nonlinear_arith)
        requires
            hi == 2 * ((s + 1) * p),
            above == (s + 1) * (s + 1) * (s + 1),
    ;
    assert(p * p * p > 0) by (nonlinear_arith)
        requires
            p > 0,
    ;
    let cube = p * p * p;
    assert(below * cube <= m * cube && (sticky ==> below * cube < m * cube) && (!sticky
        ==> below * cube == m * cube) && m * cube < above * cube) by (nonlinear_arith)
        requires
            below <= m < above,
            sticky == (below != m),
            cube > 0,
    ;
    assert(lo >= 0 && hi > 0) by (nonlinear_arith)
        requires
            lo == 2 * (s * p),
            hi == 2 * ((s + 1) * p),
            s >= 0,
            p > 0,
    ;
    assert(units(0) == 0);
    if r > 0 {
        let a = units(r - 1) + units(r);
        lemma_units_increasing(r - 1, r);
        if r - 1 > 0 {
            lemma_units_increasing(0, r - 1);
        }
        assert(a > 0);
        if sticky {
            assert(a * 1 <= lo);
            if a < lo {
                lemma_cubes_rise(a, lo);
            }
        } else {
            assert(a * 1 < lo || (a * 1 == lo && r % 2 == 0));
            if a < lo {
                lemma_cubes_rise(a, lo);
            }
        }
    }
    if r < INFINITY_BITS {
        let b = units(r) + units(r + 1);
        if sticky {
            assert(hi <= b * 1);
            if hi < b {
                lemma_cubes_rise(hi, b);
            }
        } else {
            assert(lo < b * 1 || (lo == b * 1 && r % 2 == 0));
            if lo < b {
                lemma_cubes_rise(lo, b);
            }
        }
    }
}

/// The two largest powers of two that concern a 128-bit number.
pub proof fn lemma_pow2_top()
    ensures
        pow2(127) == 0x8000_0000_0000_0000_0000_0000_0000_0000,
        pow2(128) == 0x1_0000_0000_0000_0000_0000_0000_0000_0000,
{
    vstd::arithmetic::power2::lemma2_to64();
    vstd::arithmetic::power2::lemma2_to64_rest();
    lemma_pow2_adds(64, 63);
    lemma_pow2_adds(64, 64);
}

/// Two to the `k`.
pub(crate) fn power_of_two(k: u32) -> (p: u128)
    requires
        k <= 127,
    ensures
        p == pow2(k as nat),
        p >= 1,
{
    let mut p: u128 = 1;
    let mut i: u32 = 0;
    proof {
        vstd::arithmetic::power2::lemma2_to64();
        lemma_pow2_pos(k as nat);
    }
    while i < k
        invariant
            i <= k <= 127,
            p == pow2(i as nat),
        decreases k - i,
    {
        proof {
            lemma_pow2_unfold((i + 1) as nat);
            lemma_pow2_top();
            if i + 1 < 127 {
                vstd::arithmetic::power2::lemma_pow2_strictly_increases((i + 1) as nat, 127);
            }
        }
        p = p * 2;
        i = i + 1;
    }
    p
}

/// The number of bits of `m`: the `l` with `2^(l-1) <= m < 2^l`.
pub(crate) fn bit_length(m: u128) -> (l: u32)
    requires
        m >= 1,
    ensures
        1 <= l <= 128,
        pow2((l - 1) as nat) <= m < pow2(l as nat),
{
    let mut l: u32 = 0;
    let mut t: u128 = m;
    proof {
        vstd::arithmetic::power2::lemma2_to64();
    }
    while t > 0
        invariant
            l <= 128,
            t == (m as int) / (pow2(l as nat) as int),
            l == 0 ==> t == m,
            l >= 1 ==> pow2((l - 1) as nat) <= m,
        decreases t,
    {
        proof {
            let d = pow2(l as nat) as int;
            lemma_pow2_pos(l as nat);
            vstd::arithmetic::div_mod::lemma_fundamental_div_mod(m as int, d);
            vstd::arithmetic::div_mod::lemma_mod_pos_bound(m as int, d);
            let mi = m as int;
            assert(mi >= d) by (nonlinear_arith)
                requires
                    mi == d * (mi / d) + mi % d,
                    mi / d >= 1,
                    mi % d >= 0,
                    d > 0,
            ;
            lemma_pow2_top();
            assert(l < 128);
            vstd::arithmetic::div_mod::lemma_div_denominator(m as int, d, 2);
            lemma_pow2_unfold((l + 1) as nat);
            assert(d * 2 == 2 * d);
        }
        t = t / 2;
        l = l + 1;
    }
    proof {
        let d = pow2(l as nat) as int;
        lemma_pow2_pos(l as nat);
        vstd::arithmetic::div_mod::lemma_fundamental_div_mod(m as int, d);
        vstd::arithmetic::div_mod::lemma_mod_pos_bound(m as int, d);
        assert(d * 0 == 0);
    }
    l
}

/// The magnitude of the double nearest to `m * 2^x`, or nearest to every
/// number strictly between `m * 2^x` and `(m + 1) * 2^x` where `sticky` says
/// that more follows. For that, `m` must reach beyond the place where the
/// rounding is made.
pub(crate) fn round_pack(m: u128, x: i64, sticky: bool) -> (r: u64)
    requires
        1 <= m < 0x4000_0000_0000_0000_0000_0000_0000_0000,
        -8192 <= x <= 8192,
        sticky ==> m >= 2 * HIDDEN_BIT || x <= -1,
    ensures
        rounds_to(m as int, x as int, sticky, r as int),
{
    let l: u32 = bit_length(m);
    proof {
        // The number has 126 bits at most, and 54 at least where it has to.
        lemma_pow2_top();
        vstd::arithmetic::power2::lemma2_to64_rest();
        if l == 128 {
            vstd::arithmetic::power2::lemma_pow2_strictly_increases(126, 127);
        }
        if sticky && m >= 2 * HIDDEN_BIT && l < 53 {
            vstd::arithmetic::power2::lemma_pow2_strictly_increases(l as nat, 53);
        }
    }
    let top: i64 = l as i64 + x - 53;
    let j: i64 = if top >= 0 {
        top
    } else {
        0
    };
    let k: i64 = j - x;
    assert(sticky ==> k >= 1);
    if k <= 0 {
        // Nothing is dropped: the number is a double as it stands.
        let shift: u32 = (1 - k) as u32;
        assert(shift as int + l as int <= 54);
        let scale: u128 = power_of_two(shift);
        proof {
            lemma_pow2_adds(l as nat, shift as nat);
            lemma_pow2_adds((l - 1) as nat, shift as nat);
            if l + shift < 54 {
                vstd::arithmetic::power2::lemma_pow2_strictly_increases((l + shift) as nat, 54);
            }
            vstd::arithmetic::power2::lemma2_to64_rest();
            assert(m * scale < pow2((l + shift) as nat)) by (nonlinear_arith)
                requires
                    m < pow2(l as nat),
                    scale > 0,
                    pow2(l as nat) * pow2(shift as nat) == pow2((l + shift) as nat),
                    scale == pow2(shift as nat),
            ;
            assert(m * scale >= pow2((l + shift - 1) as nat)) by (nonlinear_arith)
                requires
                    m >= pow2((l - 1) as nat),
                    scale > 0,
                    pow2((l - 1) as nat) * pow2(shift as nat) == pow2((l - 1 + shift) as nat),
                    scale == pow2(shift as nat),
            ;
        }
        let wide: u128 = m * scale;
        let r: u64 = round_kept(wide, x - shift as i64, l + shift, false);
        proof {
            let x2 = x - shift;
            let p1 = pow2(up_shift(x as int)) as int;
            let q1 = pow2(down_shift(x as int)) as int;
            let p2 = pow2(up_shift(x2)) as int;
            let q2 = pow2(down_shift(x2)) as int;
            lemma_pow2_pos(up_shift(x as int));
            lemma_pow2_pos(down_shift(x as int));
            lemma_pow2_pos(up_shift(x2));
            lemma_pow2_pos(down_shift(x2));
            // 2^shift * 2^(x - shift) == 2^x, cross-multiplied.
            lemma_pow2_adds(shift as nat, up_shift(x2));
            lemma_pow2_adds((shift + up_shift(x2)) as nat, down_shift(x as int));
            lemma_pow2_adds(up_shift(x as int), down_shift(x2));
            assert(shift + up_shift(x2) + down_shift(x as int) == up_shift(x as int) + down_shift(
                x2,
            ));
            assert(scale * p2 * q1 == p1 * q2);
            assert((m * p1) * q2 == ((m * scale) * p2) * q1) by (nonlinear_arith)
                requires
                    scale * p2 * q1 == p1 * q2,
            ;
            lemma_nearest_same_fraction(m * p1, q1, wide * p2, q2, r as int);
        }
        r
    } else {
        round_kept(m, x, l, sticky)
    }
}

/// The rounding of a number of which at least one bit is dropped.
fn round_kept(m: u128, x: i64, l: u32, sticky: bool) -> (r: u64)
    requires
        1 <= l <= 127,
        pow2((l - 1) as nat) <= m < pow2(l as nat),
        -16384 <= x <= 8192,
        step_exponent(l as int, x as int) - x >= 1,
    ensures
        rounds_to(m as int, x as int, sticky, r as int),
{
    let top: i64 = l as i64 + x - 53;
    let j: i64 = if top >= 0 {
        top
    } else {
        0
    };
    let k: i64 = j - x;
    if k > l as i64 {
        // The whole number lies under half of the lowest step.
        proof {
            assert(j == 0);
            lemma_pow2_unfold(k as nat);
            if (l as int) < k - 1 {
                vstd::arithmetic::power2::lemma_pow2_strictly_increases(l as nat, (k - 1) as nat);
            }
            assert(m == 0 * pow2(k as nat) + m) by (nonlinear_arith);
            lemma_rounding(m as int, l as int, x as int, k as int, 0, m as int, sticky);
        }
        return 0;
    }
    let scale: u128 = power_of_two(k as u32);
    let sig: u128 = m / scale;
    let rem: u128 = m % scale;
    let half: u128 = scale / 2;
    let up: bool = rem > half || (rem == half && (sticky || sig % 2 == 1));
    proof {
        lemma_pow2_pos(k as nat);
        lemma_pow2_unfold(k as nat);
        vstd::arithmetic::div_mod::lemma_fundamental_div_mod(m as int, scale as int);
        vstd::arithmetic::div_mod::lemma_mod_pos_bound(m as int, scale as int);
        assert(m == sig * pow2(k as nat) + rem) by (nonlinear_arith)
            requires
                m == scale * (m / scale) + m % scale,
                sig == m / scale,
                rem == m % scale,
                scale == pow2(k as nat),
        ;
        assert(up == rounds_up(rem as int, k as int, sig as int, sticky));
        lemma_rounding(m as int, l as int, x as int, k as int, sig as int, rem as int, sticky);
    }
    if j >= 2047 {
        proof {
            assert(j * HIDDEN_BIT >= 2047 * HIDDEN_BIT) by (nonlinear_arith)
                requires
                    j >= 2047,
            ;
        }
        return INFINITY_BITS;
    }
    proof {
        assert(0 <= j * HIDDEN_BIT <= 2046 * HIDDEN_BIT) by (nonlinear_arith)
            requires
                0 <= j <= 2046,
        ;
    }
    let t: u64 = (j as u64) * HIDDEN_BIT + (sig as u64) + if up {
        1u64
    } else {
        0u64
    };
    if t < INFINITY_BITS {
        t
    } else {
        INFINITY_BITS
    }
}

/// The whole part of the square root of a number under `2^112`.
pub(crate) fn whole_root(m: u128) -> (s: u128)
    requires
        m < 0x1_0000_0000_0000_0000_0000_0000_0000,
    ensures
        s * s <= m < (s + 1) * (s + 1),
        s < 0x100_0000_0000_0000,
{
    let mut lo: u128 = 0;
    let mut hi: u128 = 0x100_0000_0000_0000;
    assert(hi * hi == 0x1_0000_0000_0000_0000_0000_0000_0000) by (nonlinear_arith)
        requires
            hi == 0x100_0000_0000_0000,
    ;
    while hi - lo > 1
        invariant
            lo < hi <= 0x100_0000_0000_0000,
            lo * lo <= m < hi * hi,
        decreases hi - lo,
    {
        let mid: u128 = lo + (hi - lo) / 2;
        assert(mid * mid < 0x100_0000_0000_0000 * 0x100_0000_0000_0000) by (nonlinear_arith)
            requires
                0 <= mid < 0x100_0000_0000_0000,
        ;
        let square: u128 = mid * mid;
        if square <= m {
            lo = mid;
        } else {
            hi = mid;
        }
    }
    lo
}

/// How the cube of `s` stands to `c * 2^64`: whether it is at most that
/// number, and whether it is that number.
fn cube_against(s: u64, c: u128) -> (r: (bool, bool))
    requires
        s < 0x80_0000_0000_0000,
        c < 0x20_0000_0000_0000_0000_0000_0000,
    ensures
        r.0 == (s * s * s <= c * 0x1_0000_0000_0000_0000),
        r.1 == (s * s * s == c * 0x1_0000_0000_0000_0000),
{
    let word: u128 = 0x1_0000_0000_0000_0000;
    assert(s * s < 0x80_0000_0000_0000 * 0x80_0000_0000_0000) by (nonlinear_arith)
        requires
            0 <= s < 0x80_0000_0000_0000,
    ;
    let square: u128 = (s as u128) * (s as u128);
    let high: u128 = square / word;
    let low: u128 = square % word;
    assert(high * s < 0x4000_0000_0000 * 0x80_0000_0000_0000) by (nonlinear_arith)
        requires
            0 <= high < 0x4000_0000_0000,
            0 <= s < 0x80_0000_0000_0000,
    ;
    assert(low * s < 0x1_0000_0000_0000_0000 * 0x80_0000_0000_0000) by (nonlinear_arith)
        requires
            0 <= low < 0x1_0000_0000_0000_0000,
            0 <= s < 0x80_0000_0000_0000,
    ;
    let a: u128 = high * (s as u128);
    let b: u128 = low * (s as u128);
    let carry: u128 = b / word;
    let rest: u128 = b % word;
    let top: u128 = a + carry;
    proof {
        assert(s * s * s == top * 0x1_0000_0000_0000_0000 + rest) by (nonlinear_arith)
            requires
                s * s == high * 0x1_0000_0000_0000_0000 + low,
                a == high * s,
                b == low * s,
                b == carry * 0x1_0000_0000_0000_0000 + rest,
                top == a + carry,
        ;
    }
    (top < c || (top == c && rest == 0), top == c && rest == 0)
}

/// The whole part of the cube root of `c * 2^64`, for a number of 163 to 165
/// bits, with whether the root is exact.
pub(crate) fn whole_cube_root(c: u128) -> (r: (u64, bool))
    requires
        0x4_0000_0000_0000_0000_0000_0000 <= c < 0x20_0000_0000_0000_0000_0000_0000,
    ensures
        r.0 * r.0 * r.0 <= c * 0x1_0000_0000_0000_0000,
        c * 0x1_0000_0000_0000_0000 < (r.0 + 1) * (r.0 + 1) * (r.0 + 1),
        r.1 == (r.0 * r.0 * r.0 == c * 0x1_0000_0000_0000_0000),
        0x40_0000_0000_0000 <= r.0 < 0x80_0000_0000_0000,
{
    let mut lo: u64 = 0x40_0000_0000_0000;
    let mut hi: u64 = 0x80_0000_0000_0000;
    let ghost target = c * 0x1_0000_0000_0000_0000;
    assert(lo * lo * lo == 0x4_0000_0000_0000_0000_0000_0000 * 0x1_0000_0000_0000_0000)
        by (nonlinear_arith)
        requires
            lo == 0x40_0000_0000_0000,
    ;
    assert(hi * hi * hi == 0x20_0000_0000_0000_0000_0000_0000 * 0x1_0000_0000_0000_0000)
        by (nonlinear_arith)
        requires
            hi == 0x80_0000_0000_0000,
    ;
    while hi - lo > 1
        invariant
            0x40_0000_0000_0000 <= lo < hi <= 0x80_0000_0000_0000,
            lo * lo * lo <= target < hi * hi * hi,
            target == c * 0x1_0000_0000_0000_0000,
            c < 0x20_0000_0000_0000_0000_0000_0000,
        decreases hi - lo,
    {
        let mid: u64 = lo + (hi - lo) / 2;
        let (fits, _exact) = cube_against(mid, c);
        if fits {
            lo = mid;
        } else {
            hi = mid;
        }
    }
    let (_fits, exact) = cube_against(lo, c);
    (lo, exact)
}

} // verus!
