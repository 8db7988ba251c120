//! Arithmetic on doubles: each operation gives the double nearest to the exact
//! result, as IEEE-754 asks.
use crate::nearest::{
    lemma_nearest_same_fraction, lemma_representable, lemma_rounded_cube_root_is,
    lemma_rounded_is, lemma_rounded_root_is, lemma_zero_rounds_to_zero, rounded,
    rounded_cube_root, rounded_root,
};
use crate::round::{
    bit_length, down_shift, lemma_between_rounds, lemma_cube_root_rounds, lemma_exact_rounds,
    lemma_pow2_top, lemma_root_rounds, power_of_two, round_pack, up_shift, whole_cube_root,
    whole_root,
};
use crate::scalar::{
    HIDDEN_BIT, INFINITY_BITS, MAGNITUDE_MASK, SIGN_BIT, Scalar, lemma_mask_is_magnitude,
    lemma_units_increasing, units,
};
use vstd::arithmetic::power2::{lemma_pow2_adds, lemma_pow2_pos, pow2};
use vstd::prelude::*;

verus! {

/// The pattern of the NaN that an operation without a result gives.
pub const NAN_BITS: u64 = 0x7FF8_0000_0000_0000;

impl Scalar {
    /// Whether the number is an infinity.
    pub open spec fn infinite(self) -> bool {
        self.magnitude() == INFINITY_BITS
    }

    /// Whether the number is a zero, of either sign.
    pub open spec fn vanishes(self) -> bool {
        self.magnitude() == 0
    }

    /// The absolute value of the number, in units of two to the minus 1074.
    pub open spec fn size(self) -> int {
        units(self.magnitude())
    }

    /// The number with this sign and this magnitude.
    pub open spec fn signed(negative: bool, magnitude: int) -> Scalar {
        Scalar {
            bits: if negative {
                (magnitude + SIGN_BIT) as u64
            } else {
                magnitude as u64
            },
        }
    }

    /// The NaN that an operation without a result gives.
    pub open spec fn undefined() -> Scalar {
        Scalar { bits: NAN_BITS }
    }

    /// The product of two numbers: the double nearest to the exact product,
    /// with the sign of the exact product. A NaN gives the NaN, and so does
    /// infinity times zero.
    pub open spec fn times(self, other: Scalar) -> Scalar {
        let negative = self.negative() != other.negative();
        if self.nan() || other.nan() {
            Self::undefined()
        } else if self.infinite() || other.infinite() {
            if self.vanishes() || other.vanishes() {
                Self::undefined()
            } else {
                Self::signed(negative, INFINITY_BITS as int)
            }
        } else {
            Self::signed(negative, rounded(self.size() * other.size(), pow2(1074) as int))
        }
    }

    /// The double nearest to a whole number.
    pub open spec fn spec_whole(n: u32) -> Scalar {
        Self::signed(false, rounded(n * pow2(1074), 1))
    }

    /// The double nearest to a whole number.
    #[verifier::when_used_as_spec(spec_whole)]
    pub fn whole(n: u32) -> (r: Scalar)
        ensures
            r == Self::spec_whole(n),
    {
        if n == 0 {
            proof {
                lemma_zero_rounds_to_zero(1);
                assert(0 * pow2(1074) == 0) by (nonlinear_arith);
            }
            return pack(false, 0);
        }
        let r: u64 = round_pack(n as u128, 1074, false);
        proof {
            assert(up_shift(1074) == 1074);
            assert(down_shift(1074) == 0);
            vstd::arithmetic::power2::lemma2_to64();
            lemma_exact_rounds(n as int, 1074, r as int, n * pow2(1074), 1);
            lemma_rounded_is(n * pow2(1074), 1, r as int);
        }
        pack(false, r)
    }

    /// The sum of two numbers: the double nearest to the exact sum. A NaN
    /// gives the NaN, and so do two infinities of opposite signs. A sum of
    /// exactly zero is `-0.0` where both numbers are negative zeros, else `0.0`.
    pub open spec fn plus(self, other: Scalar) -> Scalar {
        if self.nan() || other.nan() {
            Self::undefined()
        } else if self.infinite() {
            if other.infinite() && self.negative() != other.negative() {
                Self::undefined()
            } else {
                self
            }
        } else if other.infinite() {
            other
        } else {
            let sum = self.value() + other.value();
            if sum == 0 {
                Self::signed(self.negative() && other.negative(), 0)
            } else if sum < 0 {
                Self::signed(true, rounded(-sum, 1))
            } else {
                Self::signed(false, rounded(sum, 1))
            }
        }
    }

    /// The difference of two numbers: the sum with the second negated.
    pub open spec fn minus(self, other: Scalar) -> Scalar {
        self.plus(other.negated())
    }

    /// The sum of two numbers.
    pub fn add(self, other: Scalar) -> (r: Scalar)
        ensures
            r == self.plus(other),
    {
        proof {
            lemma_mask_is_magnitude(self.bits);
            lemma_mask_is_magnitude(other.bits);
            assert(units(0) == 0);
        }
        let an: bool = self.bits >= SIGN_BIT;
        let bn: bool = other.bits >= SIGN_BIT;
        let a: u64 = self.bits & MAGNITUDE_MASK;
        let b: u64 = other.bits & MAGNITUDE_MASK;
        if a > INFINITY_BITS || b > INFINITY_BITS {
            return Scalar { bits: NAN_BITS };
        }
        if a == INFINITY_BITS {
            if b == INFINITY_BITS && an != bn {
                return Scalar { bits: NAN_BITS };
            }
            return self;
        }
        if b == INFINITY_BITS {
            return other;
        }
        if a == 0 && b == 0 {
            return pack(an && bn, 0);
        }
        if a == 0 {
            proof {
                lemma_representable(b as int);
                lemma_units_increasing(0, b as int);
            }
            return other;
        }
        if b == 0 {
            proof {
                lemma_representable(a as int);
                lemma_units_increasing(0, a as int);
            }
            return self;
        }
        let (ma, ea) = split(a);
        let (mb, eb) = split(b);
        proof {
            lemma_plus_finite(self, other, ma as int, ea as int, mb as int, eb as int);
        }
        if ea >= eb {
            add_ordered(ma, ea, an, mb, eb, bn)
        } else {
            add_ordered(mb, eb, bn, ma, ea, an)
        }
    }

    /// The difference of two numbers.
    pub fn sub(self, other: Scalar) -> (r: Scalar)
        ensures
            r == self.minus(other),
    {
        self.add(other.neg())
    }

    /// The product of two numbers.
    pub fn mul(self, other: Scalar) -> (r: Scalar)
        ensures
            r == self.times(other),
    {
        proof {
            lemma_mask_is_magnitude(self.bits);
            lemma_mask_is_magnitude(other.bits);
        }
        let negative: bool = (self.bits >= SIGN_BIT) != (other.bits >= SIGN_BIT);
        let a: u64 = self.bits & MAGNITUDE_MASK;
        let b: u64 = other.bits & MAGNITUDE_MASK;
        if a > INFINITY_BITS || b > INFINITY_BITS {
            return Scalar { bits: NAN_BITS };
        }
        if a == INFINITY_BITS || b == INFINITY_BITS {
            if a == 0 || b == 0 {
                return Scalar { bits: NAN_BITS };
            }
            return pack(negative, INFINITY_BITS);
        }
        if a == 0 || b == 0 {
            proof {
                lemma_pow2_pos(1074);
                lemma_zero_rounds_to_zero(pow2(1074) as int);
                assert(units(0) == 0);
                assert(self.size() * other.size() == 0) by (nonlinear_arith)
                    requires
                        self.size() == 0 || other.size() == 0,
                ;
            }
            return pack(negative, 0);
        }
        let (ma, ea) = split(a);
        let (mb, eb) = split(b);
        proof {
            assert(ma * mb < 0x20_0000_0000_0000 * 0x20_0000_0000_0000) by (nonlinear_arith)
                requires
                    0 <= ma < 0x20_0000_0000_0000,
                    0 <= mb < 0x20_0000_0000_0000,
            ;
            assert(ma * mb >= 1) by (nonlinear_arith)
                requires
                    ma >= 1,
                    mb >= 1,
            ;
        }
        let p: u128 = (ma as u128) * (mb as u128);
        let x: i64 = ea as i64 + eb as i64 - 1074;
        let r: u64 = round_pack(p, x, false);
        proof {
            let n = self.size() * other.size();
            let d = pow2(1074) as int;
            let up = pow2(up_shift(x as int)) as int;
            let down = pow2(down_shift(x as int)) as int;
            let both = pow2((ea + eb) as nat) as int;
            lemma_pow2_pos(1074);
            lemma_pow2_pos(down_shift(x as int));
            lemma_pow2_adds(ea as nat, eb as nat);
            lemma_pow2_adds((ea + eb) as nat, down_shift(x as int));
            lemma_pow2_adds(up_shift(x as int), 1074);
            assert(n == p * both) by (nonlinear_arith)
                requires
                    n == (ma * pow2(ea as nat)) * (mb * pow2(eb as nat)),
                    both == pow2(ea as nat) * pow2(eb as nat),
                    p == ma * mb,
            ;
            assert(both * down == up * d);
            assert(n * down == (p * up) * d) by (nonlinear_arith)
                requires
                    n == p * both,
                    both * down == up * d,
            ;
            lemma_nearest_same_fraction(p * up, down, n, d, r as int);
            lemma_rounded_is(n, d, r as int);
        }
        pack(negative, r)
    }

    /// The quotient of two numbers: the double nearest to the exact
    /// quotient, with its sign. A NaN gives the NaN, and so do zero over zero
    /// and infinity over infinity; any other number over zero is an infinity.
    pub open spec fn over(self, other: Scalar) -> Scalar {
        let negative = self.negative() != other.negative();
        if self.nan() || other.nan() {
            Self::undefined()
        } else if self.infinite() {
            if other.infinite() {
                Self::undefined()
            } else {
                Self::signed(negative, INFINITY_BITS as int)
            }
        } else if other.infinite() {
            Self::signed(negative, 0)
        } else if other.vanishes() {
            if self.vanishes() {
                Self::undefined()
            } else {
                Self::signed(negative, INFINITY_BITS as int)
            }
        } else {
            Self::signed(negative, rounded(self.size() * pow2(1074), other.size()))
        }
    }

    /// The quotient of two numbers.
    pub fn div(self, other: Scalar) -> (r: Scalar)
        ensures
            r == self.over(other),
    {
        proof {
            lemma_mask_is_magnitude(self.bits);
            lemma_mask_is_magnitude(other.bits);
            assert(units(0) == 0);
        }
        let negative: bool = (self.bits >= SIGN_BIT) != (other.bits >= SIGN_BIT);
        let a: u64 = self.bits & MAGNITUDE_MASK;
        let b: u64 = other.bits & MAGNITUDE_MASK;
        if a > INFINITY_BITS || b > INFINITY_BITS {
            return Scalar { bits: NAN_BITS };
        }
        if a == INFINITY_BITS {
            if b == INFINITY_BITS {
                return Scalar { bits: NAN_BITS };
            }
            return pack(negative, INFINITY_BITS);
        }
        if b == INFINITY_BITS {
            return pack(negative, 0);
        }
        if b == 0 {
            if a == 0 {
                return Scalar { bits: NAN_BITS };
            }
            return pack(negative, INFINITY_BITS);
        }
        proof {
            lemma_units_increasing(0, b as int);
        }
        if a == 0 {
            proof {
                lemma_zero_rounds_to_zero(other.size());
                assert(self.size() * pow2(1074) == 0) by (nonlinear_arith)
                    requires
                        self.size() == 0,
                ;
            }
            return pack(negative, 0);
        }
        let (ma, ea) = split(a);
        let (mb, eb) = split(b);
        let la: u32 = bit_length(ma as u128);
        let lb: u32 = bit_length(mb as u128);
        proof {
            vstd::arithmetic::power2::lemma2_to64_rest();
            if la > 53 {
                vstd::arithmetic::power2::lemma_pow2_strictly_increases(53, (la - 1) as nat);
            }
            if lb > 53 {
                vstd::arithmetic::power2::lemma_pow2_strictly_increases(53, (lb - 1) as nat);
            }
        }
        let k: u32 = 64 + lb - la;
        let scale: u128 = power_of_two(k);
        proof {
            lemma_pow2_top();
            lemma_pow2_adds(la as nat, k as nat);
            lemma_pow2_adds((la - 1) as nat, k as nat);
            lemma_pow2_adds(64, lb as nat);
            lemma_pow2_adds(63, lb as nat);
            lemma_pow2_adds(64, 53);
            if lb < 53 {
                vstd::arithmetic::power2::lemma_pow2_strictly_increases(lb as nat, 53);
            }
            assert(ma * scale < pow2(64) * pow2(lb as nat)) by (nonlinear_arith)
                requires
                    ma < pow2(la as nat),
                    scale > 0,
                    pow2(la as nat) * scale == pow2(64) * pow2(lb as nat),
            ;
            assert(pow2(64) * pow2(lb as nat) <= pow2(64) * pow2(53)) by (nonlinear_arith)
                requires
                    pow2(lb as nat) <= pow2(53),
            ;
            assert(pow2(117) < pow2(127)) by {
                vstd::arithmetic::power2::lemma_pow2_strictly_increases(117, 127);
            }
            assert(ma * scale >= pow2(63) * pow2(lb as nat)) by (nonlinear_arith)
                requires
                    ma >= pow2((la - 1) as nat),
                    scale > 0,
                    pow2((la - 1) as nat) * scale == pow2(63) * pow2(lb as nat),
            ;
        }
        let num: u128 = (ma as u128) * scale;
        let q: u128 = num / (mb as u128);
        let rem: u128 = num % (mb as u128);
        let sticky: bool = rem != 0;
        let x: i64 = ea as i64 + 1074 - eb as i64 - k as i64;
        proof {
            vstd::arithmetic::div_mod::lemma_fundamental_div_mod(num as int, mb as int);
            vstd::arithmetic::div_mod::lemma_mod_pos_bound(num as int, mb as int);
            assert(num == q * mb + rem) by (nonlinear_arith)
                requires
                    num == mb * (num / (mb as u128)) + num % (mb as u128),
                    q == num / (mb as u128),
                    rem == num % (mb as u128),
            ;
            // The quotient has sixty-four bits or sixty-five.
            assert(q >= pow2(63)) by (nonlinear_arith)
                requires
                    num == q * mb + rem,
                    rem < mb,
                    mb < pow2(lb as nat),
                    num >= pow2(63) * pow2(lb as nat),
                    q >= 0,
            ;
            assert(q <= num) by (nonlinear_arith)
                requires
                    num == q * mb + rem,
                    rem >= 0,
                    mb >= 1,
                    q >= 0,
            ;
        }
        let r: u64 = round_pack(q, x, sticky);
        proof {
            let n = self.size() * pow2(1074);
            let d = other.size();
            let p = pow2(up_shift(x as int)) as int;
            let down = pow2(down_shift(x as int)) as int;
            let t = p * pow2(eb as nat);
            lemma_pow2_pos(up_shift(x as int));
            lemma_pow2_pos(down_shift(x as int));
            lemma_pow2_pos(eb as nat);
            lemma_pow2_adds(ea as nat, 1074);
            lemma_pow2_adds((ea + 1074) as nat, down_shift(x as int));
            lemma_pow2_adds(up_shift(x as int), eb as nat);
            lemma_pow2_adds(k as nat, (up_shift(x as int) + eb) as nat);
            assert(k + up_shift(x as int) + eb == ea + 1074 + down_shift(x as int));
            assert(scale * t == pow2((ea + 1074) as nat) * down);
            assert(t > 0) by (nonlinear_arith)
                requires
                    t == p * pow2(eb as nat),
                    p > 0,
                    pow2(eb as nat) > 0,
            ;
            assert(n * down == (q * mb + rem) * t) by (nonlinear_arith)
                requires
                    n == (ma * pow2(ea as nat)) * pow2(1074),
                    pow2(ea as nat) * pow2(1074) == pow2((ea + 1074) as nat),
                    scale * t == pow2((ea + 1074) as nat) * down,
                    ma * scale == q * mb + rem,
            ;
            assert((q * p) * d == (q * mb) * t) by (nonlinear_arith)
                requires
                    d == mb * pow2(eb as nat),
                    t == p * pow2(eb as nat),
            ;
            assert(((q + 1) * p) * d == (q * mb + mb) * t) by (nonlinear_arith)
                requires
                    d == mb * pow2(eb as nat),
                    t == p * pow2(eb as nat),
            ;
            if sticky {
                assert((q * mb) * t < (q * mb + rem) * t < (q * mb + mb) * t) by (nonlinear_arith)
                    requires
                        0 < rem < mb,
                        t > 0,
                ;
                lemma_between_rounds(q as int, x as int, r as int, n, d);
            } else {
                lemma_exact_rounds(q as int, x as int, r as int, n, d);
            }
            lemma_rounded_is(n, d, r as int);
        }
        pack(negative, r)
    }

    /// The square root of a number: the double nearest to the exact root. A
    /// NaN gives the NaN, and so does a number below zero; the root of a zero
    /// is that zero, and the root of infinity is infinity.
    pub open spec fn root(self) -> Scalar {
        if self.nan() {
            Self::undefined()
        } else if self.vanishes() {
            self
        } else if self.negative() {
            Self::undefined()
        } else if self.infinite() {
            self
        } else {
            Self::signed(false, rounded_root(self.size() * pow2(1074)))
        }
    }

    /// The square root of a number.
    pub fn sqrt(self) -> (r: Scalar)
        ensures
            r == self.root(),
    {
        proof {
            lemma_mask_is_magnitude(self.bits);
        }
        let a: u64 = self.bits & MAGNITUDE_MASK;
        if a > INFINITY_BITS {
            return Scalar { bits: NAN_BITS };
        }
        if a == 0 {
            return self;
        }
        if self.bits >= SIGN_BIT {
            return Scalar { bits: NAN_BITS };
        }
        if a == INFINITY_BITS {
            return self;
        }
        let (ma, ea) = split(a);
        let la: u32 = bit_length(ma as u128);
        proof {
            vstd::arithmetic::power2::lemma2_to64_rest();
            if la > 53 {
                vstd::arithmetic::power2::lemma_pow2_strictly_increases(53, (la - 1) as nat);
            }
        }
        // Scale the significand to 111 or 112 bits, by an amount that leaves
        // an even exponent.
        let fill: u32 = 111 - la;
        let c: u32 = if (ea + 1074 - fill) % 2 == 1 {
            fill + 1
        } else {
            fill
        };
        let h: u32 = (ea + 1074 - c) / 2;
        let scale: u128 = power_of_two(c);
        proof {
            lemma_pow2_top();
            lemma_pow2_adds(la as nat, c as nat);
            lemma_pow2_adds((la - 1) as nat, c as nat);
            lemma_pow2_adds(64, 48);
            lemma_pow2_adds(64, 46);
            if la + c < 112 {
                vstd::arithmetic::power2::lemma_pow2_strictly_increases((la + c) as nat, 112);
            }
            if la - 1 + c > 110 {
                vstd::arithmetic::power2::lemma_pow2_strictly_increases(110, (la - 1 + c) as nat);
            }
            assert(ma * scale < pow2((la + c) as nat)) by (nonlinear_arith)
                requires
                    ma < pow2(la as nat),
                    scale > 0,
                    pow2(la as nat) * scale == pow2((la + c) as nat),
            ;
            assert(ma * scale >= pow2((la - 1 + c) as nat)) by (nonlinear_arith)
                requires
                    ma >= pow2((la - 1) as nat),
                    scale > 0,
                    pow2((la - 1) as nat) * scale == pow2((la - 1 + c) as nat),
            ;
        }
        let m: u128 = (ma as u128) * scale;
        let s: u128 = whole_root(m);
        proof {
            // The root has fifty-six bits.
            assert(s >= 0x80_0000_0000_0000) by (nonlinear_arith)
                requires
                    m < (s + 1) * (s + 1),
                    m >= 0x4000_0000_0000_0000_0000_0000_0000,
                    s >= 0,
            ;
        }
        let sticky: bool = s * s != m;
        let r: u64 = round_pack(s, h as i64, sticky);
        proof {
            let p = pow2(h as nat) as int;
            lemma_pow2_adds(h as nat, h as nat);
            lemma_pow2_adds(c as nat, (2 * h) as nat);
            lemma_pow2_adds(ea as nat, 1074);
            assert(c + 2 * h == ea + 1074);
            lemma_root_rounds(s as int, h as int, sticky, r as int, m as int);
            assert(self.size() * pow2(1074) == m * (p * p)) by (nonlinear_arith)
                requires
                    self.size() == ma * pow2(ea as nat),
                    pow2(ea as nat) * pow2(1074) == scale * (p * p),
                    m == ma * scale,
            ;
            lemma_rounded_root_is(m * (p * p), r as int);
        }
        pack(false, r)
    }

    /// The cube root of a number: the double nearest to the exact root, with
    /// the sign of the number. A NaN gives the NaN; the root of a zero is that
    /// zero, and the root of an infinity that infinity.
    pub open spec fn cube_root(self) -> Scalar {
        if self.nan() {
            Self::undefined()
        } else if self.vanishes() || self.infinite() {
            self
        } else {
            Self::signed(
                self.negative(),
                rounded_cube_root(self.size() * (pow2(1074) * pow2(1074))),
            )
        }
    }

    /// The cube root of a number.
    pub fn cbrt(self) -> (r: Scalar)
        ensures
            r == self.cube_root(),
    {
        proof {
            lemma_mask_is_magnitude(self.bits);
        }
        let a: u64 = self.bits & MAGNITUDE_MASK;
        if a > INFINITY_BITS {
            return Scalar { bits: NAN_BITS };
        }
        if a == 0 || a == INFINITY_BITS {
            return self;
        }
        let (ma, ea) = split(a);
        let la: u32 = bit_length(ma as u128);
        proof {
            vstd::arithmetic::power2::lemma2_to64_rest();
            if la > 53 {
                vstd::arithmetic::power2::lemma_pow2_strictly_increases(53, (la - 1) as nat);
            }
        }
        // Scale the significand to 163 bits or up to two more, by an amount
        // that leaves an exponent divisible by three.
        let fill: u32 = 163 - la;
        let c: u32 = fill + (ea + 2148 - fill) % 3;
        let h: u32 = (ea + 2148 - c) / 3;
        let scale: u128 = power_of_two(c - 64);
        proof {
            lemma_pow2_top();
            lemma_pow2_adds(la as nat, (c - 64) as nat);
            lemma_pow2_adds((la - 1) as nat, (c - 64) as nat);
            lemma_pow2_adds(64, 34);
            lemma_pow2_adds(64, 37);
            if la + c - 64 < 101 {
                vstd::arithmetic::power2::lemma_pow2_strictly_increases(
                    (la + c - 64) as nat,
                    101,
                );
            }
            if la - 1 + c - 64 > 98 {
                vstd::arithmetic::power2::lemma_pow2_strictly_increases(
                    98,
                    (la - 1 + c - 64) as nat,
                );
            }
            assert(ma * scale < pow2((la + c - 64) as nat)) by (nonlinear_arith)
                requires
                    ma < pow2(la as nat),
                    scale > 0,
                    pow2(la as nat) * scale == pow2((la + c - 64) as nat),
            ;
            assert(ma * scale >= pow2((la - 1 + c - 64) as nat)) by (nonlinear_arith)
                requires
                    ma >= pow2((la - 1) as nat),
                    scale > 0,
                    pow2((la - 1) as nat) * scale == pow2((la - 1 + c - 64) as nat),
            ;
        }
        let wide: u128 = (ma as u128) * scale;
        let (s, exact) = whole_cube_root(wide);
        let r: u64 = round_pack(s as u128, h as i64, !exact);
        proof {
            let p = pow2(h as nat) as int;
            let m = wide * 0x1_0000_0000_0000_0000;
            vstd::arithmetic::power2::lemma2_to64();
            lemma_pow2_adds(h as nat, h as nat);
            lemma_pow2_adds((2 * h) as nat, h as nat);
            lemma_pow2_adds((c - 64) as nat, 64);
            lemma_pow2_adds(c as nat, (3 * h) as nat);
            lemma_pow2_adds(1074, 1074);
            lemma_pow2_adds(ea as nat, 2148);
            assert(c + 3 * h == ea + 2148);
            assert(p * p * p == pow2((3 * h) as nat));
            lemma_cube_root_rounds(s as int, h as int, !exact, r as int, m);
            assert(self.size() * (pow2(1074) * pow2(1074)) == m * (p * p * p))
                by (nonlinear_arith)
                requires
                    self.size() == ma * pow2(ea as nat),
                    pow2(ea as nat) * (pow2(1074) * pow2(1074)) == pow2(c as nat) * (p * p * p),
                    m == (ma * scale) * 0x1_0000_0000_0000_0000,
                    scale * 0x1_0000_0000_0000_0000 == pow2(c as nat),
            ;
            lemma_rounded_cube_root_is(m * (p * p * p), r as int);
        }
        pack(self.bits >= SIGN_BIT, r)
    }
}

/// The sum of two finite numbers other than zero, given as sign, significand
/// and exponent, the first with the exponent that is not the smaller.
pub open spec fn sum_of(mh: int, eh: int, hn: bool, ml: int, el: int, ln: bool) -> Scalar {
    let high = if hn {
        -(mh * pow2(eh as nat))
    } else {
        mh * pow2(eh as nat)
    };
    let low = if ln {
        -(ml * pow2(el as nat))
    } else {
        ml * pow2(el as nat)
    };
    let sum = high + low;
    if sum == 0 {
        Scalar::signed(false, 0)
    } else if sum < 0 {
        Scalar::signed(true, rounded(-sum, 1))
    } else {
        Scalar::signed(false, rounded(sum, 1))
    }
}

/// The sum of two finite numbers other than zero is the sum of their
/// significands and exponents, in either order.
proof fn lemma_plus_finite(a: Scalar, b: Scalar, ma: int, ea: int, mb: int, eb: int)
    requires
        0 < a.magnitude() < INFINITY_BITS,
        0 < b.magnitude() < INFINITY_BITS,
        ea >= 0,
        eb >= 0,
        a.size() == ma * pow2(ea as nat),
        b.size() == mb * pow2(eb as nat),
    ensures
        a.plus(b) == sum_of(ma, ea, a.negative(), mb, eb, b.negative()),
        a.plus(b) == sum_of(mb, eb, b.negative(), ma, ea, a.negative()),
{
    lemma_units_increasing(0, a.magnitude());
    lemma_units_increasing(0, b.magnitude());
    assert(units(0) == 0);
    let va = a.value();
    let vb = b.value();
    let sa = a.size();
    let sb = b.size();
    assert(va == if a.negative() {
        -sa
    } else {
        sa
    });
    assert(vb == if b.negative() {
        -sb
    } else {
        sb
    });
    assert(sa > 0 && sb > 0);
    assert(va + vb == 0 ==> !(a.negative() && b.negative()));
}

fn add_ordered(mh: u64, eh: u32, hn: bool, ml: u64, el: u32, ln: bool) -> (r: Scalar)
    requires
        1 <= mh < 2 * HIDDEN_BIT,
        1 <= ml < 2 * HIDDEN_BIT,
        el <= eh <= 2045,
        eh >= 1 ==> mh >= HIDDEN_BIT,
    ensures
        r == sum_of(mh as int, eh as int, hn, ml as int, el as int, ln),
{
    let diff: u32 = eh - el;
    let ghost high = mh * pow2(eh as nat);
    let ghost low = ml * pow2(el as nat);
    let ghost base = pow2(el as nat) as int;
    proof {
        lemma_pow2_pos(el as nat);
        lemma_pow2_pos(eh as nat);
        vstd::arithmetic::power2::lemma2_to64();
        vstd::arithmetic::power2::lemma2_to64_rest();
    }
    if diff <= 60 {
        let scale: u128 = power_of_two(diff);
        proof {
            lemma_pow2_adds(diff as nat, el as nat);
            if diff < 60 {
                vstd::arithmetic::power2::lemma_pow2_strictly_increases(diff as nat, 60);
            }
            assert(mh * scale < 0x20_0000_0000_0000 * 0x1000_0000_0000_0000) by (nonlinear_arith)
                requires
                    0 <= mh < 0x20_0000_0000_0000,
                    0 < scale <= 0x1000_0000_0000_0000,
            ;
            assert(mh * scale >= 1) by (nonlinear_arith)
                requires
                    mh >= 1,
                    scale >= 1,
            ;
        }
        let wide: u128 = (mh as u128) * scale;
        let small: u128 = ml as u128;
        proof {
            assert(high == wide * base) by (nonlinear_arith)
                requires
                    high == mh * (scale * base),
                    wide == mh * scale,
            ;
            assert(low == small * base);
        }
        let negative: bool;
        let m: u128;
        if hn == ln {
            negative = hn;
            m = wide + small;
            proof {
                assert(m * base == high + low) by (nonlinear_arith)
                    requires
                        m == wide + small,
                        high == wide * base,
                        low == small * base,
                ;
            }
        } else if wide > small {
            negative = hn;
            m = wide - small;
            proof {
                assert(m * base == high - low) by (nonlinear_arith)
                    requires
                        m == wide - small,
                        high == wide * base,
                        low == small * base,
                ;
            }
        } else if wide < small {
            negative = ln;
            m = small - wide;
            proof {
                assert(m * base == low - high) by (nonlinear_arith)
                    requires
                        m == small - wide,
                        high == wide * base,
                        low == small * base,
                ;
            }
        } else {
            proof {
                assert(high == low);
            }
            return pack(false, 0);
        }
        proof {
            assert(m * base > 0) by (nonlinear_arith)
                requires
                    m >= 1,
                    base > 0,
            ;
        }
        let r: u64 = round_pack(m, el as i64, false);
        proof {
            assert(up_shift(el as int) == el as nat);
            assert(down_shift(el as int) == 0);
            lemma_exact_rounds(m as int, el as int, r as int, m * base, 1);
            lemma_rounded_is(m * base, 1, r as int);
        }
        pack(negative, r)
    } else {
        // The lower number is less than a quarter of the last place of the
        // higher one: it only tells on which side of the higher one the sum
        // lies.
        let m: u128 = if hn == ln {
            4 * (mh as u128)
        } else {
            4 * (mh as u128) - 1
        };
        let x: i64 = eh as i64 - 2;
        let r: u64 = round_pack(m, x, true);
        proof {
            let step = pow2(x as nat) as int;
            lemma_pow2_pos(x as nat);
            lemma_pow2_adds(2, x as nat);
            lemma_pow2_adds(53, el as nat);
            vstd::arithmetic::power2::lemma_pow2_strictly_increases((53 + el) as nat, x as nat);
            assert(high == 4 * mh * step) by (nonlinear_arith)
                requires
                    high == mh * (4 * step),
            ;
            assert(0 < low < step) by (nonlinear_arith)
                requires
                    low == ml * base,
                    1 <= ml < 0x20_0000_0000_0000,
                    base > 0,
                    0x20_0000_0000_0000 * base < step,
            ;
            let sum = if hn == ln {
                high + low
            } else {
                high - low
            };
            assert(m * step < sum < (m + 1) * step) by (nonlinear_arith)
                requires
                    high == 4 * mh * step,
                    0 < low < step,
                    sum == if hn == ln {
                        high + low
                    } else {
                        high - low
                    },
                    m == if hn == ln {
                        4 * mh
                    } else {
                        4 * mh - 1
                    },
            ;
            assert(up_shift(x as int) == x as nat);
            assert(down_shift(x as int) == 0);
            assert(m * step > 0) by (nonlinear_arith)
                requires
                    m >= 1,
                    step > 0,
            ;
            lemma_between_rounds(m as int, x as int, r as int, sum, 1);
            lemma_rounded_is(sum, 1, r as int);
        }
        pack(hn, r)
    }
}

/// The double with this sign and this magnitude.
fn pack(negative: bool, magnitude: u64) -> (r: Scalar)
    requires
        magnitude <= INFINITY_BITS,
    ensures
        r == Scalar::signed(negative, magnitude as int),
{
    if negative {
        Scalar { bits: magnitude + SIGN_BIT }
    } else {
        Scalar { bits: magnitude }
    }
}

/// The significand and the exponent of a finite magnitude: its value is the
/// significand times two to the exponent.
fn split(magnitude: u64) -> (r: (u64, u32))
    requires
        magnitude < INFINITY_BITS,
    ensures
        units(magnitude as int) == r.0 * pow2(r.1 as nat),
        r.0 < 2 * HIDDEN_BIT,
        r.1 <= 2045,
        magnitude > 0 ==> r.0 >= 1,
        magnitude >= HIDDEN_BIT ==> r.0 >= HIDDEN_BIT,
        r.1 >= 1 ==> r.0 >= HIDDEN_BIT,
{
    let e: u64 = magnitude / HIDDEN_BIT;
    let f: u64 = magnitude % HIDDEN_BIT;
    proof {
        vstd::arithmetic::power2::lemma2_to64();
    }
    if e == 0 {
        assert(f * pow2(0) == f) by (nonlinear_arith)
            requires
                pow2(0) == 1,
        ;
        (f, 0)
    } else {
        let m: u64 = HIDDEN_BIT + f;
        let x: u32 = (e - 1) as u32;
        assert(units(magnitude as int) == (HIDDEN_BIT + f) * pow2((e - 1) as nat));
        (m, x)
    }
}

} // verus!
