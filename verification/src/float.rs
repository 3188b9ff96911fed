//! Binary floating-point numbers, held by their IEEE 754 bit patterns, and their arithmetic.
//!
//! Every operation is stated over the exact values of its operands: the result is the exact sum,
//! product or quotient rounded to the nearest number of the format, ties going to the even one.

use crate::rounding;
use vstd::arithmetic::mul::*;
use vstd::arithmetic::power2::*;
use vstd::prelude::*;

verus! {

/// The bit that holds the sign.
pub const SIGN_BIT: u64 = 0x8000_0000_0000_0000;

/// The bit pattern of positive infinity.
pub const INFINITY_BITS: u64 = 0x7ff0_0000_0000_0000;

/// The bit pattern of the number that is not a number.
pub const NAN_BITS: u64 = 0x7ff8_0000_0000_0000;

/// The bit pattern of one.
pub const ONE_BITS: u64 = 0x3ff0_0000_0000_0000;

/// The bit pattern of one thousand.
pub const THOUSAND_BITS: u64 = 0x408f_4000_0000_0000;

/// A double-precision floating-point number.
#[derive(Clone, Copy, Debug, PartialEq, Eq, Structural)]
pub struct Float64 {
    /// The sign, the exponent and the fraction, from the highest bit down.
    pub bits: u64,
}

/// The bit that holds the sign of a single-precision number.
pub const SIGN_BIT_32: u32 = 0x8000_0000;

/// The bit pattern of positive infinity in single precision.
pub const INFINITY_BITS_32: u32 = 0x7f80_0000;

/// The bit pattern of what is not a number in single precision.
pub const NAN_BITS_32: u32 = 0x7fc0_0000;

/// A single-precision floating-point number.
#[derive(Clone, Copy, Debug, PartialEq, Eq, Structural)]
pub struct Float32 {
    /// The sign, the exponent and the fraction, from the highest bit down.
    pub bits: u32,
}

/// The single-precision number with the given sign and the given bits below the sign.
pub open spec fn signed_32(negative: bool, magnitude: nat) -> Float32 {
    Float32 {
        bits: (if negative {
            magnitude + SIGN_BIT_32
        } else {
            magnitude as int
        }) as u32,
    }
}

impl Float32 {
    /// The bits below the sign.
    pub open spec fn magnitude(self) -> nat {
        (self.bits % SIGN_BIT_32) as nat
    }

    /// Whether this is a number above zero and below infinity.
    pub open spec fn positive_finite(self) -> bool {
        0 < self.bits < INFINITY_BITS_32
    }

    /// The absolute value of a finite number, counted in units of which `2^149` make one.
    pub open spec fn units(self) -> nat {
        rounding::units(self.magnitude(), 23)
    }
}

/// The number with the given sign and the given bits below the sign.
pub open spec fn signed(negative: bool, magnitude: nat) -> Float64 {
    Float64 {
        bits: (if negative {
            magnitude + SIGN_BIT
        } else {
            magnitude as int
        }) as u64,
    }
}

/// How many units make one: values are counted in units of the least positive number.
pub open spec fn one_in_units() -> nat {
    pow2(1074)
}

/// `n / d` units with the given sign, rounded to the nearest number.
pub open spec fn rounded(negative: bool, n: nat, d: nat) -> Float64 {
    signed(negative, rounding::nearest(n, d, 52, INFINITY_BITS as nat))
}

/// What is not a number.
pub open spec fn not_a_number() -> Float64 {
    Float64 { bits: NAN_BITS }
}

/// The other sign, the same magnitude.
pub open spec fn negated(a: Float64) -> Float64 {
    signed(!a.negative(), a.magnitude())
}

/// The absolute value.
pub open spec fn absolute(a: Float64) -> Float64 {
    signed(false, a.magnitude())
}

/// `a + b`.
pub open spec fn sum(a: Float64, b: Float64) -> Float64 {
    if a.nan() || b.nan() || (a.infinite() && b.infinite() && a.negative() != b.negative()) {
        not_a_number()
    } else if a.infinite() {
        a
    } else if b.infinite() {
        b
    } else {
        let v = a.value() + b.value();
        if v == 0 {
            signed(a.negative() && b.negative(), 0)
        } else if v < 0 {
            rounded(true, (-v) as nat, 1)
        } else {
            rounded(false, v as nat, 1)
        }
    }
}

/// `a - b`.
pub open spec fn difference(a: Float64, b: Float64) -> Float64 {
    sum(a, negated(b))
}

/// `a * b`.
pub open spec fn product(a: Float64, b: Float64) -> Float64 {
    let negative = a.negative() != b.negative();
    if a.nan() || b.nan() || (a.infinite() && b.zero()) || (a.zero() && b.infinite()) {
        not_a_number()
    } else if a.infinite() || b.infinite() {
        signed(negative, INFINITY_BITS as nat)
    } else {
        rounded(negative, a.units() * b.units(), one_in_units())
    }
}

/// `a / b`.
pub open spec fn quotient(a: Float64, b: Float64) -> Float64 {
    let negative = a.negative() != b.negative();
    if a.nan() || b.nan() || (a.infinite() && b.infinite()) || (a.zero() && b.zero()) {
        not_a_number()
    } else if a.infinite() || b.zero() {
        signed(negative, INFINITY_BITS as nat)
    } else if b.infinite() {
        signed(negative, 0)
    } else {
        rounded(negative, a.units() * one_in_units(), b.units())
    }
}

/// `a < b`: false wherever one of them is not a number.
pub open spec fn less(a: Float64, b: Float64) -> bool {
    !a.nan() && !b.nan() && a.key() < b.key()
}

/// The whole number `n`, rounded to the nearest number of the format.
pub open spec fn from_whole(n: int) -> Float64 {
    if n < 0 {
        rounded(true, (-n) as nat * one_in_units(), 1)
    } else {
        rounded(false, n as nat * one_in_units(), 1)
    }
}

/// `n / d` rounded to the nearest whole number, halves going up.
pub open spec fn half_up(n: nat, d: nat) -> nat {
    (2 * n + d) / (2 * d)
}

/// `a` without its fraction, brought into the range of `i64`; zero for what is not a number.
pub open spec fn truncated(a: Float64) -> int {
    let whole = a.units() / one_in_units();
    if a.nan() {
        0
    } else if a.negative() {
        if a.finite() && whole <= -(i64::MIN as int) {
            -whole
        } else {
            i64::MIN as int
        }
    } else if a.finite() && whole <= i64::MAX {
        whole as int
    } else {
        i64::MAX as int
    }
}

/// `a` rounded to the nearest whole number, halves going away from zero, brought into the range
/// of `usize`; zero for what is not a number.
pub open spec fn rounded_index(a: Float64) -> nat {
    let whole = half_up(a.units(), one_in_units());
    if a.nan() || a.negative() {
        0
    } else if a.finite() && whole <= usize::MAX {
        whole
    } else {
        usize::MAX as nat
    }
}

impl Float64 {
    /// The bits below the sign.
    pub open spec fn magnitude(self) -> nat {
        (self.bits % SIGN_BIT) as nat
    }

    /// Whether the sign bit is set.
    pub open spec fn negative(self) -> bool {
        self.bits >= SIGN_BIT
    }

    /// Whether this is not a number.
    pub open spec fn nan(self) -> bool {
        self.magnitude() > INFINITY_BITS
    }

    /// Whether this is one of the infinities.
    pub open spec fn infinite(self) -> bool {
        self.magnitude() == INFINITY_BITS
    }

    /// Whether this is a number other than the infinities.
    pub open spec fn finite(self) -> bool {
        self.magnitude() < INFINITY_BITS
    }

    /// Whether this is zero of either sign.
    pub open spec fn zero(self) -> bool {
        self.magnitude() == 0
    }

    /// The absolute value of a finite number, in units.
    pub open spec fn units(self) -> nat {
        rounding::units(self.magnitude(), 52)
    }

    /// The value of a finite number, in units.
    pub open spec fn value(self) -> int {
        if self.negative() {
            -self.units()
        } else {
            self.units() as int
        }
    }

    /// A whole number by which all numbers are ordered, zeros of both signs being equal.
    pub open spec fn key(self) -> int {
        if self.negative() {
            -self.magnitude()
        } else {
            self.magnitude() as int
        }
    }
}

proof fn lemma_pow2_52()
    ensures
        pow2(52) == 0x10_0000_0000_0000,
        pow2(53) == 0x20_0000_0000_0000,
        pow2(63) == SIGN_BIT,
        pow2(64) == 0x1_0000_0000_0000_0000,
        pow2(0) == 1,
        pow2(1) == 2,
{
    lemma2_to64();
    lemma2_to64_rest();
}

/// Adding less than a quarter of a unit in the last place to a magnitude, or taking it away,
/// rounds back to the magnitude.
proof fn lemma_negligible(b: nat, tail: nat, added: bool)
    requires
        b < INFINITY_BITS,
        rounding::scale(b, 52) >= 2,
        4 * tail < pow2(rounding::scale(b, 52)),
    ensures
        ({
            let n = if added {
                (rounding::units(b, 52) + tail) as int
            } else {
                rounding::units(b, 52) - tail
            };
            n > 0 && rounding::nearest(n as nat, 1, 52, INFINITY_BITS as nat) == b
        }),
{
    let s = rounding::scale(b, 52);
    let m = rounding::significand(b, 52);
    let w = pow2(s);
    rounding::lemma_significand(b, 52);
    lemma_pow2_52();
    lemma_pow2_pos(s);
    lemma_pow2_adds(52, s);
    lemma_pow2_adds(53, s);
    assert(pow2(52) * w <= m * w) by (nonlinear_arith)
        requires
            pow2(52) <= m,
    ;
    assert((m + 1) * w <= pow2(53) * w) by (nonlinear_arith)
        requires
            m + 1 <= pow2(53),
    ;
    assert((m + 1) * w == m * w + w) by (nonlinear_arith);
    assert(w <= pow2(52) * w) by (nonlinear_arith)
        requires
            pow2(52) >= 1,
    ;
    if added {
        let n = m * w + tail;
        rounding::lemma_excess(n, 1, 52, s);
        assert(1 * w == w);
        vstd::arithmetic::div_mod::lemma_fundamental_div_mod_converse(
            n as int,
            w as int,
            m as int,
            tail as int,
        );
    } else if tail == 0 {
        let n = m * w;
        rounding::lemma_excess(n, 1, 52, s);
        vstd::arithmetic::div_mod::lemma_fundamental_div_mod_converse(
            n as int,
            w as int,
            m as int,
            0,
        );
    } else if m > pow2(52) {
        let n = (m * w - tail) as nat;
        assert((m - 1) * w == m * w - w) by (nonlinear_arith);
        assert(pow2(52) * w <= (m - 1) * w) by (nonlinear_arith)
            requires
                pow2(52) <= m - 1,
        ;
        rounding::lemma_excess(n, 1, 52, s);
        vstd::arithmetic::div_mod::lemma_fundamental_div_mod_converse(
            n as int,
            w as int,
            m - 1,
            w - tail,
        );
    } else {
        let n = (m * w - tail) as nat;
        let h = pow2((s - 1) as nat);
        lemma_pow2_unfold(s);
        lemma_pow2_adds(53, (s - 1) as nat);
        lemma_pow2_adds(52, (s - 1) as nat);
        assert(m * w == pow2(53) * h) by (nonlinear_arith)
            requires
                w == 2 * h,
                m == pow2(52),
                pow2(53) == 2 * pow2(52),
        ;
        assert(pow2(52) * h + pow2(52) * h == pow2(53) * h) by (nonlinear_arith)
            requires
                pow2(53) == 2 * pow2(52),
        ;
        assert(h <= pow2(52) * h) by (nonlinear_arith)
            requires
                pow2(52) >= 1,
        ;
        rounding::lemma_excess(n, 1, 52, (s - 1) as nat);
        assert((pow2(53) - 1) * h == pow2(53) * h - h) by (nonlinear_arith);
        vstd::arithmetic::div_mod::lemma_fundamental_div_mod_converse(
            n as int,
            h as int,
            pow2(53) - 1,
            h - tail,
        );
    }
}

/// A magnitude is the nearest one to its own value, however the ratio is written.
pub proof fn lemma_nearest_exact(b: nat, k: nat)
    requires
        b < INFINITY_BITS,
        k > 0,
    ensures
        rounding::nearest(rounding::units(b, 52) * k, k, 52, INFINITY_BITS as nat) == b,
{
    let s = rounding::scale(b, 52);
    let m = rounding::significand(b, 52);
    let w = pow2(s);
    rounding::lemma_significand(b, 52);
    lemma_pow2_52();
    lemma_pow2_pos(s);
    lemma_pow2_adds(52, s);
    lemma_pow2_adds(53, s);
    let n = (m * w) * k;
    let d = k * w;
    assert(n == m * d) by (nonlinear_arith)
        requires
            n == (m * w) * k,
            d == k * w,
    ;
    assert(d > 0) by (nonlinear_arith)
        requires
            d == k * w,
            k > 0,
            w > 0,
    ;
    assert(n < k * pow2(53 + s)) by (nonlinear_arith)
        requires
            n == (m * w) * k,
            m < pow2(53),
            pow2(53 + s) == pow2(53) * w,
            k > 0,
            w > 0,
    ;
    if s > 0 {
        assert(k * pow2(52 + s) <= n) by (nonlinear_arith)
            requires
                n == (m * w) * k,
                pow2(52) <= m,
                pow2(52 + s) == pow2(52) * w,
        ;
    }
    rounding::lemma_excess(n, k, 52, s);
    vstd::arithmetic::div_mod::lemma_fundamental_div_mod_converse(n as int, d as int, m as int, 0);
}

/// A factor common to both sides of a ratio does not change its whole part.
proof fn lemma_div_scaled(n: nat, d: nat, m: nat)
    requires
        d > 0,
        m > 0,
    ensures
        (n * m) / (d * m) == n / d,
{
    let q = n / d;
    let r = n % d;
    vstd::arithmetic::div_mod::lemma_fundamental_div_mod(n as int, d as int);
    assert(n * m == q * (d * m) + r * m) by (nonlinear_arith)
        requires
            n == d * q + r,
    ;
    assert(0 <= r * m < d * m) by (nonlinear_arith)
        requires
            0 <= r < d,
            m > 0,
    ;
    vstd::arithmetic::div_mod::lemma_fundamental_div_mod_converse(
        (n * m) as int,
        (d * m) as int,
        q as int,
        (r * m) as int,
    );
}

proof fn lemma_even_double(n: nat, d: nat)
    requires
        d > 0,
    ensures
        (n * d) / d == n,
        (2 * (n * d)) / d == 2 * n,
{
    vstd::arithmetic::div_mod::lemma_div_by_multiple(n as int, d as int);
    vstd::arithmetic::div_mod::lemma_div_by_multiple((2 * n) as int, d as int);
    assert(2 * (n * d) == (2 * n) * d) by (nonlinear_arith);
}

/// Rounding halves up adds one to the whole part where the doubled ratio has an odd whole part.
proof fn lemma_half_up(n: nat, d: nat)
    requires
        d > 0,
    ensures
        half_up(n, d) == if (2 * n) / d > 2 * (n / d) {
            n / d + 1
        } else {
            n / d
        },
{
    let q = n / d;
    let r = n % d;
    vstd::arithmetic::div_mod::lemma_fundamental_div_mod(n as int, d as int);
    assert(q * (2 * d) == 2 * (d * q)) by (nonlinear_arith);
    assert((q + 1) * (2 * d) == 2 * (d * q) + 2 * d) by (nonlinear_arith);
    assert((2 * q) * d == 2 * (d * q)) by (nonlinear_arith);
    assert((2 * q + 1) * d == 2 * (d * q) + d) by (nonlinear_arith);
    if 2 * r >= d {
        vstd::arithmetic::div_mod::lemma_fundamental_div_mod_converse(
            (2 * n + d) as int,
            (2 * d) as int,
            (q + 1) as int,
            2 * r - d,
        );
        vstd::arithmetic::div_mod::lemma_fundamental_div_mod_converse(
            (2 * n) as int,
            d as int,
            (2 * q + 1) as int,
            2 * r - d,
        );
    } else {
        vstd::arithmetic::div_mod::lemma_fundamental_div_mod_converse(
            (2 * n + d) as int,
            (2 * d) as int,
            q as int,
            (2 * r + d) as int,
        );
        vstd::arithmetic::div_mod::lemma_fundamental_div_mod_converse(
            (2 * n) as int,
            d as int,
            (2 * q) as int,
            (2 * r) as int,
        );
    }
}

/// The sum of two finite numbers of one sign has that sign, and its magnitude is that of the sum
/// of the absolute values.
proof fn lemma_sum_same_sign(a: Float64, b: Float64)
    requires
        a.finite(),
        b.finite(),
        a.negative() == b.negative(),
    ensures
        sum(a, b) == rounded(a.negative(), a.units() + b.units(), 1),
{
    if a.units() + b.units() == 0 {
        lemma_pow2_52();
        lemma_pow2_pos(53);
        rounding::lemma_half_even_small(0, 1 * pow2(0));
        assert(rounding::excess(0, 1, 52) == 0);
        assert(0 * pow2(52) == 0) by (nonlinear_arith);
    }
}

impl Float64 {
    /// Whether this is not a number.
    pub fn is_nan(self) -> (yes: bool)
        ensures
            yes == self.nan(),
    {
        self.bits % SIGN_BIT > INFINITY_BITS
    }

    /// Whether this is a number other than the infinities.
    pub fn is_finite(self) -> (yes: bool)
        ensures
            yes == self.finite(),
    {
        self.bits % SIGN_BIT < INFINITY_BITS
    }

    /// Whether the sign bit is set.
    pub fn is_sign_negative(self) -> (yes: bool)
        ensures
            yes == self.negative(),
    {
        self.bits >= SIGN_BIT
    }

    /// The number with the given sign and the given bits below the sign.
    fn with_sign(negative: bool, magnitude: u64) -> (x: Float64)
        requires
            magnitude < SIGN_BIT,
        ensures
            x == signed(negative, magnitude as nat),
    {
        if negative {
            Float64 { bits: magnitude + SIGN_BIT }
        } else {
            Float64 { bits: magnitude }
        }
    }

    /// The significand and the scale of a finite number.
    pub fn parts(self) -> (parts: (u64, u32))
        requires
            self.finite(),
        ensures
            parts.0 == rounding::significand(self.magnitude(), 52),
            parts.1 == rounding::scale(self.magnitude(), 52),
            parts.0 < pow2(53),
            parts.1 <= 2045,
            self.units() == parts.0 as nat * pow2(parts.1 as nat),
            parts.0 == 0 <==> self.zero(),
    {
        let magnitude: u64 = self.bits % SIGN_BIT;
        let exponent: u64 = magnitude / 0x10_0000_0000_0000;
        proof {
            lemma_pow2_52();
            rounding::lemma_significand(magnitude as nat, 52);
        }
        if exponent <= 1 {
            (magnitude, 0)
        } else {
            (magnitude - (exponent - 1) * 0x10_0000_0000_0000, (exponent - 1) as u32)
        }
    }

    /// The other sign, the same magnitude.
    pub fn negate(self) -> (x: Float64)
        ensures
            x == negated(self),
    {
        Float64::with_sign(self.bits < SIGN_BIT, self.bits % SIGN_BIT)
    }

    /// The absolute value.
    pub fn abs(self) -> (x: Float64)
        ensures
            x == absolute(self),
    {
        Float64 { bits: self.bits % SIGN_BIT }
    }

    /// The whole number by which numbers are ordered.
    pub fn order_key(self) -> (k: i64)
        ensures
            k == self.key(),
    {
        if self.bits >= SIGN_BIT {
            -((self.bits % SIGN_BIT) as i64)
        } else {
            self.bits as i64
        }
    }

    /// `self < other`.
    pub fn less_than(self, other: Float64) -> (yes: bool)
        ensures
            yes == less(self, other),
    {
        !self.is_nan() && !other.is_nan() && self.order_key() < other.order_key()
    }

    /// `self * other`.
    pub fn times(self, other: Float64) -> (x: Float64)
        ensures
            x == product(self, other),
    {
        let negative: bool = self.is_sign_negative() != other.is_sign_negative();
        let left: u64 = self.bits % SIGN_BIT;
        let right: u64 = other.bits % SIGN_BIT;
        if left > INFINITY_BITS || right > INFINITY_BITS || (left == INFINITY_BITS && right == 0)
            || (left == 0 && right == INFINITY_BITS) {
            return Float64 { bits: NAN_BITS };
        }
        if left == INFINITY_BITS || right == INFINITY_BITS {
            return Float64::with_sign(negative, INFINITY_BITS);
        }
        let (a, up_a): (u64, u32) = self.parts();
        let (b, up_b): (u64, u32) = other.parts();
        proof {
            lemma_pow2_52();
            lemma_pow2_adds(53, 53);
            rounding::lemma_pow2_le(106, 110);
            assert(a * b < pow2(53) * pow2(53)) by (nonlinear_arith)
                requires
                    0 <= a < pow2(53),
                    0 <= b < pow2(53),
            ;
            lemma_pow2_adds(64, 42);
            lemma_pow2_adds(up_a as nat, up_b as nat);
            let wa = pow2(up_a as nat);
            let wb = pow2(up_b as nat);
            assert((a as nat * wa) * (b as nat * wb) == (a * b) as nat * (wa * wb))
                by (nonlinear_arith);
            assert(1 * one_in_units() == one_in_units());
            assert(a * b <= 0x20_0000_0000_0000 * 0x20_0000_0000_0000) by (nonlinear_arith)
                requires
                    0 <= a < 0x20_0000_0000_0000,
                    0 <= b < 0x20_0000_0000_0000,
            ;
        }
        let m: u64 = rounding::nearest_ratio(
            a as u128 * b as u128,
            up_a + up_b,
            1,
            1074,
            52,
            INFINITY_BITS,
        );
        Float64::with_sign(negative, m)
    }

    /// `self / other`.
    pub fn over(self, other: Float64) -> (x: Float64)
        ensures
            x == quotient(self, other),
    {
        let negative: bool = self.is_sign_negative() != other.is_sign_negative();
        let left: u64 = self.bits % SIGN_BIT;
        let right: u64 = other.bits % SIGN_BIT;
        if left > INFINITY_BITS || right > INFINITY_BITS || (left == INFINITY_BITS && right
            == INFINITY_BITS) || (left == 0 && right == 0) {
            return Float64 { bits: NAN_BITS };
        }
        if left == INFINITY_BITS || right == 0 {
            return Float64::with_sign(negative, INFINITY_BITS);
        }
        if right == INFINITY_BITS {
            return Float64::with_sign(negative, 0);
        }
        let (a, up): (u64, u32) = self.parts();
        let (b, down): (u64, u32) = other.parts();
        proof {
            lemma_pow2_52();
            rounding::lemma_pow2_le(53, 110);
            lemma_pow2_adds(up as nat, 1074);
            let w = pow2(up as nat);
            assert((a as nat * w) * one_in_units() == a as nat * (w * one_in_units()))
                by (nonlinear_arith);
        }
        let m: u64 = rounding::nearest_ratio(
            a as u128,
            up + 1074,
            b as u128,
            down,
            52,
            INFINITY_BITS,
        );
        Float64::with_sign(negative, m)
    }

    /// The number nearest to the whole number `n`.
    pub fn from_u64(n: u64) -> (x: Float64)
        ensures
            x == from_whole(n as int),
    {
        proof {
            lemma_pow2_52();
            rounding::lemma_pow2_le(64, 110);
            assert(1 * pow2(0) == 1);
        }
        Float64::with_sign(
            false,
            rounding::nearest_ratio(n as u128, 1074, 1, 0, 52, INFINITY_BITS),
        )
    }

    /// The number nearest to the whole number `n`.
    pub fn from_i64(n: i64) -> (x: Float64)
        ensures
            x == from_whole(n as int),
    {
        proof {
            lemma_pow2_52();
            rounding::lemma_pow2_le(64, 110);
            assert(1 * pow2(0) == 1);
        }
        if n < 0 {
            let m: u128 = (-(n as i128)) as u128;
            Float64::with_sign(true, rounding::nearest_ratio(m, 1074, 1, 0, 52, INFINITY_BITS))
        } else {
            Float64::with_sign(
                false,
                rounding::nearest_ratio(n as u128, 1074, 1, 0, 52, INFINITY_BITS),
            )
        }
    }

    /// The sum of two finite numbers, the one with the larger scale first.
    fn plus_aligned(self, other: Float64) -> (x: Float64)
        requires
            self.finite(),
            other.finite(),
            rounding::scale(other.magnitude(), 52) <= rounding::scale(self.magnitude(), 52),
        ensures
            x == sum(self, other),
    {
        let (a, up_a): (u64, u32) = self.parts();
        let (b, up_b): (u64, u32) = other.parts();
        let shift: u32 = up_a - up_b;
        let ghost wa = pow2(up_a as nat);
        let ghost wb = pow2(up_b as nat);
        proof {
            lemma_pow2_52();
            lemma_pow2_pos(up_b as nat);
            lemma_pow2_pos(shift as nat);
        }
        if shift >= 55 {
            proof {
                rounding::lemma_significand(self.magnitude(), 52);
                lemma_pow2_adds(53, up_b as nat);
                lemma_pow2_adds(2, (53 + up_b) as nat);
                lemma2_to64();
                rounding::lemma_pow2_le((55 + up_b) as nat, up_a as nat);
                assert(4 * (b as nat * wb) < 4 * (pow2(53) * wb)) by (nonlinear_arith)
                    requires
                        b < pow2(53),
                        wb > 0,
                ;
                lemma_negligible(
                    self.magnitude(),
                    other.units(),
                    self.negative() == other.negative(),
                );
                rounding::lemma_units_increase(0, self.magnitude(), 52);
                assert(0nat / pow2(52) == 0);
            }
            return self;
        }
        proof {
            lemma_pow2_adds(up_b as nat, shift as nat);
            rounding::lemma_pow2_le(shift as nat, 54);
            lemma_pow2_adds(53, 54);
            lemma_pow2_adds(53, 1);
            lemma_pow2_unfold(108);
            rounding::lemma_pow2_le(108, 110);
            assert(a as nat * pow2(shift as nat) <= 0x20_0000_0000_0000 * pow2(54)) by (
            nonlinear_arith)
                requires
                    a <= 0x20_0000_0000_0000,
                    pow2(shift as nat) <= pow2(54),
            ;
            assert(a as nat * (wb * pow2(shift as nat)) == (a as nat * pow2(shift as nat)) * wb)
                by (nonlinear_arith);
        }
        let left: u128 = a as u128 * rounding::power_of_two(shift);
        let right: u128 = b as u128;
        assert(self.units() == left as nat * wb);
        assert(other.units() == right as nat * wb);
        if self.is_sign_negative() == other.is_sign_negative() {
            proof {
                assert((left + right) as nat * wb == left as nat * wb + right as nat * wb)
                    by (nonlinear_arith);
                assert(1 * pow2(0) == 1);
                lemma_sum_same_sign(self, other);
            }
            let m: u64 = rounding::nearest_ratio(left + right, up_b, 1, 0, 52, INFINITY_BITS);
            Float64::with_sign(self.is_sign_negative(), m)
        } else if left > right {
            proof {
                assert((left - right) as nat * wb == left as nat * wb - right as nat * wb)
                    by (nonlinear_arith)
                    requires
                        left > right,
                ;
                assert(left as nat * wb > right as nat * wb) by (nonlinear_arith)
                    requires
                        left > right,
                        wb > 0,
                ;
                assert(1 * pow2(0) == 1);
            }
            let m: u64 = rounding::nearest_ratio(left - right, up_b, 1, 0, 52, INFINITY_BITS);
            Float64::with_sign(self.is_sign_negative(), m)
        } else if left < right {
            proof {
                assert((right - left) as nat * wb == right as nat * wb - left as nat * wb)
                    by (nonlinear_arith)
                    requires
                        left < right,
                ;
                assert(right as nat * wb > left as nat * wb) by (nonlinear_arith)
                    requires
                        left < right,
                        wb > 0,
                ;
                assert(1 * pow2(0) == 1);
            }
            let m: u64 = rounding::nearest_ratio(right - left, up_b, 1, 0, 52, INFINITY_BITS);
            Float64::with_sign(other.is_sign_negative(), m)
        } else {
            Float64 { bits: 0 }
        }
    }

    /// `self + other`.
    pub fn plus(self, other: Float64) -> (x: Float64)
        ensures
            x == sum(self, other),
    {
        let left: u64 = self.bits % SIGN_BIT;
        let right: u64 = other.bits % SIGN_BIT;
        if left > INFINITY_BITS || right > INFINITY_BITS || (left == INFINITY_BITS && right
            == INFINITY_BITS && self.is_sign_negative() != other.is_sign_negative()) {
            return Float64 { bits: NAN_BITS };
        }
        if left == INFINITY_BITS {
            return self;
        }
        if right == INFINITY_BITS {
            return other;
        }
        if other.parts().1 <= self.parts().1 {
            self.plus_aligned(other)
        } else {
            other.plus_aligned(self)
        }
    }

    /// `self - other`.
    pub fn minus(self, other: Float64) -> (x: Float64)
        ensures
            x == difference(self, other),
    {
        self.plus(other.negate())
    }

    /// The whole part of the absolute value of a finite number; past 64 bits, only that it is.
    fn whole_part(self) -> (w: u128)
        requires
            self.finite(),
        ensures
            self.units() / one_in_units() < pow2(64) ==> w == self.units() / one_in_units(),
            self.units() / one_in_units() >= pow2(64) ==> w >= pow2(64),
    {
        let (a, up): (u64, u32) = self.parts();
        proof {
            lemma_pow2_52();
            lemma_pow2_pos(1074);
        }
        if up >= 1074 {
            let shift: u32 = up - 1074;
            proof {
                rounding::lemma_significand(self.magnitude(), 52);
                lemma_pow2_adds(shift as nat, 1074);
                assert(a as nat * (pow2(shift as nat) * one_in_units()) == (a as nat * pow2(
                    shift as nat,
                )) * one_in_units()) by (nonlinear_arith);
                vstd::arithmetic::div_mod::lemma_div_by_multiple(
                    (a as nat * pow2(shift as nat)) as int,
                    one_in_units() as int,
                );
            }
            if shift >= 12 {
                proof {
                    lemma_pow2_adds(52, shift as nat);
                    rounding::lemma_pow2_le(64, (52 + shift) as nat);
                    assert(pow2(52) * pow2(shift as nat) <= a as nat * pow2(shift as nat))
                        by (nonlinear_arith)
                        requires
                            pow2(52) <= a,
                    ;
                }
                return 0x1_0000_0000_0000_0000;
            }
            proof {
                rounding::lemma_pow2_le(shift as nat, 12);
                lemma2_to64();
                assert(a as nat * pow2(shift as nat) <= 0x20_0000_0000_0000 * 4096)
                    by (nonlinear_arith)
                    requires
                        a < 0x20_0000_0000_0000,
                        pow2(shift as nat) <= 4096,
                ;
            }
            a as u128 * rounding::power_of_two(shift)
        } else {
            let shift: u32 = 1074 - up;
            proof {
                lemma_pow2_adds(shift as nat, up as nat);
                lemma_pow2_pos(shift as nat);
                lemma_pow2_pos(up as nat);
                lemma_div_scaled(a as nat, pow2(shift as nat), pow2(up as nat));
                vstd::arithmetic::div_mod::lemma_div_nonincreasing(
                    a as int,
                    pow2(shift as nat) as int,
                );
            }
            if shift >= 53 {
                proof {
                    rounding::lemma_pow2_le(53, shift as nat);
                    vstd::arithmetic::div_mod::lemma_basic_div(a as int, pow2(shift as nat) as int);
                }
                return 0;
            }
            a as u128 / rounding::power_of_two(shift)
        }
    }

    /// The number without its fraction, brought into the range of `i64`.
    pub fn to_i64(self) -> (n: i64)
        ensures
            n == truncated(self),
    {
        if self.is_nan() {
            return 0;
        }
        let negative: bool = self.is_sign_negative();
        proof {
            lemma_pow2_52();
        }
        let w: u128 = if self.is_finite() {
            self.whole_part()
        } else {
            0x1_0000_0000_0000_0000
        };
        if negative {
            if w < 0x8000_0000_0000_0000 {
                -(w as i64)
            } else {
                i64::MIN
            }
        } else if w <= 0x7fff_ffff_ffff_ffff {
            w as i64
        } else {
            i64::MAX
        }
    }

    /// The number rounded to the nearest whole number, brought into the range of `usize`.
    pub fn to_index(self) -> (n: usize)
        ensures
            n == rounded_index(self),
    {
        if self.is_nan() || self.is_sign_negative() {
            return 0;
        }
        if !self.is_finite() {
            return usize::MAX;
        }
        let (a, up): (u64, u32) = self.parts();
        let w: u128 = self.whole_part();
        proof {
            lemma_pow2_52();
            lemma_pow2_pos(1074);
            lemma_half_up(self.units(), one_in_units());
        }
        if w >= 0x1_0000_0000_0000_0000 {
            return usize::MAX;
        }
        // The fraction reaches one half exactly where doubling carries into the whole part.
        let doubled: u128 = if up >= 1074 {
            proof {
                lemma_pow2_adds((up - 1074) as nat, 1074);
                assert(a as nat * (pow2((up - 1074) as nat) * one_in_units()) == (a as nat * pow2(
                    (up - 1074) as nat,
                )) * one_in_units()) by (nonlinear_arith);
                lemma_even_double(a as nat * pow2((up - 1074) as nat), one_in_units());
            }
            2 * w
        } else {
            let shift: u32 = 1074 - up;
            proof {
                lemma_pow2_adds(shift as nat, up as nat);
                lemma_pow2_pos(shift as nat);
                lemma_pow2_pos(up as nat);
                lemma_div_scaled(2 * a as nat, pow2(shift as nat), pow2(up as nat));
                assert((2 * a as nat) * pow2(up as nat) == 2 * (a as nat * pow2(up as nat)))
                    by (nonlinear_arith);
            }
            if shift >= 54 {
                proof {
                    lemma_pow2_unfold(54);
                    rounding::lemma_pow2_le(54, shift as nat);
                    vstd::arithmetic::div_mod::lemma_basic_div(
                        2 * a as int,
                        pow2(shift as nat) as int,
                    );
                }
                0
            } else {
                (2 * a as u128) / rounding::power_of_two(shift)
            }
        };
        let up_one: u128 = if doubled > 2 * w {
            w + 1
        } else {
            w
        };
        if up_one <= usize::MAX as u128 {
            up_one as usize
        } else {
            usize::MAX
        }
    }
}

/// What is left of a number without its fraction is not farther from zero, by less than one, on
/// the same side.
pub proof fn lemma_truncated(a: Float64)
    requires
        a.finite(),
        a.units() <= 0x7fff_ffff_ffff_ffff * one_in_units(),
    ensures
        a.negative() ==> -(one_in_units() as int) < a.value() - truncated(a) * one_in_units() <= 0,
        !a.negative() ==> 0 <= a.value() - truncated(a) * one_in_units() < one_in_units(),
{
    let one = one_in_units() as int;
    let n = a.units() as int;
    let q = n / one;
    lemma_pow2_pos(1074);
    vstd::arithmetic::div_mod::lemma_fundamental_div_mod(n, one);
    assert(q * one == one * q) by (nonlinear_arith);
    assert((-q) * one == -(q * one)) by (nonlinear_arith);
    assert(q <= 0x7fff_ffff_ffff_ffff) by (nonlinear_arith)
        requires
            q * one <= n,
            n <= 0x7fff_ffff_ffff_ffff * one,
            one > 0,
    ;
    assert(q >= 0) by (nonlinear_arith)
        requires
            q * one > n - one,
            n >= 0,
            one > 0,
    ;
}

/// What is too large for the range of `i64` becomes its end, and what is not a number zero.
pub proof fn lemma_truncated_beyond(a: Float64)
    requires
        a.nan() || a.infinite() || a.units() >= 0x8000_0000_0000_0000 * one_in_units(),
    ensures
        a.nan() ==> truncated(a) == 0,
        !a.nan() && a.negative() ==> truncated(a) == i64::MIN,
        !a.nan() && !a.negative() ==> truncated(a) == i64::MAX,
{
    let one = one_in_units() as int;
    let n = a.units() as int;
    lemma_pow2_pos(1074);
    if a.finite() {
        let q = n / one;
        vstd::arithmetic::div_mod::lemma_fundamental_div_mod(n, one);
        assert(q * one == one * q) by (nonlinear_arith);
        assert(q >= 0x8000_0000_0000_0000) by (nonlinear_arith)
            requires
                q * one > n - one,
                n >= 0x8000_0000_0000_0000 * one,
                one > 0,
        ;
    }
}

/// The index nearest to a number that is not negative is away from it by no more than a half.
pub proof fn lemma_rounded_index(a: Float64)
    requires
        a.finite(),
        !a.negative(),
        a.units() <= 0x7fff_ffff * one_in_units(),
    ensures
        -(one_in_units() as int) <= 2 * (a.value() - rounded_index(a) * one_in_units())
            < one_in_units(),
{
    let one = one_in_units() as int;
    let n = a.units() as int;
    let q = (2 * n + one) / (2 * one);
    lemma_pow2_pos(1074);
    vstd::arithmetic::div_mod::lemma_fundamental_div_mod(2 * n + one, 2 * one);
    assert((2 * one) * q == 2 * (q * one)) by (nonlinear_arith);
    assert(q <= 0x8000_0000) by (nonlinear_arith)
        requires
            2 * (q * one) <= 2 * n + one,
            n <= 0x7fff_ffff * one,
            one > 0,
    ;
    assert(q >= 0) by (nonlinear_arith)
        requires
            2 * (q * one) > 2 * n - one,
            n >= 0,
            one > 0,
    ;
}

} // verus!
