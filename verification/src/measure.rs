//! What a watch measures, which axis shows it, and how its values are written.

use crate::decimal;
use crate::error;
use crate::float;
use crate::float::Float64;
use crate::number;
use crate::rounding;
use crate::text;
use vstd::arithmetic::power2::*;
use vstd::prelude::*;

verus! {

broadcast use vstd::string::group_string_axioms;

/// The kind of number that a watch reports.
#[derive(Debug, Clone, Copy, PartialEq, Eq, Structural)]
pub enum Measure {
    Float,
    Bytes,
}

/// The side of the chart on which an axis stands.
#[derive(Debug, Clone, Copy, PartialEq, Eq, Structural)]
pub enum AxisSide {
    Left,
    Right,
}

/// The lowest `places` decimal digits of `v`, with leading zeros.
pub open spec fn padded(v: nat, places: nat) -> Seq<char>
    decreases places,
{
    if places == 0 {
        Seq::empty()
    } else {
        padded(v / 10, (places - 1) as nat).push(decimal::digit(v % 10))
    }
}

/// `n / d` in decimal with `places` digits after the point, rounded to the nearest such number,
/// ties going to the one with an even last digit.
pub open spec fn fixed_text(n: nat, d: nat, places: nat) -> Seq<char> {
    let v = rounding::half_even(n * decimal::ten_to(places), d);
    if places == 0 {
        decimal::digits(v)
    } else {
        decimal::digits(v / decimal::ten_to(places)) + seq!['.'] + padded(
            v % decimal::ten_to(places),
            places,
        )
    }
}

/// A minus where the sign bit is set.
pub open spec fn sign_text(x: Float64) -> Seq<char> {
    if x.negative() {
        seq!['-']
    } else {
        Seq::empty()
    }
}

/// A number: the larger it is, the fewer digits follow the point.
pub open spec fn float_text(x: Float64) -> Seq<char> {
    if x.nan() {
        "NaN"@
    } else if x.infinite() {
        sign_text(x) + "inf"@
    } else {
        finite_text(x)
    }
}

/// A finite number: the larger it is, the fewer digits follow the point.
pub open spec fn finite_text(x: Float64) -> Seq<char> {
    let n = x.units();
    let one = float::one_in_units();
    let places: nat = if n >= 1000 * one {
        0
    } else if n >= 100 * one {
        1
    } else {
        2
    };
    sign_text(x) + fixed_text(n, one, places)
}

/// How many times a number of bytes is divided by 1024 before it is shown.
pub open spec fn byte_unit(n: nat, d: nat) -> nat {
    if n < 1024 * d {
        0
    } else if n < 0x10_0000 * d {
        1
    } else if n < 0x4000_0000 * d {
        2
    } else if n < 0x100_0000_0000 * d {
        3
    } else if n < 0x4_0000_0000_0000 * d {
        4
    } else {
        5
    }
}

/// `1024^k`.
pub open spec fn byte_factor(k: nat) -> nat
    decreases k,
{
    if k == 0 {
        1
    } else {
        1024 * byte_factor((k - 1) as nat)
    }
}

/// The name of the unit that is `1024^k` bytes.
pub open spec fn byte_unit_name(k: nat) -> Seq<char> {
    if k == 0 {
        "B"@
    } else if k == 1 {
        "KiB"@
    } else if k == 2 {
        "MiB"@
    } else if k == 3 {
        "GiB"@
    } else if k == 4 {
        "TiB"@
    } else {
        "PiB"@
    }
}

/// How many times a number is divided by 1024 before it is shown as bytes: never what is not a
/// number, and as often as there are units what is infinite.
pub open spec fn byte_steps(x: Float64) -> nat {
    if x.nan() {
        0
    } else if x.infinite() {
        5
    } else {
        byte_unit(x.units(), float::one_in_units())
    }
}

/// What is shown of a number of bytes before its unit.
pub open spec fn bytes_number(x: Float64) -> Seq<char> {
    let n = x.units();
    let unit = float::one_in_units() * byte_factor(byte_steps(x));
    let places: nat = if n >= 100 * unit {
        1
    } else {
        2
    };
    sign_text(x) + if x.nan() {
        "NaN"@
    } else if x.infinite() {
        "inf"@
    } else {
        fixed_text(n, unit, places)
    }
}

/// A number of bytes in the largest unit of which it holds at least one, up to `PiB`.
pub open spec fn bytes_text(x: Float64) -> Seq<char> {
    bytes_number(x) + " "@ + byte_unit_name(byte_steps(x))
}

impl Measure {
    /// How a value of this measure is written.
    pub open spec fn value_text(self, x: Float64) -> Seq<char> {
        if !x.finite() {
            "n/a"@
        } else {
            match self {
                Measure::Float => float_text(x),
                Measure::Bytes => bytes_text(x),
            }
        }
    }

    /// The name of the measure.
    pub open spec fn name(self) -> Seq<char> {
        match self {
            Measure::Float => "float"@,
            Measure::Bytes => "bytes"@,
        }
    }

    /// The measure that `value` names, white space around it and the case of its letters aside.
    pub open spec fn named(value: Seq<char>) -> Option<Measure> {
        let name = text::lowered(text::trimmed(value));
        if name == "float"@ {
            Some(Measure::Float)
        } else if name == "bytes"@ {
            Some(Measure::Bytes)
        } else {
            None
        }
    }
}

impl AxisSide {
    /// The side that `value` names, in full or by its first letter, white space around it and
    /// the case of its letters aside.
    pub open spec fn named(value: Seq<char>) -> Option<AxisSide> {
        let name = text::lowered(text::trimmed(value));
        if name == "left"@ || name == "l"@ {
            Some(AxisSide::Left)
        } else if name == "right"@ || name == "r"@ {
            Some(AxisSide::Right)
        } else {
            None
        }
    }
}

impl std::str::FromStr for Measure {
    type Err = String;

    fn from_str(value: &str) -> (r: Result<Self, String>)
        ensures
            r matches Ok(m) ==> Measure::named(value@) == Some(m),
            r is Ok <==> text::lowered(text::trimmed(value@)) == "float"@ || text::lowered(
                text::trimmed(value@),
            ) == "bytes"@,
            r matches Err(e) ==> Measure::named(value@) is None && e@
                == error::unknown_measure_text(text::lowered(text::trimmed(value@))),
    {
        let name = text::lowercase(text::trim(value).as_str());
        if text::same_text(name.as_str(), "float") {
            Ok(Measure::Float)
        } else if text::same_text(name.as_str(), "bytes") {
            Ok(Measure::Bytes)
        } else {
            Err(error::unknown_measure(name.as_str()))
        }
    }
}

impl std::str::FromStr for AxisSide {
    type Err = String;

    fn from_str(value: &str) -> (r: Result<Self, String>)
        ensures
            r matches Ok(a) ==> AxisSide::named(value@) == Some(a),
            r is Ok <==> text::lowered(text::trimmed(value@)) == "left"@ || text::lowered(
                text::trimmed(value@),
            ) == "l"@ || text::lowered(text::trimmed(value@)) == "right"@ || text::lowered(
                text::trimmed(value@),
            ) == "r"@,
            r matches Err(e) ==> AxisSide::named(value@) is None && e@ == error::unknown_axis_text(
                text::lowered(text::trimmed(value@)),
            ),
    {
        let name = text::lowercase(text::trim(value).as_str());
        if text::same_text(name.as_str(), "left") || text::same_text(name.as_str(), "l") {
            Ok(AxisSide::Left)
        } else if text::same_text(name.as_str(), "right") || text::same_text(name.as_str(), "r") {
            Ok(AxisSide::Right)
        } else {
            Err(error::unknown_axis(name.as_str()))
        }
    }
}

/// The bit pattern of 100.
const HUNDRED_BITS: u64 = 0x4059_0000_0000_0000;

/// The bit pattern of 1024.
pub const KIBI_BITS: u64 = 0x4090_0000_0000_0000;

/// Taking 10 from the exponent field divides by 1024.
const DIVIDE_BY_1024: u64 = 0x00a0_0000_0000_0000;

proof fn lemma_thresholds()
    ensures
        rounding::units(HUNDRED_BITS as nat, 52) == 100 * float::one_in_units(),
        rounding::units(float::THOUSAND_BITS as nat, 52) == 1000 * float::one_in_units(),
        rounding::units(KIBI_BITS as nat, 52) == 1024 * float::one_in_units(),
{
    lemma2_to64();
    lemma2_to64_rest();
    let one = pow2(1074);
    lemma_pow2_adds(46, 1028);
    lemma_pow2_adds(43, 1031);
    lemma_pow2_adds(42, 1032);
    let x = pow2(1028);
    let y = pow2(1031);
    let z = pow2(1032);
    assert((100 * 0x4000_0000_0000) * x == 100 * (0x4000_0000_0000 * x)) by (nonlinear_arith);
    assert((1000 * 0x800_0000_0000) * y == 1000 * (0x800_0000_0000 * y)) by (nonlinear_arith);
    assert((1024 * 0x400_0000_0000) * z == 1024 * (0x400_0000_0000 * z)) by (nonlinear_arith);
}

/// Comparing bit patterns is comparing values.
proof fn lemma_pattern_order(b: nat, c: nat)
    ensures
        b >= c <==> rounding::units(b, 52) >= rounding::units(c, 52),
{
    if b < c {
        rounding::lemma_units_increase(b, c, 52);
    } else if c < b {
        rounding::lemma_units_increase(c, b, 52);
    }
}

proof fn lemma_divide_by_1024(b: nat)
    requires
        KIBI_BITS <= b < float::INFINITY_BITS,
    ensures
        rounding::units((b - DIVIDE_BY_1024) as nat, 52) * 1024 == rounding::units(b, 52),
{
    lemma2_to64();
    lemma2_to64_rest();
    let c = (b - DIVIDE_BY_1024) as nat;
    let s = rounding::scale(c, 52);
    assert(b == c + 10 * pow2(52));
    assert(b / pow2(52) == c / pow2(52) + 10);
    assert(rounding::scale(b, 52) == s + 10);
    assert((s + 10) * pow2(52) == s * pow2(52) + 10 * pow2(52)) by (nonlinear_arith);
    assert(rounding::significand(b, 52) == rounding::significand(c, 52));
    lemma_pow2_adds(s, 10);
    let m = rounding::significand(c, 52);
    assert(m * (pow2(s) * 1024) == (m * pow2(s)) * 1024) by (nonlinear_arith);
}

/// Appends the lowest `places` decimal digits of `v`.
fn push_padded(out: &mut String, v: u64, places: u32)
    ensures
        final(out)@ == old(out)@ + padded(v as nat, places as nat),
    decreases places,
{
    if places > 0 {
        push_padded(out, v / 10, places - 1);
        let d: u8 = (v % 10) as u8;
        out.push((48 + d) as char);
    }
    assert(out@ =~= old(out)@ + padded(v as nat, places as nat));
}

/// Appends the absolute value of a finite number with `places` digits after the point.
fn push_fixed(out: &mut String, x: Float64, places: u32)
    requires
        x.finite(),
        places <= 2,
    ensures
        final(out)@ == old(out)@ + fixed_text(x.units(), float::one_in_units(), places as nat),
{
    let (a, up): (u64, u32) = x.parts();
    let ten: u64 = if places == 0 {
        1
    } else if places == 1 {
        10
    } else {
        100
    };
    proof {
        reveal_with_fuel(decimal::ten_to, 3);
        assert(ten == decimal::ten_to(places as nat));
        lemma2_to64();
        lemma2_to64_rest();
        lemma_pow2_pos(up as nat);
        lemma_pow2_pos(1074);
    }
    let ghost one = float::one_in_units();
    if up >= 1074 {
        let shift: u32 = up - 1074;
        let ghost whole = a as nat * pow2(shift as nat);
        proof {
            lemma_pow2_adds(shift as nat, 1074);
            assert((a as nat * (pow2(shift as nat) * one)) * ten == (whole * ten) * one)
                by (nonlinear_arith)
                requires
                    whole == a as nat * pow2(shift as nat),
            ;
            lemma_half_even_whole((whole * ten) as nat, one);
            vstd::arithmetic::div_mod::lemma_div_by_multiple(whole as int, ten as int);
            vstd::arithmetic::div_mod::lemma_mod_multiples_basic(whole as int, ten as int);
        }
        decimal::push_scaled_decimal(out, a, shift);
        if places > 0 {
            out.push('.');
            push_padded(out, 0, places);
        }
        assert(out@ =~= old(out)@ + fixed_text(x.units(), one, places as nat));
    } else {
        let shift: u32 = 1074 - up;
        let n: u64 = a * ten;
        proof {
            lemma_pow2_adds(shift as nat, up as nat);
            lemma_pow2_pos(shift as nat);
            let w = pow2(up as nat);
            assert((a as nat * w) * ten == n as nat * w) by (nonlinear_arith)
                requires
                    n == a * ten,
            ;
            rounding::lemma_half_even_scaled(n as nat, pow2(shift as nat), w);
        }
        let v: u64 = if shift >= 63 {
            proof {
                rounding::lemma_pow2_le(63, shift as nat);
                rounding::lemma_half_even_small(n as nat, pow2(shift as nat));
            }
            0
        } else {
            proof {
                vstd::arithmetic::div_mod::lemma_div_nonincreasing(
                    n as int,
                    pow2(shift as nat) as int,
                );
            }
            rounding::round_half_even(n as u128, rounding::power_of_two(shift)) as u64
        };
        decimal::push_decimal(out, v / ten);
        if places > 0 {
            out.push('.');
            push_padded(out, v % ten, places);
        }
        assert(out@ =~= old(out)@ + fixed_text(x.units(), one, places as nat));
    }
}

/// A whole number rounds to itself.
proof fn lemma_half_even_whole(n: nat, d: nat)
    requires
        d > 0,
    ensures
        rounding::half_even(n * d, d) == n,
{
    vstd::arithmetic::div_mod::lemma_div_by_multiple(n as int, d as int);
    vstd::arithmetic::div_mod::lemma_mod_multiples_basic(n as int, d as int);
}

/// A finite number in decimal.
fn format_finite_float(x: Float64) -> (s: String)
    requires
        x.finite(),
    ensures
        s@ == float_text(x),
{
    let mut s = String::new();
    if x.is_sign_negative() {
        s.push('-');
    }
    let magnitude: u64 = x.abs().bits;
    proof {
        lemma_thresholds();
        lemma_pattern_order(magnitude as nat, float::THOUSAND_BITS as nat);
        lemma_pattern_order(magnitude as nat, HUNDRED_BITS as nat);
    }
    let places: u32 = if magnitude >= float::THOUSAND_BITS {
        0
    } else if magnitude >= HUNDRED_BITS {
        1
    } else {
        2
    };
    push_fixed(&mut s, x, places);
    assert(s@ =~= float_text(x));
    s
}

/// Between two neighbouring powers of 1024 stands one unit.
proof fn lemma_byte_unit(n: nat, one: nat, k: nat)
    requires
        k <= 5,
        k > 0 ==> n >= one * byte_factor(k),
        k < 5 ==> n < (1024 * byte_factor(k)) * one,
    ensures
        byte_unit(n, one) == k,
{
    reveal_with_fuel(byte_factor, 6);
    let f = byte_factor(k);
    if k == 0 {
        assert((1024 * f) * one == 1024 * one) by (nonlinear_arith) requires f == 1;
    } else if k == 1 {
        assert(one * f == 1024 * one) by (nonlinear_arith) requires f == 1024;
        assert((1024 * f) * one == 0x10_0000 * one) by (nonlinear_arith) requires f == 1024;
    } else if k == 2 {
        assert(one * f == 0x10_0000 * one) by (nonlinear_arith) requires f == 0x10_0000;
        assert((1024 * f) * one == 0x4000_0000 * one) by (nonlinear_arith) requires f == 0x10_0000;
    } else if k == 3 {
        assert(one * f == 0x4000_0000 * one) by (nonlinear_arith) requires f == 0x4000_0000;
        assert((1024 * f) * one == 0x100_0000_0000 * one) by (nonlinear_arith) requires f == 0x4000_0000;
    } else if k == 4 {
        assert(one * f == 0x100_0000_0000 * one) by (nonlinear_arith) requires f == 0x100_0000_0000;
        assert((1024 * f) * one == 0x4_0000_0000_0000 * one) by (nonlinear_arith) requires f == 0x100_0000_0000;
    } else {
        assert(one * f == 0x4_0000_0000_0000 * one) by (nonlinear_arith) requires f == 0x4_0000_0000_0000;
    }
}

/// A finite number of bytes in units of powers of 1024.
fn format_finite_bytes(x: Float64) -> (s: String)
    requires
        x.finite(),
    ensures
        s@ == bytes_text(x),
{
    let mut s = String::new();
    if x.is_sign_negative() {
        s.push('-');
    }
    let mut current: u64 = x.abs().bits;
    let mut k: u32 = 0;
    let ghost one = float::one_in_units();
    proof {
        lemma_pow2_pos(1074);
        assert(current == x.magnitude());
        assert(x.units() * byte_factor(0) == x.units()) by (nonlinear_arith)
            requires
                byte_factor(0) == 1,
        ;
    }
    while current >= KIBI_BITS && k < 5
        invariant
            k <= 5,
            current < float::INFINITY_BITS,
            one == float::one_in_units(),
            rounding::units(current as nat, 52) * byte_factor(k as nat) == x.units(),
            k > 0 ==> rounding::units(current as nat, 52) >= one,
        decreases 5 - k,
    {
        proof {
            lemma_divide_by_1024(current as nat);
            lemma_thresholds();
            lemma_pattern_order(current as nat, KIBI_BITS as nat);
            let u = rounding::units((current - DIVIDE_BY_1024) as nat, 52);
            let f = byte_factor(k as nat);
            assert((u * 1024) * f == u * (1024 * f)) by (nonlinear_arith);
        }
        current = current - DIVIDE_BY_1024;
        k += 1;
    }
    let shown: Float64 = Float64 { bits: current };
    let ghost n = x.units();
    let ghost u = rounding::units(current as nat, 52);
    proof {
        lemma_thresholds();
        lemma_pattern_order(current as nat, KIBI_BITS as nat);
        lemma_pattern_order(current as nat, HUNDRED_BITS as nat);
        reveal_with_fuel(byte_factor, 6);
        assert(byte_unit(n, one) == k) by {
            let f = byte_factor(k as nat);
            assert(k > 0 ==> n >= one * f) by (nonlinear_arith)
                requires
                    n == u * f,
                    k > 0 ==> u >= one,
            ;
            assert(k < 5 ==> n < (1024 * f) * one) by (nonlinear_arith)
                requires
                    n == u * f,
                    k < 5 ==> u < 1024 * one,
                    f > 0,
            ;
            lemma_byte_unit(n, one, k as nat);
        }
        let f = byte_factor(k as nat);
        assert(n >= 100 * (one * f) <==> u >= 100 * one) by (nonlinear_arith)
            requires
                n == u * f,
                f > 0,
        ;
    }
    let places: u32 = if current >= HUNDRED_BITS {
        1
    } else {
        2
    };
    proof {
        let f = byte_factor(k as nat);
        let t = decimal::ten_to(places as nat);
        assert((u * f) * t == (u * t) * f) by (nonlinear_arith);
        rounding::lemma_half_even_scaled(u * t, one, f);
    }
    push_fixed(&mut s, shown, places);
    s.append(" ");
    if k == 0 {
        s.append("B");
    } else if k == 1 {
        s.append("KiB");
    } else if k == 2 {
        s.append("MiB");
    } else if k == 3 {
        s.append("GiB");
    } else if k == 4 {
        s.append("TiB");
    } else {
        s.append("PiB");
    }
    assert(s@ =~= bytes_text(x));
    s
}

/// A number as text.
pub fn format_float(value: Float64) -> (s: String)
    ensures
        s@ == float_text(value),
{
    if value.is_finite() {
        return format_finite_float(value);
    }
    if value.is_nan() {
        return "NaN".to_owned();
    }
    let mut s = String::new();
    if value.is_sign_negative() {
        s.push('-');
    }
    s.append("inf");
    assert(s@ =~= float_text(value));
    s
}

/// A number of bytes as text.
pub fn format_bytes_1024(value: Float64) -> (s: String)
    ensures
        s@ == bytes_text(value),
{
    if value.is_finite() {
        return format_finite_bytes(value);
    }
    let mut s = String::new();
    if value.is_sign_negative() {
        s.push('-');
    }
    if value.is_nan() {
        s.append("NaN");
        s.append(" ");
        s.append("B");
    } else {
        s.append("inf");
        s.append(" ");
        s.append("PiB");
    }
    assert(s@ =~= bytes_text(value));
    s
}

impl Measure {
    /// A value of this measure as text.
    pub fn format_value(self, value: Float64) -> (s: String)
        ensures
            s@ == self.value_text(value),
            !value.finite() ==> s@ == "n/a"@,
            value.finite() && self == Measure::Float ==> s@ == float_text(value),
            value.finite() && self == Measure::Bytes ==> s@ == bytes_text(value),
    {
        if !value.is_finite() {
            return "n/a".to_owned();
        }
        match self {
            Measure::Float => format_float(value),
            Measure::Bytes => format_bytes_1024(value),
        }
    }

    /// The name of the measure.
    pub fn axis_name(self) -> (s: &'static str)
        ensures
            s@ == self.name(),
            self == Measure::Float ==> s@ == "float"@,
            self == Measure::Bytes ==> s@ == "bytes"@,
    {
        match self {
            Measure::Float => "float",
            Measure::Bytes => "bytes",
        }
    }
}

/// The name of a measure names it.
pub proof fn lemma_named_by_name(measure: Measure)
    ensures
        Measure::named(measure.name()) == Some(measure),
{
    reveal_strlit("float");
    reveal_strlit("bytes");
    let name = measure.name();
    assert(text::trimmed_start(name) == name);
    assert(text::trimmed(name) == name);
    assert(text::lowered(name) =~= name);
    assert("float"@[0] != "bytes"@[0]);
}

/// White space around a name and the case of its letters do not count.
pub proof fn lemma_named_loosely(value: Seq<char>)
    ensures
        Measure::named(text::lowered(text::trimmed(value))) == Measure::named(value),
        AxisSide::named(text::lowered(text::trimmed(value))) == AxisSide::named(value),
{
    text::lemma_lowered_trimmed(text::trimmed(value));
    text::lemma_trimmed_twice(value);
}

/// The unit that bytes are shown in is the largest, each being 1024 of the one before, of which
/// there is at least one, up to the sixth.
pub proof fn lemma_byte_unit_fits(n: nat, d: nat)
    requires
        d > 0,
    ensures
        ({
            let k = byte_unit(n, d);
            &&& k <= 5
            &&& k > 0 ==> byte_factor(k) * d <= n
            &&& k < 5 ==> n < byte_factor(k + 1) * d
        }),
{
    lemma_factors();
}

/// A number from one on, and small enough for its product with 1024 to be finite, becomes exactly
/// 1024 times as large.
proof fn lemma_times_1024(x: Float64)
    requires
        float::ONE_BITS <= x.magnitude() < 0x4310_0000_0000_0000,
    ensures
        ({
            let y = float::product(x, Float64 { bits: KIBI_BITS });
            y.finite() && y.units() == x.units() * 1024 && y.negative() == x.negative()
        }),
{
    let b = x.magnitude();
    let c = (b + DIVIDE_BY_1024) as nat;
    let one = float::one_in_units();
    let u = x.units();
    lemma_thresholds();
    lemma_divide_by_1024(c);
    lemma_pow2_pos(1074);
    float::lemma_nearest_exact(c, one);
    assert(u * (1024 * one) == (u * 1024) * one) by (nonlinear_arith);
}

/// 1024 times as many bytes, from one byte on and up to the last unit, are written with the same
/// digits and the next unit.
pub proof fn lemma_next_byte_unit(x: Float64)
    requires
        x.finite(),
        float::one_in_units() <= x.units() < byte_factor(5) * float::one_in_units(),
    ensures
        ({
            let y = float::product(x, Float64 { bits: KIBI_BITS });
            let k = byte_unit(x.units(), float::one_in_units());
            &&& k < 5
            &&& bytes_text(x) == bytes_number(x) + " "@ + byte_unit_name(k)
            &&& bytes_text(y) == bytes_number(x) + " "@ + byte_unit_name(k + 1)
            &&& Measure::Bytes.value_text(x) == bytes_number(x) + " "@ + byte_unit_name(k)
            &&& Measure::Bytes.value_text(y) == bytes_number(x) + " "@ + byte_unit_name(k + 1)
        }),
{
    let one = float::one_in_units();
    let y = float::product(x, Float64 { bits: KIBI_BITS });
    let n = x.units();
    let k = byte_unit(n, one);
    lemma_factors();
    lemma_byte_range(x);
    lemma_times_1024(x);
    assert(y.units() == n * 1024);
    assert(k < 5 && byte_unit(n * 1024, one) == k + 1);
    let unit = one * byte_factor(k);
    let next = one * byte_factor(k + 1);
    assert(byte_factor(k + 1) == 1024 * byte_factor(k));
    lemma_pow2_pos(1074);
    assert(next == unit * 1024 && unit > 0) by (nonlinear_arith)
        requires
            next == one * byte_factor(k + 1),
            byte_factor(k + 1) == 1024 * byte_factor(k),
            unit == one * byte_factor(k),
            one > 0,
            byte_factor(k) > 0,
    ;
    lemma_fixed_text_scaled(n, unit, 1);
    lemma_fixed_text_scaled(n, unit, 2);
    assert(bytes_number(y) == bytes_number(x));
}

proof fn lemma_factors()
    ensures
        byte_factor(0) == 1,
        byte_factor(1) == 1024,
        byte_factor(2) == 0x10_0000,
        byte_factor(3) == 0x4000_0000,
        byte_factor(4) == 0x100_0000_0000,
        byte_factor(5) == 0x4_0000_0000_0000,
{
    assert(byte_factor(0) == 1);
    assert(byte_factor(1) == 1024);
    assert(byte_factor(2) == 0x10_0000);
    assert(byte_factor(3) == 0x4000_0000);
    assert(byte_factor(4) == 0x100_0000_0000);
    assert(byte_factor(5) == 0x4_0000_0000_0000);
}

/// A ratio is written as before when both its sides are 1024 times as large.
proof fn lemma_fixed_text_scaled(n: nat, d: nat, places: nat)
    requires
        d > 0,
    ensures
        fixed_text(n * 1024, d * 1024, places) == fixed_text(n, d, places),
{
    let t = decimal::ten_to(places);
    assert((n * 1024) * t == (n * t) * 1024) by (nonlinear_arith);
    rounding::lemma_half_even_scaled(n * t, d, 1024);
}

/// The bit patterns of the numbers from one byte on and up to the last unit.
proof fn lemma_byte_range(x: Float64)
    requires
        x.finite(),
        float::one_in_units() <= x.units() < 0x4_0000_0000_0000 * float::one_in_units(),
    ensures
        float::ONE_BITS <= x.magnitude() < 0x4310_0000_0000_0000,
{
    let top: nat = 0x4310_0000_0000_0000;
    lemma2_to64();
    lemma2_to64_rest();
    lemma_pow2_adds(52, 1072);
    lemma_pow2_adds(50, 1074);
    lemma_pow2_adds(52, 1022);
    assert(0x4310_0000_0000_0000nat / 0x10_0000_0000_0000nat == 0x431);
    assert(0x3ff0_0000_0000_0000nat / 0x10_0000_0000_0000nat == 0x3ff);
    assert(rounding::units(top, 52) == pow2(52) * pow2(1072));
    assert(rounding::units(float::ONE_BITS as nat, 52) == pow2(52) * pow2(1022));
    lemma_pattern_order(x.magnitude(), top);
    lemma_pattern_order(x.magnitude(), float::ONE_BITS as nat);
}

/// A number with a minus is written as the number without it, with a minus before it.
pub proof fn lemma_negative_text(measure: Measure, x: Float64)
    requires
        x.finite(),
        !x.negative(),
    ensures
        measure.value_text(float::negated(x)) == seq!['-'] + measure.value_text(x),
{
    let y = float::negated(x);
    assert(y.magnitude() == x.magnitude() && y.negative());
    assert(measure.value_text(y) =~= seq!['-'] + measure.value_text(x));
}

/// Digits with leading zeros spell the number, and are as many as asked for.
pub proof fn lemma_padded(front: Seq<char>, v: nat, places: nat)
    requires
        v < decimal::ten_to(places),
    ensures
        padded(v, places).len() == places,
        number::all_digits(padded(v, places)),
        number::number(padded(v, places)) == v,
        number::number(front + padded(v, places)) == number::number(front) * decimal::ten_to(places)
            + v,
    decreases places,
{
    let all = padded(v, places);
    if places == 0 {
        assert(front + all =~= front);
        assert(number::number(front) * 1 == number::number(front)) by (nonlinear_arith);
    } else {
        let rest = (places - 1) as nat;
        let most = padded(v / 10, rest);
        let x = number::number(front);
        let t = decimal::ten_to(rest);
        lemma_padded(front, v / 10, rest);
        number::lemma_number_longer(most, v % 10);
        number::lemma_number_longer(front + most, v % 10);
        assert(front + all =~= (front + most).push(decimal::digit(v % 10)));
        assert(10 * (x * t) == x * (10 * t)) by (nonlinear_arith);
        assert forall|i: int| 0 <= i < all.len() implies number::is_digit(#[trigger] all[i]) by {
            if i < most.len() {
                assert(all[i] == most[i]);
            }
        }
    }
}

/// Whether a text is digits, and a point and digits where there are places, that spell a number of
/// the last place which is away from the ratio by no more than half of one.
pub open spec fn spells(s: Seq<char>, n: nat, d: nat, places: nat) -> bool {
    exists|whole: Seq<char>, fraction: Seq<char>|
        {
            let v = #[trigger] number::number(whole + fraction);
            &&& whole.len() > 0
            &&& number::all_digits(whole)
            &&& number::all_digits(fraction)
            &&& fraction.len() == places
            &&& s == if places == 0 {
                whole
            } else {
                whole + seq!['.'] + fraction
            }
            &&& -(d as int) <= 2 * (v * d - n * decimal::ten_to(places)) <= d
            &&& whole.len() > 1 ==> whole[0] != '0'
        }
}

proof fn lemma_first_digit(n: nat)
    ensures
        decimal::digits(n).len() > 1 ==> decimal::digits(n)[0] != '0',
        n > 0 ==> decimal::digits(n)[0] != '0',
    decreases n,
{
    if n >= 10 {
        lemma_first_digit(n / 10);
        number::lemma_number_of_digits(n / 10);
        assert(decimal::digits(n)[0] == decimal::digits(n / 10)[0]);
    }
}

/// A ratio is written as the nearest number with so many places.
pub proof fn lemma_fixed_text(n: nat, d: nat, places: nat)
    requires
        d > 0,
    ensures
        spells(fixed_text(n, d, places), n, d, places),
{
    let t = decimal::ten_to(places);
    let v = rounding::half_even(n * t, d);
    lemma_ten_to_positive(places);
    rounding::lemma_half_even(n * t, d);
    let whole = decimal::digits(v / t);
    let fraction = padded(v % t, places);
    number::lemma_number_of_digits(v / t);
    lemma_first_digit(v / t);
    lemma_padded(whole, v % t, places);
    vstd::arithmetic::div_mod::lemma_fundamental_div_mod(v as int, t as int);
    assert((v / t) * t == t * (v / t)) by (nonlinear_arith);
    assert(number::number(whole + fraction) == v);
    if places == 0 {
        assert(t == 1);
        assert(v / 1 == v);
    }
}

proof fn lemma_ten_to_positive(places: nat)
    ensures
        decimal::ten_to(places) > 0,
    decreases places,
{
    if places > 0 {
        lemma_ten_to_positive((places - 1) as nat);
    }
}

/// A finite number is written as the nearest one with two digits behind the point below a hundred,
/// one below a thousand, and none from there on, with a minus before it where it has one.
pub proof fn lemma_float_text(x: Float64, places: nat)
    requires
        x.finite(),
        places <= 2,
        places == 2 <==> x.units() < 100 * float::one_in_units(),
        places == 0 <==> x.units() >= 1000 * float::one_in_units(),
    ensures
        exists|s: Seq<char>| #[trigger]
            spells(s, x.units(), float::one_in_units(), places) && Measure::Float.value_text(x) == (
            if x.negative() {
                seq!['-']
            } else {
                Seq::empty()
            }) + s,
{
    let one = float::one_in_units();
    lemma_pow2_pos(1074);
    lemma_fixed_text(x.units(), one, places);
    let s = fixed_text(x.units(), one, places);
    assert(spells(s, x.units(), one, places));
}

/// A finite number of bytes is written in the largest unit of which there is at least one, up to
/// the sixth: the nearest one with two digits behind the point below a hundred of the unit, and
/// one from there on, with a minus before it where it has one.
pub proof fn lemma_bytes_text(x: Float64, k: nat, places: nat)
    requires
        x.finite(),
        k <= 5,
        k > 0 ==> byte_factor(k) * float::one_in_units() <= x.units(),
        k < 5 ==> x.units() < byte_factor(k + 1) * float::one_in_units(),
        1 <= places <= 2,
        places == 2 <==> x.units() < 100 * (byte_factor(k) * float::one_in_units()),
    ensures
        exists|s: Seq<char>| #[trigger]
            spells(s, x.units(), byte_factor(k) * float::one_in_units(), places)
                && Measure::Bytes.value_text(x) == (if x.negative() {
                seq!['-']
            } else {
                Seq::empty()
            }) + s + " "@ + byte_unit_name(k),
{
    let one = float::one_in_units();
    let f = byte_factor(k);
    let unit = f * one;
    lemma_pow2_pos(1074);
    lemma_factors();
    assert(one * f == f * one) by (nonlinear_arith);
    assert(k < 5 ==> byte_factor(k + 1) == 1024 * f);
    assert(byte_unit(x.units(), one) == k) by {
        lemma_byte_unit(x.units(), one, k);
    }
    assert(unit > 0) by (nonlinear_arith)
        requires
            unit == f * one,
            f > 0,
            one > 0,
    ;
    lemma_fixed_text(x.units(), unit, places);
    let s = fixed_text(x.units(), unit, places);
    assert(spells(s, x.units(), unit, places));
}

/// The units of bytes are named by their first letters.
pub proof fn lemma_byte_unit_names(k: nat)
    ensures
        byte_unit_name(0) == seq!['B'],
        1 <= k <= 5 ==> byte_unit_name(k) == seq!["KMGTP"@[k - 1]] + "iB"@,
{
    reveal_strlit("KMGTP");
    reveal_strlit("iB");
    reveal_strlit("B");
    reveal_strlit("KiB");
    reveal_strlit("MiB");
    reveal_strlit("GiB");
    reveal_strlit("TiB");
    reveal_strlit("PiB");
    assert("B"@ =~= seq!['B']);
    if 1 <= k <= 5 {
        assert(byte_unit_name(k) =~= seq!["KMGTP"@[k - 1]] + "iB"@);
    }
}

/// A text names a measure or a side exactly where what is left of it without white space around
/// it, in small letters, is its name.
pub proof fn lemma_named(value: Seq<char>)
    ensures
        ({
            let name = text::lowered(text::trimmed(value));
            &&& Measure::named(value) == Some(Measure::Float) <==> name == "float"@
            &&& Measure::named(value) == Some(Measure::Bytes) <==> name == "bytes"@
            &&& AxisSide::named(value) == Some(AxisSide::Left) <==> name == "left"@ || name == "l"@
            &&& AxisSide::named(value) == Some(AxisSide::Right) <==> name == "right"@ || name
                == "r"@
        }),
{
    reveal_strlit("float");
    reveal_strlit("bytes");
    reveal_strlit("left");
    reveal_strlit("right");
    reveal_strlit("l");
    reveal_strlit("r");
    assert("float"@[0] != "bytes"@[0]);
    assert("left"@[0] == 'l' && "l"@[0] == 'l' && "right"@[0] == 'r' && "r"@[0] == 'r');
}

/// A unit of bytes is 1024 of the one before it, from one byte on.
pub proof fn lemma_byte_factor(k: nat)
    ensures
        byte_factor(0) == 1,
        byte_factor(k + 1) == 1024 * byte_factor(k),
{
}

/// What is not finite is written by its name, infinity with its sign, and as bytes with the unit
/// that comes of dividing it as often as can be.
pub proof fn lemma_beyond_text(x: Float64, measure: Measure)
    ensures
        x.nan() ==> float_text(x) == "NaN"@,
        x.nan() && !x.negative() ==> bytes_text(x) == "NaN"@ + " "@ + "B"@,
        x.infinite() && !x.negative() ==> float_text(x) == "inf"@ && bytes_text(x) == "inf"@ + " "@
            + "PiB"@,
        x.infinite() && x.negative() ==> float_text(x) == seq!['-'] + "inf"@ && bytes_text(x)
            == seq!['-'] + "inf"@ + " "@ + "PiB"@,
        !x.finite() ==> measure.value_text(x) == "n/a"@,
{
    assert(Seq::<char>::empty() + "inf"@ =~= "inf"@);
    assert(Seq::<char>::empty() + "NaN"@ =~= "NaN"@);
}

} // verus!
