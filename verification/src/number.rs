//! Decimal numbers in text, read as the nearest floating-point number.

use crate::arithmetic;
use crate::big::Natural;
use crate::decimal;
use crate::float;
use crate::float::{Float32, Float64};
use crate::rounding;
use crate::text;
use vstd::arithmetic::mul::*;
use vstd::arithmetic::power2::*;
use vstd::prelude::*;

verus! {

broadcast use vstd::string::group_string_axioms;

/// What a text without its sign says.
pub enum Numeral {
    Infinite,
    Nan,
    /// `mantissa * 10^exponent`.
    Decimal { mantissa: nat, exponent: int },
}

pub open spec fn is_digit(c: char) -> bool {
    '0' <= c <= '9'
}

pub open spec fn all_digits(s: Seq<char>) -> bool {
    forall|i: int| 0 <= i < s.len() ==> is_digit(#[trigger] s[i])
}

/// The number that decimal digits spell, the highest digit first.
pub open spec fn number(s: Seq<char>) -> nat
    decreases s.len(),
{
    if s.len() == 0 {
        0
    } else {
        (10 * number(s.drop_last()) + (s.last() as u32 - 48)) as nat
    }
}

pub open spec fn has_sign(s: Seq<char>) -> bool {
    s.len() > 0 && (s[0] == '+' || s[0] == '-')
}

pub open spec fn has_minus(s: Seq<char>) -> bool {
    s.len() > 0 && s[0] == '-'
}

pub open spec fn without_sign(s: Seq<char>) -> Seq<char> {
    if has_sign(s) {
        s.skip(1)
    } else {
        s
    }
}

/// Digits, with or without a sign before them.
pub open spec fn whole_number(s: Seq<char>) -> Option<int> {
    let body = without_sign(s);
    if body.len() > 0 && all_digits(body) {
        Some(
            if has_minus(s) {
                -number(body)
            } else {
                number(body) as int
            },
        )
    } else {
        None
    }
}

/// Digits with at most one point among or around them, then, where there is one, `e` or `E` and
/// the exponent of ten.
pub open spec fn decimal_numeral(s: Seq<char>) -> Option<Numeral> {
    let mark = text::first_index(text::lowered(s), 'e');
    let front = s.take(mark);
    let point = text::first_index(front, '.');
    let whole = front.take(point);
    let fraction = if point < front.len() {
        front.skip(point + 1)
    } else {
        Seq::empty()
    };
    let exponent = if mark < s.len() {
        whole_number(s.skip(mark + 1))
    } else {
        Some(0)
    };
    if whole.len() + fraction.len() > 0 && all_digits(whole) && all_digits(fraction)
        && exponent is Some {
        Some(
            Numeral::Decimal {
                mantissa: number(whole + fraction),
                exponent: exponent->0 - fraction.len(),
            },
        )
    } else {
        None
    }
}

/// What a text says once its sign is taken off: a name of infinity, `nan`, or a decimal number.
pub open spec fn numeral(s: Seq<char>) -> Option<Numeral> {
    let body = without_sign(s);
    let name = text::lowered(body);
    if name == "inf"@ || name == "infinity"@ {
        Some(Numeral::Infinite)
    } else if name == "nan"@ {
        Some(Numeral::Nan)
    } else {
        decimal_numeral(body)
    }
}

/// The magnitude nearest to `m * 10^e`, where one is `2^unit` units.
pub open spec fn decimal_magnitude(m: nat, e: int, p: nat, top: nat, unit: nat) -> nat {
    if e >= 0 {
        rounding::nearest(m * decimal::ten_to(e as nat) * pow2(unit), 1, p, top)
    } else {
        rounding::nearest(m * pow2(unit), decimal::ten_to((-e) as nat), p, top)
    }
}

/// The magnitude of what a text says, in the format with `p` fraction bits, whose patterns of
/// infinity and of what is not a number are `top` and `nan`.
pub open spec fn read_magnitude(n: Numeral, p: nat, top: nat, nan: nat, unit: nat) -> nat {
    match n {
        Numeral::Infinite => top,
        Numeral::Nan => nan,
        Numeral::Decimal { mantissa, exponent } => decimal_magnitude(
            mantissa,
            exponent,
            p,
            top,
            unit,
        ),
    }
}

/// The double-precision number that a text says.
pub open spec fn read_float64(s: Seq<char>) -> Option<Float64> {
    match numeral(s) {
        Some(n) => Some(
            float::signed(
                has_minus(s),
                read_magnitude(n, 52, float::INFINITY_BITS as nat, float::NAN_BITS as nat, 1074),
            ),
        ),
        None => None,
    }
}

/// The single-precision number that a text says.
pub open spec fn read_float32(s: Seq<char>) -> Option<Float32> {
    match numeral(s) {
        Some(n) => Some(
            float::signed_32(
                has_minus(s),
                read_magnitude(
                    n,
                    23,
                    float::INFINITY_BITS_32 as nat,
                    float::NAN_BITS_32 as nat,
                    149,
                ),
            ),
        ),
        None => None,
    }
}

proof fn lemma_ten_to_bound(k: nat)
    ensures
        decimal::ten_to(k) >= pow2(3 * k),
        decimal::ten_to(k) > 0,
    decreases k,
{
    lemma2_to64();
    if k > 0 {
        lemma_ten_to_bound((k - 1) as nat);
        lemma_pow2_adds((3 * (k - 1)) as nat, 3);
    }
}

proof fn lemma_ten_to_adds(i: nat, j: nat)
    ensures
        decimal::ten_to(i + j) == decimal::ten_to(i) * decimal::ten_to(j),
    decreases i,
{
    if i == 0 {
        assert(1 * decimal::ten_to(j) == decimal::ten_to(j));
    } else {
        lemma_ten_to_adds((i - 1) as nat, j);
        let x = decimal::ten_to((i - 1) as nat);
        let y = decimal::ten_to(j);
        assert(10 * (x * y) == (10 * x) * y) by (nonlinear_arith);
    }
}

/// A number has as many digits as its text, leading zeros aside.
proof fn lemma_number_bounds(s: Seq<char>)
    requires
        s.len() > 0,
        all_digits(s),
        s[0] != '0',
    ensures
        decimal::ten_to((s.len() - 1) as nat) <= number(s) < decimal::ten_to(s.len()),
    decreases s.len(),
{
    let rest = s.drop_last();
    assert(is_digit(s.last()));
    assert(is_digit(s[0]));
    assert(decimal::ten_to(0) == 1);
    if s.len() == 1 {
        assert(number(rest) == 0);
        assert(decimal::ten_to(1) == 10 * decimal::ten_to(0));
    } else {
        assert forall|i: int| 0 <= i < rest.len() implies is_digit(#[trigger] rest[i]) by {
            assert(rest[i] == s[i]);
        }
        assert(rest[0] == s[0]);
        lemma_number_bounds(rest);
    }
}

proof fn lemma_number_drops_zero(s: Seq<char>)
    requires
        s.len() > 0,
        s[0] == '0',
    ensures
        number(s) == number(s.drop_first()),
    decreases s.len(),
{
    if s.len() == 1 {
        assert(s.drop_last() =~= Seq::empty());
        assert(s.drop_first() =~= Seq::empty());
        assert(number(s.drop_last()) == 0);
    } else {
        lemma_number_drops_zero(s.drop_last());
        assert(s.drop_last().drop_first() =~= s.drop_first().drop_last());
        assert(s.drop_first().last() == s.last());
    }
}

/// Zero is nearest to zero.
proof fn lemma_nearest_small(n: nat, d: nat, p: nat, top: nat)
    requires
        2 * n < d,
        top > 0,
    ensures
        rounding::nearest(n, d, p, top) == 0,
{
    lemma2_to64();
    lemma_pow2_pos(p + 1);
    assert(d <= d * pow2(p + 1)) by (nonlinear_arith)
        requires
            pow2(p + 1) >= 1,
    ;
    assert(d * pow2(0) == d) by (nonlinear_arith)
        requires
            pow2(0) == 1,
    ;
    assert(0nat * pow2(p) == 0) by (nonlinear_arith);
    rounding::lemma_half_even_small(n, d);
}

/// A number far above the range rounds to infinity.
proof fn lemma_far_above(m: nat, e: int, len: nat, p: nat, top: nat, unit: nat)
    requires
        decimal::ten_to((len - 1) as nat) <= m,
        len > 0,
        e + len - 1 >= 400,
        top / pow2(p) >= 2,
        top % pow2(p) == 0,
        rounding::units(top, p) <= pow2(1200) * pow2(unit),
    ensures
        decimal_magnitude(m, e, p, top, unit) == top,
{
    let one = pow2(unit);
    let u = rounding::units(top, p);
    lemma_pow2_pos(unit);
    lemma_ten_to_bound(400);
    if e >= 0 {
        let f = decimal::ten_to(e as nat);
        lemma_ten_to_adds((len - 1) as nat, e as nat);
        lemma_ten_to_adds(400, (e + len - 1 - 400) as nat);
        lemma_ten_to_bound((e + len - 1 - 400) as nat);
        let g = decimal::ten_to((e + len - 1 - 400) as nat);
        assert(decimal::ten_to(400) <= decimal::ten_to(400) * g) by (nonlinear_arith)
            requires
                g >= 1,
        ;
        assert(decimal::ten_to((len - 1) as nat) * f <= m * f) by (nonlinear_arith)
            requires
                decimal::ten_to((len - 1) as nat) <= m,
        ;
        assert(pow2(1200) * one <= (m * f) * one) by (nonlinear_arith)
            requires
                pow2(1200) <= m * f,
        ;
        assert(u * 1 == u);
        rounding::lemma_nearest_top(m * f * one, 1, p, top);
    } else {
        let d = decimal::ten_to((-e) as nat);
        lemma_ten_to_bound((-e) as nat);
        let k = (e + len - 1) as nat;
        lemma_ten_to_adds(k, (-e) as nat);
        lemma_ten_to_adds(400, (k - 400) as nat);
        lemma_ten_to_bound((k - 400) as nat);
        assert(decimal::ten_to(400) <= decimal::ten_to(400) * decimal::ten_to((k - 400) as nat))
            by (nonlinear_arith)
            requires
                decimal::ten_to((k - 400) as nat) >= 1,
        ;
        let t = decimal::ten_to(k);
        assert(u * d <= m * one) by (nonlinear_arith)
            requires
                u <= pow2(1200) * one,
                pow2(1200) <= t,
                t * d <= m,
        ;
        rounding::lemma_nearest_top(m * one, d, p, top);
    }
}

/// A number far below the least positive one rounds to zero.
proof fn lemma_far_below(m: nat, e: int, len: nat, p: nat, top: nat, unit: nat)
    requires
        m < decimal::ten_to(len),
        e + len <= -400,
        unit <= 1074,
        top > 0,
    ensures
        decimal_magnitude(m, e, p, top, unit) == 0,
{
    let one = pow2(unit);
    let d = decimal::ten_to((-e) as nat);
    let k = (-e - len) as nat;
    lemma_ten_to_adds(len, k);
    lemma_ten_to_adds(400, (k - 400) as nat);
    lemma_ten_to_bound(400);
    lemma_ten_to_bound((k - 400) as nat);
    lemma_pow2_pos(unit);
    rounding::lemma_pow2_le(unit, 1074);
    lemma_pow2_unfold(1075);
    rounding::lemma_pow2_le(1075, 1200);
    let t = decimal::ten_to(len);
    let g = decimal::ten_to(k);
    assert(decimal::ten_to(400) <= decimal::ten_to(400) * decimal::ten_to((k - 400) as nat))
        by (nonlinear_arith)
        requires
            decimal::ten_to((k - 400) as nat) >= 1,
    ;
    assert(2 * (m * one) < t * g) by (nonlinear_arith)
        requires
            m < t,
            2 * one <= g,
            one > 0,
    {
        assert(m * (2 * one) <= m * g);
        assert(m * g < t * g);
    }
    lemma_nearest_small(m * one, d, p, top);
}

/// The significand and the scale of the magnitude `b`.
fn magnitude_parts(b: u64, p: u32) -> (parts: (u64, u64))
    requires
        0 < p <= 52,
    ensures
        parts.0 == rounding::significand(b as nat, p as nat),
        parts.1 == rounding::scale(b as nat, p as nat),
        parts.0 < 0x20_0000_0000_0000,
{
    proof {
        lemma2_to64();
        lemma2_to64_rest();
        rounding::lemma_pow2_le(p as nat, 52);
        rounding::lemma_pow2_le(p as nat + 1, 53);
        lemma_pow2_pos(p as nat);
        rounding::lemma_significand(b as nat, p as nat);
    }
    let width: u64 = rounding::power_of_two(p) as u64;
    let field: u64 = b / width;
    if field <= 1 {
        assert(0nat * pow2(p as nat) == 0) by (nonlinear_arith);
        (b, 0)
    } else {
        assert(rounding::scale(b as nat, p as nat) == field - 1);
        (b - (field - 1) * width, field - 1)
    }
}

/// `d` times the value of the magnitude `b`.
fn units_times(d: &Natural, b: u64, p: u32) -> (r: Natural)
    requires
        0 < p <= 52,
    ensures
        r@ == rounding::units(b as nat, p as nat) * d@,
{
    let (significand, scale): (u64, u64) = magnitude_parts(b, p);
    let ghost m = significand as nat;
    let ghost w = pow2(scale as nat);
    assert((d@ * m) * w == (m * w) * d@) by (nonlinear_arith);
    d.times_plus(significand, 0).shifted(scale)
}

/// `d` times the sum of the values of the magnitude `b` and of the next one.
fn units_with_next(d: &Natural, b: u64, p: u32) -> (r: Natural)
    requires
        0 < p <= 52,
    ensures
        r@ == (rounding::units(b as nat, p as nat) + rounding::units(b as nat + 1, p as nat)) * d@,
{
    let (significand, scale): (u64, u64) = magnitude_parts(b, p);
    let ghost m = significand as nat;
    let ghost w = pow2(scale as nat);
    proof {
        rounding::lemma_units_step(b as nat, p as nat);
        assert((d@ * (2 * m + 1)) * w == (m * w + (m * w + w)) * d@) by (nonlinear_arith);
    }
    d.times_plus(2 * significand + 1, 0).shifted(scale)
}

/// The magnitude nearest to `n / d` units.
fn nearest_natural(n: &Natural, d: &Natural, p: u32, top: u64) -> (r: u64)
    requires
        d@ > 0,
        0 < p <= 52,
        top as nat / pow2(p as nat) >= 2,
        top as nat % pow2(p as nat) == 0,
    ensures
        r == rounding::nearest(n@, d@, p as nat, top as nat),
{
    let ghost pp = p as nat;
    if units_times(d, top, p).at_most(n) {
        proof {
            rounding::lemma_nearest_top(n@, d@, pp, top as nat);
        }
        return top;
    }
    let mut low: u64 = 0;
    let mut high: u64 = top;
    proof {
        lemma_pow2_pos(pp);
        assert(0nat / pow2(pp) == 0) by {
            vstd::arithmetic::div_mod::lemma_div_of0(pow2(pp) as int);
        }
        assert(0nat * pow2(pp) == 0) by (nonlinear_arith);
        assert(0nat * pow2(0) == 0) by (nonlinear_arith);
        assert(rounding::units(0, pp) == 0);
        assert(0nat * d@ == 0) by (nonlinear_arith);
        if top == 0 {
            vstd::arithmetic::div_mod::lemma_div_of0(pow2(pp) as int);
        }
    }
    while high - low > 1
        invariant
            0 < p <= 52,
            pp == p as nat,
            low < high <= top,
            rounding::units(low as nat, pp) * d@ <= n@ < rounding::units(high as nat, pp) * d@,
        decreases high - low,
    {
        let middle: u64 = low + (high - low) / 2;
        if units_times(d, middle, p).at_most(n) {
            low = middle;
        } else {
            high = middle;
        }
    }
    let twice: Natural = n.times_plus(2, 0);
    let between: Natural = units_with_next(d, low, p);
    proof {
        rounding::lemma_nearest_between(n@, d@, pp, top as nat, low as nat);
    }
    if between.at_most(&twice) {
        if twice.at_most(&between) && low % 2 == 0 {
            low
        } else {
            high
        }
    } else {
        low
    }
}

/// Exponents from here on put any number out of range.
const EXPONENT_CAP: i128 = 0x40_0000_0000_0000_0000;

/// Whether `v[from..to]` holds digits only.
fn are_digits(v: &Vec<char>, from: usize, to: usize) -> (yes: bool)
    requires
        from <= to <= v@.len(),
    ensures
        yes == all_digits(v@.subrange(from as int, to as int)),
{
    let mut i: usize = from;
    let ghost part = v@.subrange(from as int, to as int);
    while i < to
        invariant
            from <= i <= to <= v@.len(),
            part == v@.subrange(from as int, to as int),
            forall|j: int| 0 <= j < i - from ==> is_digit(#[trigger] part[j]),
        decreases to - i,
    {
        let c = v[i];
        assert(part[i - from] == c);
        if c < '0' || '9' < c {
            return false;
        }
        i += 1;
    }
    true
}

/// The index of the first `c` among the first `to` characters, or `to` where there is none.
fn index_of(v: &Vec<char>, to: usize, c: char) -> (r: usize)
    requires
        to <= v@.len(),
    ensures
        r <= to,
        r == text::first_index(v@.take(to as int), c),
{
    let mut i: usize = 0;
    let ghost part = v@.take(to as int);
    assert(part.skip(0) =~= part);
    while i < to && v[i] != c
        invariant
            i <= to <= v@.len(),
            part == v@.take(to as int),
            text::first_index(part, c) == i + text::first_index(part.skip(i as int), c),
        decreases to - i,
    {
        assert(part.skip(i as int).drop_first() =~= part.skip(i + 1));
        i += 1;
    }
    i
}

/// The index of the first `e` or `E`, or the length where there is none.
fn index_of_mark(v: &Vec<char>) -> (r: usize)
    ensures
        r <= v@.len(),
        r == text::first_index(text::lowered(v@), 'e'),
{
    let mut i: usize = 0;
    let ghost low = text::lowered(v@);
    assert(low.skip(0) =~= low);
    while i < v.len() && v[i] != 'e' && v[i] != 'E'
        invariant
            i <= v@.len(),
            low == text::lowered(v@),
            low.len() == v@.len(),
            text::first_index(low, 'e') == i + text::first_index(low.skip(i as int), 'e'),
        decreases v@.len() - i,
    {
        assert(low.skip(i as int).drop_first() =~= low.skip(i + 1));
        assert(low[i as int] == text::lower_char(v@[i as int]));
        i += 1;
    }
    if i < v.len() {
        assert(low[i as int] == text::lower_char(v@[i as int]));
    }
    i
}

/// The whole number that `v[from..]` spells, exact while it stays within the cap.
fn read_exponent(v: &Vec<char>, from: usize) -> (r: Option<i128>)
    requires
        from <= v@.len(),
    ensures
        r is None <==> whole_number(v@.skip(from as int)) is None,
        r matches Some(x) ==> {
            let y = whole_number(v@.skip(from as int))->0;
            &&& x == y || (x >= EXPONENT_CAP && y >= EXPONENT_CAP) || (x <= -EXPONENT_CAP && y
                <= -EXPONENT_CAP)
            &&& -16 * EXPONENT_CAP <= x <= 16 * EXPONENT_CAP
        },
{
    let ghost s = v@.skip(from as int);
    let mut start: usize = from;
    let mut minus: bool = false;
    if from < v.len() && (v[from] == '+' || v[from] == '-') {
        minus = v[from] == '-';
        start = from + 1;
    }
    let ghost body = without_sign(s);
    assert(body =~= v@.subrange(start as int, v@.len() as int));
    if start == v.len() || !are_digits(v, start, v.len()) {
        return None;
    }
    let mut value: i128 = 0;
    let mut i: usize = start;
    while i < v.len()
        invariant
            start <= i <= v@.len(),
            body == v@.subrange(start as int, v@.len() as int),
            all_digits(body),
            0 <= value <= 16 * EXPONENT_CAP,
            value == number(body.take(i - start)) || (value >= EXPONENT_CAP && number(
                body.take(i - start),
            ) >= EXPONENT_CAP),
        decreases v@.len() - i,
    {
        let c = v[i];
        proof {
            assert(body[i - start] == c);
            assert(body.take(i - start + 1).drop_last() =~= body.take(i - start));
            assert(is_digit(body[i - start]));
        }
        if value < EXPONENT_CAP {
            value = 10 * value + (c as u32 - 48) as i128;
        }
        i += 1;
    }
    assert(body.take(i - start) =~= body);
    if minus {
        Some(-value)
    } else {
        Some(value)
    }
}

/// How many zeros stand at the front of `ds`.
fn leading_zeros(ds: &Vec<char>) -> (z: usize)
    ensures
        z <= ds@.len(),
        z < ds@.len() ==> ds@[z as int] != '0',
        number(ds@) == number(ds@.skip(z as int)),
{
    let mut z: usize = 0;
    assert(ds@.skip(0) =~= ds@);
    while z < ds.len() && ds[z] == '0'
        invariant
            z <= ds@.len(),
            number(ds@) == number(ds@.skip(z as int)),
        decreases ds@.len() - z,
    {
        proof {
            lemma_number_drops_zero(ds@.skip(z as int));
            assert(ds@.skip(z as int).drop_first() =~= ds@.skip(z + 1));
        }
        z += 1;
    }
    z
}

/// The number that the digits spell.
fn natural_of(ds: &Vec<char>) -> (n: Natural)
    requires
        all_digits(ds@),
    ensures
        n@ == number(ds@),
{
    let mut n: Natural = Natural::new(0);
    let mut i: usize = 0;
    assert(number(ds@.take(0)) == 0);
    while i < ds.len()
        invariant
            i <= ds@.len(),
            all_digits(ds@),
            n@ == number(ds@.take(i as int)),
        decreases ds@.len() - i,
    {
        let c = ds[i];
        proof {
            assert(is_digit(ds@[i as int]));
            assert(ds@.take(i + 1).drop_last() =~= ds@.take(i as int));
        }
        n = n.times_plus(10, (c as u32 - 48) as u64);
        i += 1;
    }
    assert(ds@.take(i as int) =~= ds@);
    n
}

/// `n * 10^k`.
fn times_power_of_ten(n: Natural, k: u128) -> (r: Natural)
    ensures
        r@ == n@ * decimal::ten_to(k as nat),
{
    let mut r: Natural = n;
    let mut i: u128 = 0;
    let ghost start = n@;
    assert(start * decimal::ten_to(0) == start) by (nonlinear_arith)
        requires
            decimal::ten_to(0) == 1,
    ;
    while i < k
        invariant
            i <= k,
            r@ == start * decimal::ten_to(i as nat),
        decreases k - i,
    {
        r = r.times_plus(10, 0);
        assert((start * decimal::ten_to(i as nat)) * 10 == start * (10 * decimal::ten_to(i as nat)))
            by (nonlinear_arith);
        i += 1;
    }
    r
}

/// The magnitude nearest to the number that `ds` spells times `10^e`.
fn decimal_nearest(
    ds: &Vec<char>,
    e: i128,
    Ghost(exact): Ghost<int>,
    p: u32,
    top: u64,
    unit: u32,
) -> (r: u64)
    requires
        all_digits(ds@),
        -32 * EXPONENT_CAP <= e <= 32 * EXPONENT_CAP,
        e == exact || (e >= 0x1_0000_0000 && exact >= 0x1_0000_0000) || (e + ds@.len() <= -400
            && exact + ds@.len() <= -400),
        0 < p <= 52,
        top as nat / pow2(p as nat) >= 2,
        top as nat % pow2(p as nat) == 0,
        top > 0,
        unit <= 1074,
        rounding::units(top as nat, p as nat) <= pow2(1200) * pow2(unit as nat),
    ensures
        r == decimal_magnitude(number(ds@), exact, p as nat, top as nat, unit as nat),
{
    let z: usize = leading_zeros(ds);
    let ghost m = number(ds@);
    let ghost rest = ds@.skip(z as int);
    let ghost one = pow2(unit as nat);
    if z == ds.len() {
        proof {
            assert(rest =~= Seq::empty());
            assert(m == 0);
            assert(0nat * one == 0) by (nonlinear_arith);
            if exact >= 0 {
                assert(0nat * decimal::ten_to(exact as nat) == 0) by (nonlinear_arith);
                lemma_nearest_small(0, 1, p as nat, top as nat);
            } else {
                lemma_ten_to_bound((-exact) as nat);
                lemma_nearest_small(0, decimal::ten_to((-exact) as nat), p as nat, top as nat);
            }
        }
        return 0;
    }
    let len: i128 = (ds.len() - z) as i128;
    proof {
        assert(all_digits(rest)) by {
            assert forall|i: int| 0 <= i < rest.len() implies is_digit(#[trigger] rest[i]) by {
                assert(rest[i] == ds@[i + z]);
            }
        }
        lemma_number_bounds(rest);
    }
    if e + len > 400 {
        proof {
            lemma_far_above(m, exact, len as nat, p as nat, top as nat, unit as nat);
        }
        return top;
    }
    if e + len <= -400 {
        proof {
            lemma_far_below(m, exact, len as nat, p as nat, top as nat, unit as nat);
        }
        return 0;
    }
    assert(e == exact);
    let n: Natural = natural_of(ds);
    if e >= 0 {
        let scaled: Natural = times_power_of_ten(n, e as u128).shifted(unit as u64);
        nearest_natural(&scaled, &Natural::new(1), p, top)
    } else {
        proof {
            lemma_ten_to_bound((-e) as nat);
            assert(1 * decimal::ten_to((-e) as nat) == decimal::ten_to((-e) as nat));
        }
        let d: Natural = times_power_of_ten(Natural::new(1), (-e) as u128);
        nearest_natural(&n.shifted(unit as u64), &d, p, top)
    }
}

/// A floating-point format: the bits of its fraction, its patterns of infinity and of what is
/// not a number, and how many powers of two make one out of its least positive number.
struct Format {
    p: u32,
    top: u64,
    nan: u64,
    unit: u32,
}

impl Format {
    spec fn sound(self) -> bool {
        let p = self.p as nat;
        let top = self.top as nat;
        &&& 0 < p <= 52
        &&& top / pow2(p) >= 2
        &&& top % pow2(p) == 0
        &&& 0 < top < self.nan
        &&& self.unit <= 1074
        &&& rounding::units(top, p) <= pow2(1200) * pow2(self.unit as nat)
    }

    spec fn magnitude(self, n: Numeral) -> nat {
        read_magnitude(n, self.p as nat, self.top as nat, self.nan as nat, self.unit as nat)
    }

    fn double() -> (f: Format)
        ensures
            f.sound(),
            f.p == 52,
            f.top == float::INFINITY_BITS,
            f.nan == float::NAN_BITS,
            f.unit == 1074,
    {
        proof {
            lemma2_to64();
            lemma2_to64_rest();
            lemma_pow2_adds(52, 2046);
            lemma_pow2_adds(1200, 1074);
            rounding::lemma_pow2_le(2098, 2274);
        }
        Format { p: 52, top: float::INFINITY_BITS, nan: float::NAN_BITS, unit: 1074 }
    }

    fn single() -> (f: Format)
        ensures
            f.sound(),
            f.p == 23,
            f.top == float::INFINITY_BITS_32,
            f.nan == float::NAN_BITS_32,
            f.unit == 149,
    {
        proof {
            lemma2_to64();
            lemma_pow2_adds(23, 254);
            lemma_pow2_adds(1200, 149);
            rounding::lemma_pow2_le(277, 1349);
        }
        Format {
            p: 23,
            top: float::INFINITY_BITS_32 as u64,
            nan: float::NAN_BITS_32 as u64,
            unit: 149,
        }
    }
}

/// The magnitude of a decimal number.
fn read_decimal(body: &Vec<char>, f: &Format) -> (r: Option<u64>)
    requires
        f.sound(),
    ensures
        r is None <==> decimal_numeral(body@) is None,
        r matches Some(m) ==> m == f.magnitude(decimal_numeral(body@)->0),
{
    let mark: usize = index_of_mark(body);
    let point: usize = index_of(body, mark, '.');
    let ghost front = body@.take(mark as int);
    let ghost whole = front.take(point as int);
    let ghost fraction = if point < mark {
        front.skip(point + 1)
    } else {
        Seq::empty()
    };
    assert(whole =~= body@.subrange(0, point as int));
    if !are_digits(body, 0, point) {
        return None;
    }
    let mut ds: Vec<char> = Vec::new();
    let mut i: usize = 0;
    while i < point
        invariant
            i <= point <= body@.len(),
            ds@ == body@.take(i as int),
        decreases point - i,
    {
        ds.push(body[i]);
        assert(body@.take(i + 1) =~= body@.take(i as int).push(body@[i as int]));
        i += 1;
    }
    assert(ds@ =~= whole);
    let mut places: usize = 0;
    if point < mark {
        assert(fraction =~= body@.subrange(point + 1, mark as int));
        if !are_digits(body, point + 1, mark) {
            return None;
        }
        places = mark - point - 1;
        let mut j: usize = point + 1;
        while j < mark
            invariant
                point < j <= mark <= body@.len(),
                ds@ == whole + body@.subrange(point + 1, j as int),
            decreases mark - j,
        {
            ds.push(body[j]);
            assert(body@.subrange(point + 1, j + 1) =~= body@.subrange(point + 1, j as int).push(
                body@[j as int],
            ));
            assert(ds@ =~= whole + body@.subrange(point + 1, j + 1));
            j += 1;
        }
    }
    assert(ds@ =~= whole + fraction);
    if ds.len() == 0 {
        return None;
    }
    let exponent: i128 = if mark < body.len() {
        match read_exponent(body, mark + 1) {
            Some(x) => x,
            None => {
                return None;
            },
        }
    } else {
        0
    };
    proof {
        assert(all_digits(ds@)) by {
            assert forall|k: int| 0 <= k < ds@.len() implies is_digit(#[trigger] ds@[k]) by {
                if k < whole.len() {
                    assert(ds@[k] == whole[k]);
                } else {
                    assert(ds@[k] == fraction[k - whole.len()]);
                }
            }
        }
    }
    let ghost exact = match decimal_numeral(body@) {
        Some(Numeral::Decimal { mantissa, exponent }) => exponent,
        _ => 0,
    };
    Some(decimal_nearest(&ds, exponent - places as i128, Ghost(exact), f.p, f.top, f.unit))
}

/// The sign and the magnitude of what a text says.
fn read_parts(s: &str, f: &Format) -> (r: Option<(bool, u64)>)
    requires
        f.sound(),
    ensures
        r is None <==> numeral(s@) is None,
        r matches Some((negative, m)) ==> negative == has_minus(s@) && m == f.magnitude(
            numeral(s@)->0,
        ),
{
    let chars = text::chars_of(s);
    let mut minus: bool = false;
    let mut start: usize = 0;
    if chars.len() > 0 && (chars[0] == '+' || chars[0] == '-') {
        minus = chars[0] == '-';
        start = 1;
    }
    let unsigned = text::string_of(&chars, start, chars.len());
    assert(unsigned@ =~= without_sign(s@));
    let name = text::lowercase(unsigned.as_str());
    if text::same_text(name.as_str(), "inf") || text::same_text(name.as_str(), "infinity") {
        return Some((minus, f.top));
    }
    if text::same_text(name.as_str(), "nan") {
        return Some((minus, f.nan));
    }
    match read_decimal(&text::chars_of(unsigned.as_str()), f) {
        Some(m) => Some((minus, m)),
        None => None,
    }
}

/// The double-precision number that a text says, or `None` where it says none.
pub fn parse_float64(s: &str) -> (r: Option<Float64>)
    ensures
        r == read_float64(s@),
{
    match read_parts(s, &Format::double()) {
        Some((negative, m)) => {
            if negative {
                Some(Float64 { bits: m + float::SIGN_BIT })
            } else {
                Some(Float64 { bits: m })
            }
        },
        None => None,
    }
}

/// The single-precision number that a text says, or `None` where it says none.
pub fn parse_float32(s: &str) -> (r: Option<Float32>)
    ensures
        r == read_float32(s@),
{
    match read_parts(s, &Format::single()) {
        Some((negative, m)) => {
            if negative {
                Some(Float32 { bits: m as u32 + float::SIGN_BIT_32 })
            } else {
                Some(Float32 { bits: m as u32 })
            }
        },
        None => None,
    }
}

/// The digits of a number spell it.
pub proof fn lemma_number_of_digits(n: nat)
    ensures
        decimal::digits(n).len() > 0,
        all_digits(decimal::digits(n)),
        number(decimal::digits(n)) == n,
    decreases n,
{
    let d = decimal::digits(n);
    if n < 10 {
        assert(d.drop_last() =~= Seq::empty());
        assert(number(d.drop_last()) == 0);
    } else {
        lemma_number_of_digits(n / 10);
        assert(d.drop_last() =~= decimal::digits(n / 10));
        assert(all_digits(d)) by {
            assert forall|i: int| 0 <= i < d.len() implies is_digit(#[trigger] d[i]) by {
                if i < d.len() - 1 {
                    assert(d[i] == decimal::digits(n / 10)[i]);
                }
            }
        }
    }
}

proof fn lemma_first_index_absent(s: Seq<char>, c: char)
    requires
        all_digits(s),
        !is_digit(c),
    ensures
        text::first_index(s, c) == s.len(),
        text::lowered(s) == s,
    decreases s.len(),
{
    assert(text::lowered(s) =~= s);
    if s.len() > 0 {
        let tail = s.drop_first();
        assert forall|i: int| 0 <= i < tail.len() implies is_digit(#[trigger] tail[i]) by {
            assert(tail[i] == s[i + 1]);
        }
        lemma_first_index_absent(tail, c);
    }
}

/// A whole number that is written in decimal is read as that number.
pub proof fn lemma_digits_are_read(n: nat)
    ensures
        read_float64(decimal::digits(n)) == Some(float::from_whole(n as int)),
{
    reveal_strlit("inf");
    reveal_strlit("infinity");
    reveal_strlit("nan");
    let s = decimal::digits(n);
    lemma_number_of_digits(n);
    assert(is_digit(s[0]));
    lemma_first_index_absent(s, 'e');
    lemma_first_index_absent(s, '.');
    assert(s.take(s.len() as int) =~= s);
    assert(s + Seq::<char>::empty() =~= s);
    assert(all_digits(Seq::<char>::empty()));
    assert(decimal_numeral(s) == Some(Numeral::Decimal { mantissa: n, exponent: 0 }));
    assert(decimal::ten_to(0) == 1);
    assert(n * 1 * pow2(1074) == n * pow2(1074)) by (nonlinear_arith);
}

/// A digit more counts ten times what stood before it and itself.
pub proof fn lemma_number_longer(s: Seq<char>, d: nat)
    requires
        d < 10,
    ensures
        number(s.push(decimal::digit(d))) == 10 * number(s) + d,
        is_digit(decimal::digit(d)),
{
    assert(s.push(decimal::digit(d)).drop_last() =~= s);
}

proof fn lemma_lowered_index(s: Seq<char>, c: char)
    requires
        forall|i: int| 0 <= i < s.len() ==> text::lower_char(#[trigger] s[i]) != c,
    ensures
        text::first_index(text::lowered(s), c) == s.len(),
{
    let low = text::lowered(s);
    text::lemma_first_index(low, c);
    let k = text::first_index(low, c);
    if k < low.len() {
        assert(low[k] == text::lower_char(s[k]));
    }
}

/// Digits with a point among them or around them: all digits make the mantissa, and those behind
/// the point count how often it is divided by ten. Digits alone are a whole number.
pub proof fn lemma_decimal_spelled(whole: Seq<char>, fraction: Seq<char>)
    requires
        all_digits(whole),
        all_digits(fraction),
        whole.len() + fraction.len() > 0,
    ensures
        numeral(whole + seq!['.'] + fraction) == Some(
            Numeral::Decimal { mantissa: number(whole + fraction), exponent: -(fraction.len() as int) },
        ),
        whole.len() > 0 ==> numeral(whole) == Some(
            Numeral::Decimal { mantissa: number(whole), exponent: 0 },
        ),
{
    reveal_strlit("inf");
    reveal_strlit("infinity");
    reveal_strlit("nan");
    let s = whole + seq!['.'] + fraction;
    let w = whole.len() as int;
    assert forall|i: int| 0 <= i < s.len() implies text::lower_char(#[trigger] s[i]) != 'e'
        && !(s[i] == '+') && !(s[i] == '-') by {
        if i < w {
            assert(is_digit(whole[i]));
            assert(s[i] == whole[i]);
        } else if i > w {
            assert(is_digit(fraction[i - w - 1]));
            assert(s[i] == fraction[i - w - 1]);
        } else {
            assert(s[i] == '.');
        }
    }
    lemma_lowered_index(s, 'e');
    assert(s.take(s.len() as int) =~= s);
    text::lemma_first_index(s, '.');
    let k = text::first_index(s, '.');
    assert(s[w] == '.');
    if k < w {
        assert(is_digit(whole[k]));
        assert(s[k] == whole[k]);
    }
    assert(k == w);
    assert(s.take(w) =~= whole);
    assert(s.skip(w + 1) =~= fraction);
    assert(!has_sign(s));
    assert(text::lowered(s)[0] == text::lower_char(s[0]));
    assert(s[0] == if w > 0 {
        whole[0]
    } else {
        '.'
    });
    if w > 0 {
        assert(is_digit(whole[0]));
        lemma_first_index_absent(whole, 'e');
        lemma_first_index_absent(whole, '.');
        assert(whole.take(w) =~= whole);
        assert(whole + Seq::<char>::empty() =~= whole);
        assert(all_digits(Seq::<char>::empty()));
    }
}

/// An exponent behind a number counts how often it is multiplied by ten, or divided where it has a
/// minus.
pub proof fn lemma_exponent_spelled(body: Seq<char>, mark: char, sign: Seq<char>, d: Seq<char>)
    requires
        decimal_numeral(body) is Some,
        forall|i: int| 0 <= i < body.len() ==> #[trigger] body[i] != 'e' && body[i] != 'E',
        mark == 'e' || mark == 'E',
        sign == Seq::<char>::empty() || sign == seq!['+'] || sign == seq!['-'],
        d.len() > 0,
        all_digits(d),
    ensures
        decimal_numeral(body) matches Some(Numeral::Decimal { mantissa, exponent })
            && decimal_numeral(body + seq![mark] + sign + d) == Some(
            Numeral::Decimal {
                mantissa,
                exponent: if sign == seq!['-'] {
                    exponent - number(d)
                } else {
                    exponent + number(d)
                },
            },
        ),
{
    let s = body + seq![mark] + sign + d;
    let low = text::lowered(s);
    let n = body.len() as int;
    lemma_lowered_index(body, 'e');
    text::lemma_first_index(low, 'e');
    let k = text::first_index(low, 'e');
    assert(s[n] == mark);
    assert(low[n] == 'e');
    if k < n {
        assert(s[k] == body[k]);
        assert(low[k] == text::lower_char(body[k]));
    }
    assert(k == n);
    assert(body.take(n) =~= body);
    assert(s.take(n) =~= body);
    let tail = s.skip(n + 1);
    assert(tail =~= sign + d);
    if sign.len() == 0 {
        assert(tail =~= d);
        assert(is_digit(d[0]));
    } else {
        assert(tail[0] == sign[0]);
        assert(tail.skip(1) =~= d);
    }
}

/// A minus before a number makes it negative, and a plus changes nothing.
pub proof fn lemma_sign_read(s: Seq<char>)
    requires
        !has_sign(s),
    ensures
        read_float64(seq!['+'] + s) == read_float64(s),
        read_float64(s) is None ==> read_float64(seq!['-'] + s) is None,
        read_float64(s) matches Some(x) ==> !x.negative() && read_float64(seq!['-'] + s) == Some(
            float::negated(x),
        ),
{
    let minus = seq!['-'] + s;
    let plus = seq!['+'] + s;
    assert(minus.skip(1) =~= s);
    assert(plus.skip(1) =~= s);
    assert(minus[0] == '-');
    assert(plus[0] == '+');
    if let Some(n) = numeral(s) {
        let m = read_magnitude(
            n,
            52,
            float::INFINITY_BITS as nat,
            float::NAN_BITS as nat,
            1074,
        );
        assert(m <= float::NAN_BITS);
    }
}

/// No number is nearer to the number that a decimal spells than the one that it is read as.
pub proof fn lemma_decimal_closest(s: Seq<char>, m: nat, e: int, c: Float64)
    requires
        numeral(s) == Some(Numeral::Decimal { mantissa: m, exponent: e }),
        c.finite(),
        e >= 0 ==> m * decimal::ten_to(e as nat) * float::one_in_units() < rounding::units(
            float::INFINITY_BITS as nat,
            52,
        ),
        e < 0 ==> m * float::one_in_units() < rounding::units(float::INFINITY_BITS as nat, 52)
            * decimal::ten_to((-e) as nat),
    ensures
        read_float64(s) is Some,
        read_float64(s)->0.negative() == has_minus(s),
        !read_float64(s)->0.nan(),
        e >= 0 ==> ({
            let exact = m * decimal::ten_to(e as nat) * float::one_in_units();
            arithmetic::size(read_float64(s)->0.units() - exact) <= arithmetic::size(
                c.units() - exact,
            )
        }),
        e < 0 ==> ({
            let ten = decimal::ten_to((-e) as nat);
            let exact = m * float::one_in_units();
            arithmetic::size(read_float64(s)->0.units() * ten - exact) <= arithmetic::size(
                c.units() * ten - exact,
            )
        }),
{
    let top = float::INFINITY_BITS as nat;
    let b = decimal_magnitude(m, e, 52, top, 1074);
    assert(b <= top);
    arithmetic::lemma_signed(has_minus(s), b);
    if e >= 0 {
        let exact = m * decimal::ten_to(e as nat) * float::one_in_units();
        rounding::lemma_nearest_is_nearest(exact, 1, 52, top, c.magnitude());
    } else {
        let ten = decimal::ten_to((-e) as nat);
        lemma_ten_to_bound((-e) as nat);
        rounding::lemma_nearest_is_nearest(m * float::one_in_units(), ten, 52, top, c.magnitude());
    }
}

/// What is read as a number is a name of infinity, `nan`, or is made of digits, points, marks of
/// an exponent and signs, with a digit among them.
pub proof fn lemma_only_numbers_read(s: Seq<char>)
    requires
        read_float64(s) is Some,
    ensures
        ({
            let name = text::lowered(without_sign(s));
            ||| name == "inf"@
            ||| name == "infinity"@
            ||| name == "nan"@
            ||| (exists|i: int| 0 <= i < s.len() && '0' <= #[trigger] s[i] <= '9') && forall|i: int|
                0 <= i < s.len() ==> '0' <= #[trigger] s[i] <= '9' || s[i] == '.' || s[i] == 'e' || s[i]
                    == 'E' || s[i] == '+' || s[i] == '-'
        }),
{
    let name = text::lowered(without_sign(s));
    if name != "inf"@ && name != "infinity"@ && name != "nan"@ {
        let body = without_sign(s);
        lemma_decimal_made_of(body);
        let shift: int = if has_sign(s) {
            1
        } else {
            0
        };
        assert forall|i: int| 0 <= i < body.len() implies #[trigger] body[i] == s[i + shift] by {}
        let j = choose|j: int| 0 <= j < body.len() && is_digit(#[trigger] body[j]);
        assert(is_digit(s[j + shift]));
        assert forall|i: int| 0 <= i < s.len() implies is_digit(#[trigger] s[i]) || s[i] == '.'
            || s[i] == 'e' || s[i] == 'E' || s[i] == '+' || s[i] == '-' by {
            if i >= shift {
                assert(body[i - shift] == s[i]);
            }
        }
    }
}

proof fn lemma_decimal_made_of(s: Seq<char>)
    requires
        decimal_numeral(s) is Some,
    ensures
        exists|i: int| 0 <= i < s.len() && is_digit(#[trigger] s[i]),
        forall|i: int|
            0 <= i < s.len() ==> is_digit(#[trigger] s[i]) || s[i] == '.' || s[i] == 'e' || s[i]
                == 'E' || s[i] == '+' || s[i] == '-',
{
    let low = text::lowered(s);
    let mark = text::first_index(low, 'e');
    text::lemma_first_index(low, 'e');
    let front = s.take(mark);
    let point = text::first_index(front, '.');
    text::lemma_first_index(front, '.');
    let whole = front.take(point);
    if whole.len() > 0 {
        assert(is_digit(whole[0]));
        assert(is_digit(s[0]));
    } else {
        let fraction = front.skip(point + 1);
        assert(is_digit(fraction[0]));
        assert(is_digit(s[point + 1]));
    }
    assert forall|i: int| 0 <= i < s.len() implies is_digit(#[trigger] s[i]) || s[i] == '.' || s[i]
        == 'e' || s[i] == 'E' || s[i] == '+' || s[i] == '-' by {
        if i < mark {
            assert(front[i] == s[i]);
            if i < point {
                assert(is_digit(whole[i]));
            } else if i > point {
                assert(is_digit(front.skip(point + 1)[i - point - 1]));
            }
        } else if i == mark {
            assert(low[i] == text::lower_char(s[i]));
            assert(low[i] == 'e');
        } else {
            let tail = s.skip(mark + 1);
            let rest = without_sign(tail);
            assert(tail[i - mark - 1] == s[i]);
            if has_sign(tail) {
                if i > mark + 1 {
                    assert(is_digit(rest[i - mark - 2]));
                }
            } else {
                assert(is_digit(rest[i - mark - 1]));
            }
        }
    }
}

/// The names of infinity and of what is not a number are read as such, in capitals or small
/// letters, with a sign or without.
pub proof fn lemma_names_read(s: Seq<char>)
    ensures
        text::lowered(without_sign(s)) == "inf"@ || text::lowered(without_sign(s)) == "infinity"@
            ==> read_float64(s) is Some && read_float64(s)->0.infinite()
            && read_float64(s)->0.negative() == has_minus(s),
        text::lowered(without_sign(s)) == "nan"@ ==> read_float64(s) is Some
            && read_float64(s)->0.nan(),
{
    reveal_strlit("inf");
    reveal_strlit("infinity");
    reveal_strlit("nan");
    assert(float::signed(true, float::NAN_BITS as nat).nan());
    assert("nan"@.len() == 3 && "inf"@.len() == 3 && "infinity"@.len() == 8);
    assert("nan"@[0] == 'n' && "inf"@[0] == 'i');
}

/// A decimal that is too large for the format is infinite.
pub proof fn lemma_decimal_too_large(s: Seq<char>, m: nat, e: nat)
    requires
        numeral(s) == Some(Numeral::Decimal { mantissa: m, exponent: e as int }),
        m * decimal::ten_to(e) * float::one_in_units() >= rounding::units(
            float::INFINITY_BITS as nat,
            52,
        ),
    ensures
        read_float64(s) is Some,
        read_float64(s)->0.infinite(),
        read_float64(s)->0.negative() == has_minus(s),
{
    let top = float::INFINITY_BITS as nat;
    lemma2_to64();
    lemma2_to64_rest();
    assert(0x7ff0_0000_0000_0000nat / 0x10_0000_0000_0000nat == 0x7ff);
    assert(0x7ff0_0000_0000_0000nat % 0x10_0000_0000_0000nat == 0);
    rounding::lemma_nearest_top(m * decimal::ten_to(e) * float::one_in_units(), 1, 52, top);
    arithmetic::lemma_signed(has_minus(s), top);
}

/// The same texts are numbers in single precision as in double.
pub proof fn lemma_same_texts_read(s: Seq<char>)
    ensures
        read_float32(s) is Some <==> read_float64(s) is Some,
{
}

/// A minus before a number makes it negative in single precision too, and a plus changes nothing.
pub proof fn lemma_sign_read_32(s: Seq<char>)
    requires
        !has_sign(s),
    ensures
        read_float32(seq!['+'] + s) == read_float32(s),
        read_float32(s) matches Some(x) ==> x.bits < float::SIGN_BIT_32,
        read_float32(s) matches Some(x) ==> read_float32(seq!['-'] + s) is Some && read_float32(
            seq!['-'] + s,
        )->0.bits == x.bits + float::SIGN_BIT_32,
{
    let minus = seq!['-'] + s;
    let plus = seq!['+'] + s;
    assert(minus.skip(1) =~= s);
    assert(plus.skip(1) =~= s);
    assert(minus[0] == '-');
    assert(plus[0] == '+');
    if let Some(n) = numeral(s) {
        let m = read_magnitude(
            n,
            23,
            float::INFINITY_BITS_32 as nat,
            float::NAN_BITS_32 as nat,
            149,
        );
        assert(m <= float::NAN_BITS_32);
    }
}

/// No number in single precision is nearer to the number that a decimal spells than the one that
/// it is read as.
pub proof fn lemma_decimal_closest_32(s: Seq<char>, m: nat, e: int, c: Float32)
    requires
        numeral(s) == Some(Numeral::Decimal { mantissa: m, exponent: e }),
        c.magnitude() < float::INFINITY_BITS_32,
        e >= 0 ==> m * decimal::ten_to(e as nat) * pow2(149) < rounding::units(
            float::INFINITY_BITS_32 as nat,
            23,
        ),
        e < 0 ==> m * pow2(149) < rounding::units(float::INFINITY_BITS_32 as nat, 23)
            * decimal::ten_to((-e) as nat),
    ensures
        read_float32(s) is Some,
        e >= 0 ==> ({
            let exact = m * decimal::ten_to(e as nat) * pow2(149);
            arithmetic::size(read_float32(s)->0.units() - exact) <= arithmetic::size(
                c.units() - exact,
            )
        }),
        e < 0 ==> ({
            let ten = decimal::ten_to((-e) as nat);
            let exact = m * pow2(149);
            arithmetic::size(read_float32(s)->0.units() * ten - exact) <= arithmetic::size(
                c.units() * ten - exact,
            )
        }),
{
    let top = float::INFINITY_BITS_32 as nat;
    let b = decimal_magnitude(m, e, 23, top, 149);
    assert(b <= top);
    assert(float::signed_32(has_minus(s), b).magnitude() == b);
    if e >= 0 {
        let exact = m * decimal::ten_to(e as nat) * pow2(149);
        rounding::lemma_nearest_is_nearest(exact, 1, 23, top, c.magnitude());
    } else {
        let ten = decimal::ten_to((-e) as nat);
        lemma_ten_to_bound((-e) as nat);
        rounding::lemma_nearest_is_nearest(m * pow2(149), ten, 23, top, c.magnitude());
    }
}

/// A decimal is made of digits before a point and behind it, with or without the point where there
/// are none behind it, and where it has an exponent, of a mark, a sign or none, and digits.
pub proof fn lemma_decimal_form(s: Seq<char>) -> (parts: (Seq<char>, Seq<char>, Seq<char>))
    requires
        decimal_numeral(s) is Some,
    ensures
        ({
            let (whole, fraction, tail) = parts;
            let sign = tail.len() > 1 && (tail[1] == '+' || tail[1] == '-');
            &&& s == whole + seq!['.'] + fraction + tail || (fraction.len() == 0 && s == whole
                + tail)
            &&& whole.len() + fraction.len() > 0
            &&& forall|i: int| 0 <= i < whole.len() ==> '0' <= #[trigger] whole[i] <= '9'
            &&& forall|i: int| 0 <= i < fraction.len() ==> '0' <= #[trigger] fraction[i] <= '9'
            &&& tail.len() > 0 ==> {
                &&& tail[0] == 'e' || tail[0] == 'E'
                &&& tail.len() > 1
                &&& sign ==> tail.len() > 2
                &&& forall|i: int|
                    2 <= i < tail.len() ==> '0' <= #[trigger] tail[i] <= '9'
                &&& !sign ==> '0' <= tail[1] <= '9'
            }
        }),
{
    let low = text::lowered(s);
    let mark = text::first_index(low, 'e');
    text::lemma_first_index(low, 'e');
    let front = s.take(mark);
    let point = text::first_index(front, '.');
    text::lemma_first_index(front, '.');
    let whole = front.take(point);
    let fraction = if point < front.len() {
        front.skip(point + 1)
    } else {
        Seq::empty()
    };
    let tail = s.skip(mark);
    assert(s =~= front + tail);
    if point < front.len() {
        assert(front =~= whole + seq!['.'] + fraction);
        assert(s =~= whole + seq!['.'] + fraction + tail);
    } else {
        assert(front =~= whole);
        assert(s =~= whole + tail);
    }
    if tail.len() > 0 {
        assert(low[mark] == text::lower_char(s[mark]));
        assert(tail[0] == s[mark]);
        let rest = s.skip(mark + 1);
        let body = without_sign(rest);
        assert(tail.len() == rest.len() + 1);
        assert(rest.len() > 0);
        assert(rest[0] == tail[1]);
        assert forall|i: int| 2 <= i < tail.len() implies '0' <= #[trigger] tail[i] <= '9' by {
            assert(tail[i] == rest[i - 1]);
            if has_sign(rest) {
                assert(is_digit(body[i - 2]));
            } else {
                assert(is_digit(body[i - 1]));
            }
        }
        if !has_sign(rest) {
            assert(is_digit(body[0]));
        }
    }
    assert forall|i: int| 0 <= i < whole.len() implies '0' <= #[trigger] whole[i] <= '9' by {
        assert(is_digit(whole[i]));
    }
    assert forall|i: int| 0 <= i < fraction.len() implies '0' <= #[trigger] fraction[i] <= '9' by {
        assert(is_digit(fraction[i]));
    }
    (whole, fraction, tail)
}

} // verus!
