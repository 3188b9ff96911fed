//! Rounding a ratio of whole numbers: to the nearest whole number, and to the nearest binary
//! floating-point magnitude.
//!
//! A magnitude is held as the bit pattern of a non-negative IEEE 754 number: the fraction field
//! of `p` bits below the exponent field. Its value is counted in units of the least positive
//! number of the format, so that every finite magnitude is a whole number of units.

use vstd::arithmetic::mul::*;
use vstd::arithmetic::power2::*;
use vstd::prelude::*;

verus! {

/// `n / d` rounded to the nearest whole number, to the even one where two are equally near.
pub open spec fn half_even(n: nat, d: nat) -> nat {
    let q = n / d;
    let r = n % d;
    if 2 * r < d || (2 * r == d && q % 2 == 0) {
        q
    } else {
        q + 1
    }
}

/// By how many binary digits the whole part of `n / d` exceeds the `p + 1` digits that a
/// magnitude can hold: the least `s` with `n / d < 2^(p + 1 + s)`.
pub open spec fn excess(n: nat, d: nat, p: nat) -> nat
    decreases n - d,
{
    if d == 0 || n < d * pow2(p + 1) {
        0
    } else {
        proof {
            lemma_pow2_unfold(p + 1);
            lemma_pow2_pos(p);
            assert(d * pow2(p + 1) >= 2 * d) by (nonlinear_arith)
                requires
                    pow2(p + 1) >= 2,
            ;
        }
        1 + excess(n, 2 * d, p)
    }
}

/// The magnitude nearest to `n / d` units, ties going to the even bit pattern; `top`, the
/// pattern of infinity, where no finite magnitude is large enough.
pub open spec fn nearest(n: nat, d: nat, p: nat, top: nat) -> nat {
    let s = excess(n, d, p);
    let rounded = s * pow2(p) + half_even(n, d * pow2(s));
    if rounded < top {
        rounded
    } else {
        top
    }
}

/// The exponent of the unit in the last place of the magnitude `b`.
pub open spec fn scale(b: nat, p: nat) -> nat {
    if b / pow2(p) <= 1 {
        0
    } else {
        (b / pow2(p) - 1) as nat
    }
}

/// The whole number that `b` holds in units in its own last place.
pub open spec fn significand(b: nat, p: nat) -> nat {
    (b - scale(b, p) * pow2(p)) as nat
}

/// The value of the magnitude `b` in units.
pub open spec fn units(b: nat, p: nat) -> nat {
    significand(b, p) * pow2(scale(b, p))
}

/// `2^k <= a / b`.
spec fn ratio_at_least(a: nat, b: nat, k: int) -> bool {
    if k >= 0 {
        b * pow2(k as nat) <= a
    } else {
        b <= a * pow2((-k) as nat)
    }
}

proof fn lemma_ratio_monotone(a: nat, b: nat, k: int, j: int)
    requires
        j <= k,
        ratio_at_least(a, b, k),
    ensures
        ratio_at_least(a, b, j),
{
    if j >= 0 {
        lemma_pow2_le(j as nat, k as nat);
        lemma_mul_inequality(pow2(j as nat) as int, pow2(k as nat) as int, b as int);
    } else if k >= 0 {
        lemma_pow2_pos(k as nat);
        lemma_pow2_pos((-j) as nat);
        assert(b <= b * pow2(k as nat)) by (nonlinear_arith)
            requires
                pow2(k as nat) >= 1,
        ;
        assert(a <= a * pow2((-j) as nat)) by (nonlinear_arith)
            requires
                pow2((-j) as nat) >= 1,
        ;
    } else {
        lemma_pow2_le((-k) as nat, (-j) as nat);
        lemma_mul_inequality(pow2((-k) as nat) as int, pow2((-j) as nat) as int, a as int);
    }
}

pub proof fn lemma_pow2_le(i: nat, j: nat)
    requires
        i <= j,
    ensures
        pow2(i) <= pow2(j),
{
    if i < j {
        lemma_pow2_strictly_increases(i, j);
    }
}

/// Comparing `a * 2^up` with `b * 2^down * 2^j` is comparing `a / b` with a power of two.
proof fn lemma_compare(a: nat, up: nat, b: nat, down: nat, j: nat)
    ensures
        (b * pow2(down)) * pow2(j) <= a * pow2(up) <==> ratio_at_least(a, b, j + down - up),
{
    let k = j + down - up;
    lemma_pow2_adds(down, j);
    assert((b * pow2(down)) * pow2(j) == b * (pow2(down) * pow2(j))) by (nonlinear_arith);
    if k >= 0 {
        lemma_pow2_adds(k as nat, up);
        lemma_pow2_pos(up);
        assert(b * (pow2(k as nat) * pow2(up)) == (b * pow2(k as nat)) * pow2(up))
            by (nonlinear_arith);
        lemma_scaled_order(b * pow2(k as nat), a, pow2(up));
    } else {
        lemma_pow2_adds((-k) as nat, down + j);
        lemma_pow2_pos(down + j);
        assert(a * (pow2((-k) as nat) * pow2(down + j)) == (a * pow2((-k) as nat)) * pow2(down + j))
            by (nonlinear_arith);
        lemma_scaled_order(b, a * pow2((-k) as nat), pow2(down + j));
    }
}

pub proof fn lemma_scaled_order(x: nat, y: nat, m: nat)
    requires
        m > 0,
    ensures
        x * m <= y * m <==> x <= y,
{
    assert(x * m <= y * m <==> x <= y) by (nonlinear_arith)
        requires
            m > 0,
    ;
}

/// Rounding does not depend on a factor common to both sides of the ratio.
pub proof fn lemma_half_even_scaled(n: nat, d: nat, m: nat)
    requires
        d > 0,
        m > 0,
    ensures
        half_even(n * m, d * m) == half_even(n, d),
{
    let q = n / d;
    let r = n % d;
    assert(n == d * q + r) by {
        vstd::arithmetic::div_mod::lemma_fundamental_div_mod(n as int, d as int);
    }
    assert(n * m == q * (d * m) + r * m) by (nonlinear_arith)
        requires
            n == d * q + r,
    ;
    assert(0 <= r * m < d * m) by (nonlinear_arith)
        requires
            0 <= r < d,
            m > 0,
    ;
    vstd::arithmetic::div_mod::lemma_fundamental_div_mod_converse(
        (n * m) as int,
        (d * m) as int,
        q as int,
        (r * m) as int,
    );
    assert(2 * (r * m) == (2 * r) * m) by (nonlinear_arith);
    lemma_scaled_order(2 * r, d, m);
    lemma_scaled_order(d, 2 * r, m);
}

/// A ratio below one half rounds to zero.
pub proof fn lemma_half_even_small(n: nat, d: nat)
    requires
        2 * n < d,
    ensures
        half_even(n, d) == 0,
{
    vstd::arithmetic::div_mod::lemma_small_mod(n, d);
    vstd::arithmetic::div_mod::lemma_basic_div(n as int, d as int);
}

/// `excess` is the one number that meets its description.
pub proof fn lemma_excess(n: nat, d: nat, p: nat, s: nat)
    requires
        d > 0,
        n < d * pow2(p + 1 + s),
        s == 0 || d * pow2(p + s) <= n,
    ensures
        excess(n, d, p) == s,
    decreases s,
{
    lemma_pow2_unfold(p + 1);
    lemma_pow2_pos(p);
    if s > 0 {
        lemma_pow2_le(p + 1, p + s);
        lemma_mul_inequality(pow2(p + 1) as int, pow2(p + s) as int, d as int);
        lemma_mul_is_commutative(pow2(p + 1) as int, d as int);
        lemma_mul_is_commutative(pow2(p + s) as int, d as int);
        assert(d * pow2(p + 1) >= 2 * d) by (nonlinear_arith)
            requires
                pow2(p + 1) >= 2,
        ;
        lemma_pow2_unfold(p + 1 + s);
        lemma_pow2_unfold(p + s);
        assert((2 * d) * pow2((p + s) as nat) == d * pow2(p + 1 + s)) by (nonlinear_arith)
            requires
                pow2(p + 1 + s) == 2 * pow2((p + s) as nat),
        ;
        assert((2 * d) * pow2((p + s - 1) as nat) == d * pow2(p + s)) by (nonlinear_arith)
            requires
                pow2(p + s) == 2 * pow2((p + s - 1) as nat),
        ;
        lemma_excess(n, 2 * d, p, (s - 1) as nat);
    }
}

/// The significand stays below `2^(p + 1)`, and reaches `2^p` where the scale is not zero.
pub proof fn lemma_significand(b: nat, p: nat)
    ensures
        significand(b, p) < pow2(p + 1),
        scale(b, p) > 0 ==> pow2(p) <= significand(b, p),
        scale(b, p) * pow2(p) <= b,
        b == scale(b, p) * pow2(p) + significand(b, p),
{
    let w = pow2(p);
    let e = b / w;
    lemma_pow2_pos(p);
    lemma_pow2_unfold(p + 1);
    vstd::arithmetic::div_mod::lemma_fundamental_div_mod(b as int, w as int);
    vstd::arithmetic::div_mod::lemma_mod_bound(b as int, w as int);
    if e <= 1 {
        assert(w * e <= w) by (nonlinear_arith)
            requires
                e <= 1,
        ;
        assert(0 * w == 0) by (nonlinear_arith);
    } else {
        assert((e - 1) * w == w * e - w) by (nonlinear_arith);
    }
}

/// The order of the bit patterns is the order of the values.
pub proof fn lemma_units_increase(b: nat, c: nat, p: nat)
    requires
        b < c,
    ensures
        units(b, p) < units(c, p),
{
    lemma_significand(b, p);
    lemma_significand(c, p);
    let sb = scale(b, p);
    let sc = scale(c, p);
    let mb = significand(b, p);
    let mc = significand(c, p);
    lemma_pow2_pos(p);
    lemma_pow2_pos(sb);
    vstd::arithmetic::div_mod::lemma_div_is_ordered(b as int, c as int, pow2(p) as int);
    if sb == sc {
        assert(mb * pow2(sb) < mc * pow2(sb)) by (nonlinear_arith)
            requires
                mb < mc,
                pow2(sb) > 0,
        ;
    } else {
        lemma_pow2_adds(p + 1, sb);
        lemma_pow2_adds(p, sc);
        lemma_pow2_le(p + 1 + sb, p + sc);
        assert(mb * pow2(sb) < pow2(p + 1) * pow2(sb)) by (nonlinear_arith)
            requires
                mb < pow2(p + 1),
                pow2(sb) > 0,
        ;
        assert(pow2(p) * pow2(sc) <= mc * pow2(sc)) by (nonlinear_arith)
            requires
                pow2(p) <= mc,
        ;
    }
}

/// `excess` meets its description.
pub proof fn lemma_excess_meets(n: nat, d: nat, p: nat)
    requires
        d > 0,
    ensures
        n < d * pow2(p + 1 + excess(n, d, p)),
        excess(n, d, p) == 0 || d * pow2(p + excess(n, d, p)) <= n,
    decreases n - d,
{
    if n >= d * pow2(p + 1) {
        lemma_pow2_unfold(p + 1);
        lemma_pow2_pos(p);
        assert(d * pow2(p + 1) >= 2 * d) by (nonlinear_arith)
            requires
                pow2(p + 1) >= 2,
        ;
        lemma_excess_meets(n, 2 * d, p);
        let s = excess(n, 2 * d, p);
        lemma_pow2_unfold(p + 2 + s);
        lemma_pow2_unfold(p + 1 + s);
        assert((2 * d) * pow2(p + 1 + s) == d * (2 * pow2(p + 1 + s))) by (nonlinear_arith);
        assert((2 * d) * pow2(p + s) == d * (2 * pow2(p + s))) by (nonlinear_arith);
    }
}

/// The next magnitude is one unit in the last place away.
pub proof fn lemma_units_step(b: nat, p: nat)
    ensures
        units(b + 1, p) == units(b, p) + pow2(scale(b, p)),
{
    let w = pow2(p);
    let e = b / w;
    let s = scale(b, p);
    let r = b % w;
    lemma_pow2_pos(p);
    lemma_significand(b, p);
    lemma_significand(b + 1, p);
    vstd::arithmetic::div_mod::lemma_fundamental_div_mod(b as int, w as int);
    vstd::arithmetic::div_mod::lemma_mod_bound(b as int, w as int);
    let m = significand(b, p);
    assert((m + 1) * pow2(s) == m * pow2(s) + pow2(s)) by (nonlinear_arith);
    if r + 1 < w {
        assert(b + 1 == e * w + (r + 1)) by (nonlinear_arith)
            requires
                b == w * e + r,
        ;
        vstd::arithmetic::div_mod::lemma_fundamental_div_mod_converse(
            (b + 1) as int,
            w as int,
            e as int,
            (r + 1) as int,
        );
    } else {
        assert(b + 1 == (e + 1) * w) by (nonlinear_arith)
            requires
                b == w * e + r,
                r + 1 == w,
        ;
        vstd::arithmetic::div_mod::lemma_fundamental_div_mod_converse(
            (b + 1) as int,
            w as int,
            (e + 1) as int,
            0,
        );
        if e >= 1 {
            assert(scale(b + 1, p) == s + 1);
            assert((s + 1) * w == s * w + w) by (nonlinear_arith);
            lemma_pow2_unfold(s + 1);
            assert(e * w == s * w + w) by (nonlinear_arith)
                requires
                    e == s + 1,
            ;
            assert(w * e == e * w) by (nonlinear_arith);
            assert(m + 1 == 2 * w);
            assert(significand(b + 1, p) == w);
            assert(w * (2 * pow2(s)) == (2 * w) * pow2(s)) by (nonlinear_arith);
        }
    }
}

/// Between two neighbouring magnitudes the nearer one is nearest, and half way the even one.
pub proof fn lemma_nearest_between(n: nat, d: nat, p: nat, top: nat, b: nat)
    requires
        d > 0,
        p > 0,
        b < top,
        units(b, p) * d <= n < units(b + 1, p) * d,
    ensures
        ({
            let middle = (units(b, p) + units(b + 1, p)) * d;
            nearest(n, d, p, top) == if 2 * n < middle || (2 * n == middle && b % 2 == 0) {
                b
            } else {
                b + 1
            }
        }),
{
    let s = scale(b, p);
    let m = significand(b, p);
    let w = pow2(s);
    lemma_units_step(b, p);
    lemma_significand(b, p);
    lemma_pow2_pos(s);
    lemma_pow2_adds(p + 1, s);
    lemma_pow2_adds(p, s);
    let e = d * w;
    assert(e > 0) by (nonlinear_arith)
        requires
            e == d * w,
            d > 0,
            w > 0,
    ;
    assert((m * w) * d == m * e) by (nonlinear_arith)
        requires
            e == d * w,
    ;
    assert((m * w + w) * d == m * e + e) by (nonlinear_arith)
        requires
            e == d * w,
    ;
    assert((m * w + (m * w + w)) * d == 2 * (m * e) + e) by (nonlinear_arith)
        requires
            e == d * w,
    ;
    assert(m * e + e <= d * pow2(p + 1 + s)) by (nonlinear_arith)
        requires
            e == d * w,
            m + 1 <= pow2(p + 1),
            pow2(p + 1 + s) == pow2(p + 1) * w,
    ;
    if s > 0 {
        assert(d * pow2(p + s) <= m * e) by (nonlinear_arith)
            requires
                e == d * w,
                pow2(p) <= m,
                pow2(p + s) == pow2(p) * w,
        ;
    }
    lemma_excess(n, d, p, s);
    vstd::arithmetic::div_mod::lemma_fundamental_div_mod_converse(
        n as int,
        e as int,
        m as int,
        n - m * e,
    );
    lemma_pow2_unfold(p);
    let half = pow2((p - 1) as nat);
    assert(s * pow2(p) == 2 * (s * half)) by (nonlinear_arith)
        requires
            pow2(p) == 2 * half,
    ;
    assert(b % 2 == m % 2);
}

/// What reaches the value that the pattern of infinity would have rounds to infinity.
pub proof fn lemma_nearest_top(n: nat, d: nat, p: nat, top: nat)
    requires
        d > 0,
        top / pow2(p) >= 2,
        top % pow2(p) == 0,
        units(top, p) * d <= n,
    ensures
        nearest(n, d, p, top) == top,
{
    let w = pow2(p);
    let t = scale(top, p);
    let s = excess(n, d, p);
    lemma_pow2_pos(p);
    lemma_excess_meets(n, d, p);
    vstd::arithmetic::div_mod::lemma_fundamental_div_mod(top as int, w as int);
    assert(top == t * w + w) by (nonlinear_arith)
        requires
            top == w * (top / w),
            top / w == t + 1,
    ;
    lemma_pow2_adds(p, t);
    assert(units(top, p) * d == d * pow2(p + t)) by (nonlinear_arith)
        requires
            units(top, p) == pow2(p + t),
    ;
    if s < t {
        lemma_pow2_le(p + 1 + s, p + t);
        lemma_mul_inequality(pow2(p + 1 + s) as int, pow2(p + t) as int, d as int);
        lemma_mul_is_commutative(pow2(p + 1 + s) as int, d as int);
        lemma_mul_is_commutative(pow2(p + t) as int, d as int);
    }
    lemma_pow2_pos(s);
    lemma_pow2_adds(p, s);
    let e = d * pow2(s);
    assert(e > 0) by (nonlinear_arith)
        requires
            e == d * pow2(s),
            d > 0,
            pow2(s) > 0,
    ;
    assert(w * e == d * pow2(p + s)) by (nonlinear_arith)
        requires
            e == d * pow2(s),
            pow2(p + s) == w * pow2(s),
    ;
    vstd::arithmetic::div_mod::lemma_div_is_ordered((w * e) as int, n as int, e as int);
    vstd::arithmetic::div_mod::lemma_div_by_multiple(w as int, e as int);
    assert(s * w >= t * w) by (nonlinear_arith)
        requires
            s >= t,
    ;
}

/// A ratio below some magnitude lies between two neighbouring ones.
proof fn lemma_bracket(n: nat, d: nat, p: nat, low: nat, high: nat) -> (b: nat)
    requires
        units(low, p) * d <= n < units(high, p) * d,
        low < high,
    ensures
        low <= b < high,
        units(b, p) * d <= n < units(b + 1, p) * d,
    decreases high - low,
{
    let previous = (high - 1) as nat;
    if units(previous, p) * d <= n {
        previous
    } else {
        lemma_bracket(n, d, p, low, previous)
    }
}

proof fn lemma_units_zero(p: nat)
    ensures
        units(0, p) == 0,
{
    lemma_pow2_pos(p);
    lemma_significand(0, p);
    assert(0nat / pow2(p) == 0) by (nonlinear_arith)
        requires
            pow2(p) > 0,
    ;
    assert(0 * pow2(p) == 0) by (nonlinear_arith);
    assert(significand(0, p) == 0);
    assert(0 * pow2(0) == 0) by (nonlinear_arith);
}

/// Rounding keeps the order.
pub proof fn lemma_nearest_monotone(n: nat, d: nat, m: nat, e: nat, p: nat, top: nat)
    requires
        d > 0,
        e > 0,
        p > 0,
        top / pow2(p) >= 2,
        top % pow2(p) == 0,
        n * e <= m * d,
    ensures
        nearest(n, d, p, top) <= nearest(m, e, p, top),
{
    let u = units(top, p);
    if u * e <= m {
        lemma_nearest_top(m, e, p, top);
    } else {
        assert(n < u * d) by (nonlinear_arith)
            requires
                n * e <= m * d,
                m < u * e,
                d > 0,
                e > 0,
        ;
        lemma_units_zero(p);
        assert(0 * d == 0 && 0 * e == 0) by (nonlinear_arith);
        let b = lemma_bracket(n, d, p, 0, top);
        let c = lemma_bracket(m, e, p, 0, top);
        lemma_nearest_between(n, d, p, top, b);
        lemma_nearest_between(m, e, p, top, c);
        let ub = units(b, p);
        let uc = units(c + 1, p);
        if b > c {
            if b > c + 1 {
                lemma_units_increase(c + 1, b, p);
            }
            assert(false) by (nonlinear_arith)
                requires
                    uc <= ub,
                    ub * d <= n,
                    m < uc * e,
                    n * e <= m * d,
                    d > 0,
                    e > 0,
            ;
        }
        if b == c && 2 * n >= (ub + uc) * d {
            let w = ub + uc;
            assert(2 * m >= w * e && (2 * m == w * e ==> 2 * n <= w * d)) by (nonlinear_arith)
                requires
                    2 * n >= w * d,
                    n * e <= m * d,
                    d > 0,
                    e > 0,
            ;
        }
    }
}

/// No magnitude is nearer to a ratio than the one that it is rounded to.
pub proof fn lemma_nearest_is_nearest(n: nat, d: nat, p: nat, top: nat, c: nat)
    requires
        d > 0,
        p > 0,
        top > 0,
        n < units(top, p) * d,
    ensures
        ({
            let near = units(nearest(n, d, p, top), p) * d;
            let other = units(c, p) * d;
            (if near <= n {
                n - near
            } else {
                near - n
            }) <= (if other <= n {
                n - other
            } else {
                other - n
            })
        }),
{
    lemma_units_zero(p);
    assert(0 * d == 0) by (nonlinear_arith);
    let b = lemma_bracket(n, d, p, 0, top);
    lemma_nearest_between(n, d, p, top, b);
    let ub = units(b, p);
    let un = units(b + 1, p);
    let uc = units(c, p);
    assert((ub + un) * d == ub * d + un * d) by (nonlinear_arith);
    if c < b {
        lemma_units_increase(c, b, p);
        lemma_scaled_order(uc, ub, d);
    } else if c > b + 1 {
        lemma_units_increase(b + 1, c, p);
        lemma_scaled_order(un, uc, d);
    }
}

/// `2^k`.
pub fn power_of_two(k: u32) -> (m: u128)
    requires
        k < 128,
    ensures
        m == pow2(k as nat),
{
    let mut m: u128 = 1;
    let mut i: u32 = 0;
    proof {
        lemma2_to64();
    }
    while i < k
        invariant
            i <= k < 128,
            m == pow2(i as nat),
        decreases k - i,
    {
        proof {
            lemma_pow2_unfold((i + 1) as nat);
            lemma_pow2_le((i + 1) as nat, 127);
            lemma_pow2_127();
        }
        m = m * 2;
        i += 1;
    }
    m
}

proof fn lemma_pow2_127()
    ensures
        pow2(127) == 0x8000_0000_0000_0000_0000_0000_0000_0000,
{
    lemma2_to64();
    lemma2_to64_rest();
    lemma_pow2_adds(64, 63);
}

/// How many binary digits `m` has.
pub fn bit_length(m: u128) -> (len: u32)
    ensures
        len <= 128,
        m < pow2(len as nat),
        m == 0 <==> len == 0,
        len > 0 ==> pow2((len - 1) as nat) <= m,
{
    let mut len: u32 = 0;
    let mut rest: u128 = m;
    proof {
        lemma2_to64();
    }
    while rest > 0
        invariant
            rest * pow2(len as nat) <= m < (rest + 1) * pow2(len as nat),
            len > 0 ==> pow2((len - 1) as nat) <= m,
            len == 0 ==> rest == m,
            len <= 128,
        decreases rest,
    {
        proof {
            lemma_pow2_unfold((len + 1) as nat);
            let w = pow2(len as nat);
            assert(w <= rest * w) by (nonlinear_arith)
                requires
                    rest >= 1,
            ;
            assert((rest / 2) * (2 * w) <= rest * w) by (nonlinear_arith)
                requires
                    2 * (rest / 2) <= rest,
            ;
            assert((rest + 1) * w <= (rest / 2 + 1) * (2 * w)) by (nonlinear_arith)
                requires
                    rest + 1 <= 2 * (rest / 2) + 2,
            ;
            if len == 128 {
                lemma_pow2_unfold(128);
                lemma_pow2_127();
            }
        }
        rest = rest / 2;
        len += 1;
    }
    proof {
        assert((rest + 1) * pow2(len as nat) == pow2(len as nat)) by (nonlinear_arith)
            requires
                rest == 0,
        ;
        if len > 0 {
            lemma_pow2_pos((len - 1) as nat);
        }
    }
    len
}

/// `n / d` rounded to the nearest whole number, ties going to the even one.
pub fn round_half_even(n: u128, d: u128) -> (r: u128)
    requires
        d > 0,
        n < u128::MAX,
    ensures
        r == half_even(n as nat, d as nat),
{
    let q: u128 = n / d;
    let r: u128 = n % d;
    proof {
        vstd::arithmetic::div_mod::lemma_div_nonincreasing(n as int, d as int);
    }
    if r < d - r || (r == d - r && q % 2 == 0) {
        q
    } else {
        q + 1
    }
}

proof fn lemma_shifted_bound(m: nat, len: nat, k: nat)
    requires
        m < pow2(len),
    ensures
        m * pow2(k) < pow2(len + k),
{
    lemma_pow2_adds(len, k);
    lemma_pow2_pos(k);
    assert(m * pow2(k) < pow2(len) * pow2(k)) by (nonlinear_arith)
        requires
            m < pow2(len),
            pow2(k) > 0,
    ;
}

proof fn lemma_shifted_lower_bound(m: nat, len: nat, k: nat)
    requires
        pow2(len) <= m,
    ensures
        pow2(len + k) <= m * pow2(k),
{
    lemma_pow2_adds(len, k);
    assert(pow2(len) * pow2(k) <= m * pow2(k)) by (nonlinear_arith)
        requires
            pow2(len) <= m,
    ;
}

/// The lengths of `a` and `b` place their ratio between two powers of two.
proof fn lemma_ratio_by_length(a: nat, la: int, b: nat, lb: int)
    requires
        la >= 1,
        lb >= 1,
        pow2((la - 1) as nat) <= a < pow2(la as nat),
        pow2((lb - 1) as nat) <= b < pow2(lb as nat),
    ensures
        ratio_at_least(a, b, la - lb - 1),
        !ratio_at_least(a, b, la - lb + 1),
{
    let low = la - lb - 1;
    if low >= 0 {
        lemma_shifted_bound(b, lb as nat, low as nat);
    } else {
        lemma_shifted_lower_bound(a, (la - 1) as nat, (-low) as nat);
    }
    let high = la - lb + 1;
    if high >= 0 {
        lemma_shifted_lower_bound(b, (lb - 1) as nat, high as nat);
    } else {
        lemma_shifted_bound(a, la as nat, (-high) as nat);
    }
}

proof fn lemma_rounding_numerator(a: nat, b: nat, p: nat, j: nat)
    requires
        !ratio_at_least(a, b, p + 1 - j),
    ensures
        a * pow2(j) < b * pow2(p + 1),
{
    lemma2_to64();
    lemma_compare(a, j, b, 0, p + 1);
}

proof fn lemma_rounding_vanishes(a: nat, b: nat, e: int, k: nat)
    requires
        !ratio_at_least(a, b, e),
        k > e,
    ensures
        half_even(a, b * pow2(k)) == 0,
{
    if ratio_at_least(a, b, k - 1) {
        lemma_ratio_monotone(a, b, k - 1, e);
    }
    lemma2_to64();
    if k > 0 {
        lemma_pow2_unfold(k);
        assert(b * (2 * pow2((k - 1) as nat)) == 2 * (b * pow2((k - 1) as nat)))
            by (nonlinear_arith);
    } else {
        assert(b * pow2(0) == b) by (nonlinear_arith)
            requires
                pow2(0) == 1,
        ;
        assert(a * pow2(1) == 2 * a) by (nonlinear_arith)
            requires
                pow2(1) == 2,
        ;
    }
    lemma_half_even_small(a, b * pow2(k));
}

proof fn lemma_rounding_denominator(a: nat, b: nat, e: int, k: nat)
    requires
        ratio_at_least(a, b, e - 1),
        k <= e,
    ensures
        b * pow2(k) <= 2 * a,
{
    lemma_ratio_monotone(a, b, e - 1, k - 1);
    lemma2_to64();
    if k > 0 {
        lemma_pow2_unfold(k);
        assert(b * (2 * pow2((k - 1) as nat)) == 2 * (b * pow2((k - 1) as nat)))
            by (nonlinear_arith);
    } else {
        assert(b * pow2(0) == b) by (nonlinear_arith)
            requires
                pow2(0) == 1,
        ;
        assert(a * pow2(1) == 2 * a) by (nonlinear_arith)
            requires
                pow2(1) == 2,
        ;
    }
}

/// Powers of two common to both sides of a ratio cancel before rounding.
proof fn lemma_rounding_shift(a: nat, up: nat, b: nat, down: nat, s: nat)
    requires
        b > 0,
    ensures
        ({
            let k = s + down - up;
            half_even(a * pow2(up), (b * pow2(down)) * pow2(s)) == if k >= 0 {
                half_even(a, b * pow2(k as nat))
            } else {
                half_even(a * pow2((-k) as nat), b)
            }
        }),
{
    let k = s + down - up;
    lemma_pow2_adds(down, s);
    assert((b * pow2(down)) * pow2(s) == b * (pow2(down) * pow2(s))) by (nonlinear_arith);
    if k >= 0 {
        lemma_pow2_adds(k as nat, up);
        lemma_pow2_pos(up);
        lemma_pow2_pos(k as nat);
        assert(b * (pow2(k as nat) * pow2(up)) == (b * pow2(k as nat)) * pow2(up))
            by (nonlinear_arith);
        assert(b * pow2(k as nat) > 0) by (nonlinear_arith)
            requires
                b > 0,
                pow2(k as nat) > 0,
        ;
        lemma_half_even_scaled(a, b * pow2(k as nat), pow2(up));
    } else {
        lemma_pow2_adds((-k) as nat, down + s);
        lemma_pow2_pos(down + s);
        assert(a * (pow2((-k) as nat) * pow2(down + s)) == (a * pow2((-k) as nat)) * pow2(down + s))
            by (nonlinear_arith);
        lemma_half_even_scaled(a * pow2((-k) as nat), b, pow2(down + s));
    }
}

/// The magnitude nearest to `(a * 2^up) / (b * 2^down)` units.
pub fn nearest_ratio(a: u128, up: u32, b: u128, down: u32, p: u32, top: u64) -> (r: u64)
    requires
        a < pow2(110),
        0 < b < pow2(64),
        up <= 4096,
        down <= 4096,
        p <= 52,
        top < pow2(63),
    ensures
        r == nearest(a as nat * pow2(up as nat), b as nat * pow2(down as nat), p as nat, top as nat),
{
    let ghost n = a as nat * pow2(up as nat);
    let ghost d = b as nat * pow2(down as nat);
    proof {
        lemma_pow2_pos(down as nat);
        assert(d > 0) by (nonlinear_arith)
            requires
                d == b as nat * pow2(down as nat),
                b > 0,
                pow2(down as nat) > 0,
        ;
    }
    if a == 0 {
        proof {
            lemma_pow2_pos(p as nat + 1);
            assert(n == 0) by (nonlinear_arith)
                requires
                    n == a as nat * pow2(up as nat),
                    a == 0,
            ;
            assert(0 < d * pow2(p as nat + 1)) by (nonlinear_arith)
                requires
                    d > 0,
                    pow2(p as nat + 1) > 0,
            ;
            assert(excess(n, d, p as nat) == 0);
            lemma2_to64();
            assert(d * pow2(0) == d) by (nonlinear_arith)
                requires
                    pow2(0) == 1,
            ;
            lemma_half_even_small(n, d);
            assert(0nat * pow2(p as nat) == 0) by (nonlinear_arith);
        }
        return 0;
    }
    let t: i64 = up as i64 - down as i64;
    let la: i64 = bit_length(a) as i64;
    let lb: i64 = bit_length(b) as i64;
    proof {
        if la > 110 {
            lemma_pow2_le(110, (la - 1) as nat);
        }
        if lb > 64 {
            lemma_pow2_le(64, (lb - 1) as nat);
        }
    }
    // Find the exponent `e` with `2^(e - 1) <= a / b < 2^e`.
    let over: bool = if la >= lb {
        proof {
            lemma_shifted_bound(b as nat, lb as nat, (la - lb) as nat);
            lemma_pow2_le(la as nat, 110);
            lemma_pow2_le(110, 127);
            lemma_pow2_127();
        }
        b * power_of_two((la - lb) as u32) <= a
    } else {
        proof {
            lemma_shifted_bound(a as nat, la as nat, (lb - la) as nat);
            lemma_pow2_le(lb as nat, 127);
            lemma_pow2_127();
        }
        b <= a * power_of_two((lb - la) as u32)
    };
    let e: i64 = if over {
        la - lb + 1
    } else {
        la - lb
    };
    proof {
        lemma_ratio_by_length(a as nat, la as int, b as nat, lb as int);
    }
    assert(ratio_at_least(a as nat, b as nat, e - 1));
    assert(!ratio_at_least(a as nat, b as nat, e as int));
    let s: i64 = if e + t > p as i64 + 1 {
        e + t - (p as i64 + 1)
    } else {
        0
    };
    proof {
        lemma_compare(a as nat, up as nat, b as nat, down as nat, (p + 1 + s) as nat);
        if ratio_at_least(a as nat, b as nat, p + 1 + s - t) {
            lemma_ratio_monotone(a as nat, b as nat, p + 1 + s - t, e as int);
        }
        if s > 0 {
            lemma_compare(a as nat, up as nat, b as nat, down as nat, (p + s) as nat);
        }
        lemma_excess(n, d, p as nat, s as nat);
    }
    let k: i64 = s - t;
    let whole: u128 = if k < 0 {
        proof {
            lemma_rounding_numerator(a as nat, b as nat, p as nat, (-k) as nat);
            lemma_pow2_adds(64, 53);
            lemma_pow2_le(p as nat + 1, 53);
            lemma_pow2_le(117, 127);
            lemma_pow2_127();
            assert(b * pow2(p as nat + 1) <= pow2(64) * pow2(53)) by (nonlinear_arith)
                requires
                    b <= pow2(64),
                    pow2(p as nat + 1) <= pow2(53),
            ;
            if -k >= 128 {
                lemma_pow2_le(127, (-k) as nat);
            }
            assert(pow2((-k) as nat) <= a * pow2((-k) as nat)) by (nonlinear_arith)
                requires
                    a >= 1,
            ;
            lemma_rounding_shift(a as nat, up as nat, b as nat, down as nat, s as nat);
        }
        round_half_even(a * power_of_two((-k) as u32), b)
    } else if k > e {
        proof {
            lemma_rounding_vanishes(a as nat, b as nat, e as int, k as nat);
            lemma_rounding_shift(a as nat, up as nat, b as nat, down as nat, s as nat);
        }
        0
    } else {
        proof {
            lemma_rounding_denominator(a as nat, b as nat, e as int, k as nat);
            lemma_pow2_unfold(111);
            lemma_pow2_le(111, 127);
            lemma_pow2_127();
            if k >= 128 {
                lemma_pow2_le(127, k as nat);
            }
            lemma_pow2_pos(k as nat);
            assert(pow2(k as nat) <= b * pow2(k as nat)) by (nonlinear_arith)
                requires
                    b >= 1,
            ;
            assert(b * pow2(k as nat) > 0) by (nonlinear_arith)
                requires
                    b >= 1,
                    pow2(k as nat) > 0,
            ;
            lemma_rounding_shift(a as nat, up as nat, b as nat, down as nat, s as nat);
        }
        round_half_even(a, b * power_of_two(k as u32))
    };
    proof {
        lemma_pow2_le(p as nat, 52);
        lemma2_to64();
        lemma2_to64_rest();
        assert(s * pow2(p as nat) <= 8192 * pow2(52)) by (nonlinear_arith)
            requires
                0 <= s <= 8192,
                pow2(p as nat) <= pow2(52),
        ;
    }
    let rounded: u128 = s as u128 * power_of_two(p) + whole;
    if rounded < top as u128 {
        rounded as u64
    } else {
        top
    }
}

/// How far a ratio is from the magnitude that it is rounded to, where that is finite: half a unit
/// in the last place, and so no more than the ratio over `2^(p + 1)`, or half a unit.
pub proof fn lemma_nearest_error(n: nat, d: nat, p: nat, top: nat)
    requires
        d > 0,
        p > 0,
        top / pow2(p) >= 2,
        top % pow2(p) == 0,
        nearest(n, d, p, top) < top,
    ensures
        ({
            let near = units(nearest(n, d, p, top), p) * d;
            let error = if near <= n {
                n - near
            } else {
                near - n
            };
            error * pow2(p + 1) <= n || 2 * error <= d
        }),
{
    if units(top, p) * d <= n {
        lemma_nearest_top(n, d, p, top);
    }
    lemma_units_zero(p);
    assert(0 * d == 0) by (nonlinear_arith);
    let c = lemma_bracket(n, d, p, 0, top);
    lemma_nearest_between(n, d, p, top, c);
    lemma_units_step(c, p);
    lemma_significand(c, p);
    let uc = units(c, p);
    let s = scale(c, p);
    let g = pow2(s) * d;
    let un = units(c + 1, p);
    assert(un * d == uc * d + g) by (nonlinear_arith)
        requires
            un == uc + pow2(s),
            g == pow2(s) * d,
    ;
    assert((uc + un) * d == uc * d + un * d) by (nonlinear_arith);
    let near = units(nearest(n, d, p, top), p) * d;
    let error = if near <= n {
        n - near
    } else {
        near - n
    };
    assert(2 * error <= g);
    if s == 0 {
        lemma2_to64();
        assert(g == d) by (nonlinear_arith)
            requires
                g == pow2(s) * d,
                pow2(s) == 1,
        ;
    } else {
        let m = significand(c, p);
        lemma_pow2_unfold(p + 1);
        assert(uc * d >= pow2(p) * g) by (nonlinear_arith)
            requires
                uc == m * pow2(s),
                m >= pow2(p),
                g == pow2(s) * d,
        ;
        assert(error * pow2(p + 1) <= pow2(p) * g) by (nonlinear_arith)
            requires
                2 * error <= g,
                pow2(p + 1) == 2 * pow2(p),
        ;
    }
}

/// A ratio that is no more than a magnitude is not rounded above it.
pub proof fn lemma_nearest_at_most(n: nat, d: nat, p: nat, top: nat, b: nat)
    requires
        d > 0,
        p > 0,
        top / pow2(p) >= 2,
        top % pow2(p) == 0,
        b < top,
        n <= units(b, p) * d,
    ensures
        nearest(n, d, p, top) <= b,
{
    let u = units(b, p);
    lemma_units_step(b, p);
    lemma_pow2_pos(scale(b, p));
    assert(u * d < units(b + 1, p) * d) by (nonlinear_arith)
        requires
            units(b + 1, p) > u,
            d > 0,
    ;
    lemma_nearest_between(u * d, d, p, top, b);
    assert((u + units(b + 1, p)) * d == u * d + units(b + 1, p) * d) by (nonlinear_arith);
    assert(n * d <= (u * d) * d) by (nonlinear_arith)
        requires
            n <= u * d,
    ;
    lemma_nearest_monotone(n, d, u * d, d, p, top);
}

/// A whole number of no more than `p + 1` binary digits, times a power of two, is a magnitude.
pub proof fn lemma_held(m: nat, j: nat, p: nat, top: nat) -> (b: nat)
    requires
        m <= pow2(p + 1),
        m * pow2(j) < units(top, p),
        top > 0,
    ensures
        b < top,
        units(b, p) == m * pow2(j),
{
    let v = m * pow2(j);
    lemma_units_zero(p);
    assert(v * 1 == v && units(top, p) * 1 == units(top, p) && 0 * 1 == 0);
    let b = lemma_bracket(v, 1, p, 0, top);
    let s = scale(b, p);
    let g = significand(b, p);
    let w = pow2(s);
    lemma_units_step(b, p);
    lemma_significand(b, p);
    lemma_pow2_pos(s);
    assert(units(b, p) * 1 == units(b, p) && units(b + 1, p) * 1 == units(b + 1, p));
    if s == 0 {
        lemma2_to64();
    } else if j >= s {
        let h = pow2((j - s) as nat);
        lemma_pow2_adds(s, (j - s) as nat);
        assert(v == (m * h) * w) by (nonlinear_arith)
            requires
                v == m * pow2(j),
                pow2(j) == w * h,
        ;
        assert(m * h == g) by (nonlinear_arith)
            requires
                g * w <= (m * h) * w < g * w + w,
                w > 0,
        ;
    } else {
        lemma_pow2_adds(p + 1, j);
        lemma_pow2_le(p + 1 + j, p + s);
        lemma_pow2_adds(p, s);
        assert(v <= pow2(p + 1) * pow2(j)) by (nonlinear_arith)
            requires
                v == m * pow2(j),
                m <= pow2(p + 1),
        ;
        assert(pow2(p) * w <= g * w) by (nonlinear_arith)
            requires
                pow2(p) <= g,
        ;
    }
    b
}

/// A ratio is rounded to a whole number that is away from it by no more than a half, and to the
/// even one where two are.
pub proof fn lemma_half_even(n: nat, d: nat)
    requires
        d > 0,
    ensures
        -(d as int) <= 2 * (half_even(n, d) * d - n) <= d,
        2 * (half_even(n, d) * d - n) == d || 2 * (half_even(n, d) * d - n) == -(d as int)
            ==> half_even(n, d) % 2 == 0,
{
    let q = n / d;
    vstd::arithmetic::div_mod::lemma_fundamental_div_mod(n as int, d as int);
    assert(q * d == d * q) by (nonlinear_arith);
    assert((q + 1) * d == q * d + d) by (nonlinear_arith);
}

} // verus!
