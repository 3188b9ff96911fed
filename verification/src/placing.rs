//! Where an axis ends and where numbers stand on it, up to what rounding takes away.

use crate::arithmetic;
use crate::chart;
use crate::chart::Bounds;
use crate::float;
use crate::float::Float64;
use crate::order;
use crate::rounding;
use vstd::arithmetic::power2::*;
use vstd::prelude::*;

verus! {

/// Finite numbers are near each other where they differ by half of `2^-52`, and are not where they
/// differ by all of it.
pub proof fn lemma_close(a: Float64, b: Float64)
    requires
        a.finite(),
        b.finite(),
    ensures
        arithmetic::size(b.value() - a.value()) <= pow2(1021) ==> chart::close(a, b),
        arithmetic::size(b.value() - a.value()) >= pow2(1022) ==> !chart::close(a, b),
{
    let d = float::difference(b, a);
    let v = b.value() - a.value();
    let epsilon = Float64 { bits: chart::EPSILON_BITS };
    let half = Float64 { bits: 0x3ca0_0000_0000_0000 };
    lemma_thresholds();
    arithmetic::lemma_difference_key(b, a);
    arithmetic::lemma_negated(epsilon);
    arithmetic::lemma_negated(half);
    arithmetic::lemma_nearest_key_exact(epsilon);
    arithmetic::lemma_nearest_key_exact(half);
    arithmetic::lemma_nearest_key_exact(float::negated(epsilon));
    arithmetic::lemma_nearest_key_exact(float::negated(half));
    if arithmetic::size(v) <= pow2(1021) {
        arithmetic::lemma_nearest_key_monotone(v, half.value());
        arithmetic::lemma_nearest_key_monotone(float::negated(half).value(), v);
    }
    if v >= pow2(1022) {
        arithmetic::lemma_nearest_key_monotone(epsilon.value(), v);
    }
    if -v >= pow2(1022) {
        arithmetic::lemma_nearest_key_monotone(v, float::negated(epsilon).value());
    }
    assert(float::absolute(d).key() == d.magnitude());
}

proof fn lemma_thresholds()
    ensures
        (Float64 { bits: chart::EPSILON_BITS }).value() == pow2(1022),
        (Float64 { bits: 0x3ca0_0000_0000_0000 }).value() == pow2(1021),
{
    lemma2_to64();
    lemma2_to64_rest();
    assert(0x3cb0_0000_0000_0000nat / 0x10_0000_0000_0000nat == 0x3cb);
    assert(0x3ca0_0000_0000_0000nat / 0x10_0000_0000_0000nat == 0x3ca);
    lemma_pow2_adds(52, 970);
    lemma_pow2_adds(52, 969);
}

/// Ten times the tenth is one and its part in `2^54`.
proof fn lemma_tenth()
    ensures
        ({
            let tenth = (Float64 { bits: chart::TENTH_BITS }).value();
            let one = float::one_in_units();
            10 * tenth == one + 4 * pow2(1018) && one == pow2(56) * pow2(1018)
        }),
{
    lemma2_to64();
    lemma2_to64_rest();
    assert(0x3fb9_9999_9999_999anat / 0x10_0000_0000_0000nat == 0x3fb);
    assert(0x3fb9_9999_9999_999anat % 0x10_0000_0000_0000nat == 0x9_9999_9999_999a);
    lemma_pow2_adds(56, 1018);
    let k = pow2(1018) as int;
    assert((Float64 { bits: chart::TENTH_BITS }).value() == 0x19_9999_9999_999a * k);
    assert(10 * (0x19_9999_9999_999a * k) == 0x100_0000_0000_0000 * k + 4 * k) by (nonlinear_arith);
}

/// A tenth of a number is a tenth of it, up to rounding.
pub proof fn lemma_tenth_of(x: Float64)
    requires
        x.finite(),
        x.units() <= pow2(2001),
    ensures
        ({
            let p = float::product(x, Float64 { bits: chart::TENTH_BITS });
            &&& p.finite()
            &&& p.units() <= pow2(2001)
            &&& arithmetic::size(10 * p.value() - x.value()) * pow2(53) <= 2 * arithmetic::size(
                x.value(),
            ) + pow2(56)
        }),
{
    let tenth = Float64 { bits: chart::TENTH_BITS };
    let p = float::product(x, tenth);
    let one = float::one_in_units() as int;
    let t = tenth.value();
    let k = pow2(1018) as int;
    let u = x.value();
    lemma2_to64();
    lemma2_to64_rest();
    lemma_pow2_pos(1018);
    lemma_tenth();
    arithmetic::lemma_one();
    assert(tenth.units() == t);
    assert(0 < t <= one);
    let n = x.units() * tenth.units();
    assert(n <= pow2(2001) * one) by (nonlinear_arith)
        requires
            n == x.units() * tenth.units(),
            x.units() <= pow2(2001),
            tenth.units() <= one,
    ;
    arithmetic::lemma_ratio_at_most(n, one as nat, 2001);
    arithmetic::lemma_signed(x.negative() != tenth.negative(), arithmetic::ratio_key(n, one as nat));
    arithmetic::lemma_product_error(x, tenth);
    let err = p.value() * one - u * t;
    let e = arithmetic::size(err);
    let su = arithmetic::size(u);
    assert(arithmetic::size(u * t) == su * t) by {
        assert((-u) * t == -(u * t)) by (nonlinear_arith);
        assert(u >= 0 ==> u * t >= 0) by (nonlinear_arith)
            requires
                t > 0,
        ;
        assert(u < 0 ==> u * t <= 0) by (nonlinear_arith)
            requires
                t > 0,
        ;
    }
    assert(e * pow2(53) <= su * t + pow2(52) * one);
    let d = 10 * p.value() - u;
    assert(d * one == 10 * err + 4 * (u * k)) by (nonlinear_arith)
        requires
            d == 10 * p.value() - u,
            err == p.value() * one - u * t,
            10 * t == one + 4 * k,
    ;
    assert(arithmetic::size(u * k) == su * k) by {
        assert((-u) * k == -(u * k)) by (nonlinear_arith);
        assert(u >= 0 ==> u * k >= 0) by (nonlinear_arith)
            requires
                k > 0,
        ;
        assert(u < 0 ==> u * k <= 0) by (nonlinear_arith)
            requires
                k > 0,
        ;
    }
    assert(arithmetic::size(d * one) <= 10 * e + 4 * (su * k));
    let c: int = 0x20_0000_0000_0000;
    assert((10 * e + 4 * (su * k)) * c <= (2 * su + 0x100_0000_0000_0000) * one)
        by (nonlinear_arith)
        requires
            e * c <= su * t + 0x10_0000_0000_0000 * one,
            10 * t == one + 4 * k,
            one == 0x100_0000_0000_0000 * k,
            c == 0x20_0000_0000_0000,
            su >= 0,
            k > 0,
    ;
    let w = arithmetic::size(d * one);
    assert(w * c <= (10 * e + 4 * (su * k)) * c) by (nonlinear_arith)
        requires
            w <= 10 * e + 4 * (su * k),
            c > 0,
    ;
    arithmetic::lemma_bound_scaled(d, c, 2 * su + 0x100_0000_0000_0000, one);
}

/// An axis for numbers between two that can be told apart leaves a tenth of their distance free on
/// either side, up to rounding.
#[verifier::spinoff_prover]
pub proof fn lemma_free_tenth(min: Float64, max: Float64)
    requires
        arithmetic::moderate(min),
        arithmetic::moderate(max),
        !chart::close(min, max),
    ensures
        ({
            let low = chart::normalized(min, max).low;
            let high = chart::normalized(min, max).high;
            let ends = arithmetic::size(min.value()) + arithmetic::size(max.value());
            &&& low.finite()
            &&& high.finite()
            &&& arithmetic::size(10 * low.value() - (11 * min.value() - max.value())) * pow2(53)
                <= 64 * ends + pow2(60)
            &&& arithmetic::size(10 * high.value() - (11 * max.value() - min.value())) * pow2(53)
                <= 64 * ends + pow2(60)
        }),
{
    let span = float::difference(max, min);
    let pad = chart::padding(min, max);
    lemma_span(min, max);
    lemma_tenth_of(span);
    rounding::lemma_pow2_le(2001, 2003);
    lemma_ends(min, pad);
    lemma_ends(max, pad);
    let low = chart::normalized(min, max).low;
    let high = chart::normalized(min, max).high;
    assert(low == float::difference(min, pad));
    assert(high == float::sum(max, pad));
    lemma_padded_value(
        min.value(),
        -(max.value() - min.value()),
        -span.value(),
        -pad.value(),
        chart::normalized(min, max).low.value(),
        arithmetic::size(min.value()) + arithmetic::size(max.value()),
    );
    lemma_padded_value(
        max.value(),
        max.value() - min.value(),
        span.value(),
        pad.value(),
        chart::normalized(min, max).high.value(),
        arithmetic::size(min.value()) + arithmetic::size(max.value()),
    );
}

proof fn lemma_padded_value(at: int, exact: int, span: int, pad: int, end: int, ends: int)
    requires
        arithmetic::size(at) <= ends,
        arithmetic::size(exact) <= ends,
        arithmetic::size(span - exact) * pow2(53) <= arithmetic::size(exact),
        arithmetic::size(10 * pad - span) * pow2(53) <= 2 * arithmetic::size(span) + pow2(56),
        arithmetic::size(end - (at + pad)) * pow2(53) <= arithmetic::size(at + pad),
    ensures
        arithmetic::size(10 * end - (10 * at + exact)) * pow2(53) <= 64 * ends + pow2(60),
{
    lemma2_to64();
    lemma2_to64_rest();
    let k: int = 0x20_0000_0000_0000;
    let a = arithmetic::size(span - exact);
    let b = arithmetic::size(10 * pad - span);
    let c = arithmetic::size(end - (at + pad));
    let s = arithmetic::size(span);
    assert(a <= ends);
    assert(s <= 2 * ends);
    assert(b * k <= 4 * ends + 8 * k);
    assert(b <= ends + 8);
    assert(10 * arithmetic::size(pad) <= 3 * ends + 8);
    assert(10 * (c * k) <= 13 * ends + 8);
    assert(arithmetic::size(10 * end - (10 * at + exact)) <= 10 * c + b + a);
}

/// An axis for numbers that can hardly be told apart leaves one free on either side of a number
/// below one in size, and a tenth of any other, up to rounding.
#[verifier::spinoff_prover]
pub proof fn lemma_free_around_one(min: Float64, max: Float64)
    requires
        arithmetic::moderate(min),
        arithmetic::moderate(max),
        chart::close(min, max),
    ensures
        ({
            let low = chart::normalized(min, max).low;
            let high = chart::normalized(min, max).high;
            let one = float::one_in_units() as int;
            let ends = arithmetic::size(min.value()) + arithmetic::size(max.value());
            &&& low.finite()
            &&& high.finite()
            &&& arithmetic::size(min.value()) < one ==> arithmetic::size(
                low.value() - (min.value() - one),
            ) * pow2(53) <= ends + one
            &&& arithmetic::size(min.value()) < one ==> arithmetic::size(
                high.value() - (max.value() + one),
            ) * pow2(53) <= ends + one
            &&& arithmetic::size(min.value()) >= one ==> arithmetic::size(
                10 * low.value() - (10 * min.value() - arithmetic::size(min.value())),
            ) * pow2(53) <= 64 * ends + pow2(60)
            &&& arithmetic::size(min.value()) >= one ==> arithmetic::size(
                10 * high.value() - (10 * max.value() + arithmetic::size(min.value())),
            ) * pow2(53) <= 64 * ends + pow2(60)
        }),
{
    let one = Float64 { bits: float::ONE_BITS };
    let size = float::absolute(min);
    let pad = chart::padding(min, max);
    lemma2_to64();
    lemma2_to64_rest();
    rounding::lemma_pow2_le(1074, 2000);
    lemma_pow2_unfold(2001);
    lemma_pow2_unfold(2002);
    arithmetic::lemma_one();
    arithmetic::lemma_order(size, one);
    assert(size.value() == arithmetic::size(min.value()));
    if !float::less(size, one) {
        lemma_tenth_of(size);
    }
    assert(pad.finite() && pad.units() <= pow2(2001));
    arithmetic::lemma_negated(pad);
    arithmetic::lemma_sum_at_most(min, float::negated(pad), 2002);
    arithmetic::lemma_sum_at_most(max, pad, 2002);
    arithmetic::lemma_difference_error(min, pad);
    arithmetic::lemma_sum_error(max, pad);
    if !float::less(size, one) {
        let ends = arithmetic::size(min.value()) + arithmetic::size(max.value());
        assert(0 * pow2(53) == 0) by (nonlinear_arith);
        lemma_padded_value(
            min.value(),
            -size.value(),
            -size.value(),
            -pad.value(),
            chart::normalized(min, max).low.value(),
            ends,
        );
        lemma_padded_value(
            max.value(),
            size.value(),
            size.value(),
            pad.value(),
            chart::normalized(min, max).high.value(),
            ends,
        );
    }
}

/// The ends of an axis are those for a number among those on it that none is below and one that
/// none is above.
pub proof fn lemma_bounds_of_values(values: Seq<Float64>, least: int, greatest: int)
    requires
        0 <= least < values.len(),
        0 <= greatest < values.len(),
        forall|i: int|
            0 <= i < values.len() ==> values[least].key() <= (#[trigger] values[i]).key()
                <= values[greatest].key(),
        order::one_zero(values),
    ensures
        chart::value_bounds(values) == chart::normalized(values[least], values[greatest]),
{
    order::lemma_extremes(values);
    let i = choose|i: int| 0 <= i < values.len() && values[i] == order::least(values);
    let j = choose|j: int| 0 <= j < values.len() && values[j] == order::greatest(values);
    assert(values[i].key() == values[least].key());
    assert(values[j].key() == values[greatest].key());
}

/// An axis without numbers is that for zero to one.
pub proof fn lemma_bounds_of_nothing()
    ensures
        ({
            let bounds = chart::value_bounds(Seq::empty());
            let one = float::one_in_units() as int;
            &&& arithmetic::size(10 * bounds.low.value() + one) * pow2(53) <= 64 * one + pow2(60)
            &&& arithmetic::size(10 * bounds.high.value() - 11 * one) * pow2(53) <= 64 * one + pow2(
                60,
            )
        }),
{
    let zero = Float64 { bits: 0 };
    let one = Float64 { bits: float::ONE_BITS };
    arithmetic::lemma_one();
    arithmetic::lemma_zero_value(zero);
    rounding::lemma_pow2_le(1074, 2000);
    rounding::lemma_pow2_le(1022, 1074);
    lemma_close(zero, one);
    lemma_free_tenth(zero, one);
}

proof fn lemma_span(min: Float64, max: Float64)
    requires
        arithmetic::moderate(min),
        arithmetic::moderate(max),
    ensures
        ({
            let span = float::difference(max, min);
            &&& span.finite()
            &&& span.units() <= pow2(2001)
            &&& arithmetic::size(span.value() - (max.value() - min.value())) * pow2(53)
                <= arithmetic::size(max.value() - min.value())
        }),
{
    lemma_pow2_unfold(2001);
    arithmetic::lemma_negated(min);
    arithmetic::lemma_sum_at_most(max, float::negated(min), 2001);
    arithmetic::lemma_difference_error(max, min);
}

proof fn lemma_ends(at: Float64, pad: Float64)
    requires
        arithmetic::moderate(at),
        pad.finite(),
        pad.units() <= pow2(2003),
    ensures
        float::difference(at, pad).finite(),
        float::difference(at, pad).units() <= pow2(2004),
        arithmetic::size(float::difference(at, pad).value() - (at.value() - pad.value())) * pow2(53)
            <= arithmetic::size(at.value() - pad.value()),
        float::sum(at, pad).finite(),
        float::sum(at, pad).units() <= pow2(2004),
        arithmetic::size(float::sum(at, pad).value() - (at.value() + pad.value())) * pow2(53)
            <= arithmetic::size(at.value() + pad.value()),
{
    lemma_pow2_unfold(2001);
    lemma_pow2_unfold(2002);
    lemma_pow2_unfold(2003);
    lemma_pow2_unfold(2004);
    arithmetic::lemma_negated(pad);
    arithmetic::lemma_sum_at_most(at, float::negated(pad), 2004);
    arithmetic::lemma_sum_at_most(at, pad, 2004);
    arithmetic::lemma_difference_error(at, pad);
    arithmetic::lemma_sum_error(at, pad);
}

/// A number on an axis, or beyond its ends by no more than its length, is moved to the same place on
/// another: its distance from the lower end is to the length of the axis there what it was here, up
/// to rounding.
#[verifier::spinoff_prover]
pub proof fn lemma_remap_linear(x: Float64, src: Bounds, dst: Bounds)
    requires
        arithmetic::moderate(src.low),
        arithmetic::moderate(src.high),
        arithmetic::moderate(dst.low),
        arithmetic::moderate(dst.high),
        arithmetic::moderate(x),
        src.low.value() <= src.high.value(),
        arithmetic::size(x.value() - src.low.value()) <= 2 * (src.high.value() - src.low.value()),
        dst.low.value() <= dst.high.value(),
        !chart::close(src.low, src.high),
    ensures
        ({
            let moved = chart::remapped(x, src, dst);
            let here = x.value() - src.low.value();
            let length = src.high.value() - src.low.value();
            let there = moved.value() - dst.low.value();
            let other = dst.high.value() - dst.low.value();
            &&& moved.finite()
            &&& arithmetic::size(there * length - here * other) * pow2(53) <= length * (
            arithmetic::size(dst.low.value()) + 64 * other + pow2(56))
        }),
{
    let n = float::difference(x, src.low);
    let s = float::difference(src.high, src.low);
    let d = float::difference(dst.high, dst.low);
    let r = float::quotient(n, s);
    lemma_span(src.low, x);
    lemma_span(src.low, src.high);
    lemma_span(dst.low, dst.high);
    lemma_share(x, src);
    lemma_nonnegative(dst.low, dst.high);
    lemma_moved(n, s, d, dst.low);
    assert(chart::remapped(x, src, dst) == float::sum(dst.low, float::product(r, d)));
    rounding::lemma_pow2_le(52, 1074);
    lemma_size_order(src.low, src.high);
    lemma_linear(
        n.value(),
        s.value(),
        d.value(),
        r.value(),
        float::product(r, d).value(),
        chart::remapped(x, src, dst).value(),
        dst.low.value(),
        x.value() - src.low.value(),
        src.high.value() - src.low.value(),
        dst.high.value() - dst.low.value(),
        float::one_in_units() as int,
    );
}

proof fn lemma_moved(n: Float64, s: Float64, d: Float64, low: Float64)
    requires
        n.finite(),
        s.finite(),
        !s.zero(),
        d.finite(),
        d.units() <= pow2(2001),
        arithmetic::moderate(low),
        float::quotient(n, s).finite(),
        float::quotient(n, s).units() <= 4 * float::one_in_units(),
    ensures
        ({
            let r = float::quotient(n, s);
            let t = float::product(r, d);
            let moved = float::sum(low, t);
            let one = float::one_in_units() as int;
            &&& moved.finite()
            &&& arithmetic::size(r.value() * s.value() - n.value() * one) * pow2(53)
                <= arithmetic::size(n.value()) * one + pow2(52) * arithmetic::size(s.value())
            &&& arithmetic::size(t.value() * one - r.value() * d.value()) * pow2(53)
                <= arithmetic::size(r.value() * d.value()) + pow2(52) * one
            &&& arithmetic::size(moved.value() - (low.value() + t.value())) * pow2(53)
                <= arithmetic::size(low.value() + t.value())
        }),
{
    let r = float::quotient(n, s);
    let t = float::product(r, d);
    lemma_step_finite(r, d);
    lemma_ends(low, t);
    arithmetic::lemma_quotient_error(n, s);
    arithmetic::lemma_product_error(r, d);
}

/// Ends that can be told apart are not equal.
proof fn lemma_size_order(low: Float64, high: Float64)
    requires
        low.finite(),
        high.finite(),
        low.value() <= high.value(),
        !chart::close(low, high),
    ensures
        low.value() < high.value(),
{
    lemma_pow2_pos(1021);
    lemma_close(low, high);
}

proof fn lemma_nonnegative(low: Float64, high: Float64)
    requires
        arithmetic::moderate(low),
        arithmetic::moderate(high),
        low.value() <= high.value(),
    ensures
        float::difference(high, low).value() >= 0,
{
    let zero = Float64 { bits: 0 };
    lemma_span(low, high);
    arithmetic::lemma_difference_key(high, low);
    arithmetic::lemma_zero_value(zero);
    arithmetic::lemma_nearest_key_exact(zero);
    arithmetic::lemma_nearest_key_monotone(0, high.value() - low.value());
    arithmetic::lemma_order(zero, float::difference(high, low));
}

/// The share of the way is no more than four.
proof fn lemma_share(x: Float64, src: Bounds)
    requires
        arithmetic::moderate(src.low),
        arithmetic::moderate(src.high),
        arithmetic::moderate(x),
        src.low.value() <= src.high.value(),
        arithmetic::size(x.value() - src.low.value()) <= 2 * (src.high.value() - src.low.value()),
        !chart::close(src.low, src.high),
    ensures
        ({
            let n = float::difference(x, src.low);
            let s = float::difference(src.high, src.low);
            let r = float::quotient(n, s);
            &&& s.value() > 0
            &&& !s.zero()
            &&& r.finite()
            &&& r.units() <= 4 * float::one_in_units()
        }),
{
    let n = float::difference(x, src.low);
    let s = float::difference(src.high, src.low);
    let r = float::quotient(n, s);
    let one = float::one_in_units();
    lemma2_to64_rest();
    arithmetic::lemma_one();
    lemma_span(src.low, x);
    lemma_span(src.low, src.high);
    lemma_nonnegative(src.low, src.high);
    lemma_size_order(src.low, src.high);
    let here = x.value() - src.low.value();
    let length = src.high.value() - src.low.value();
    let e = arithmetic::size(n.value() - here);
    let f = arithmetic::size(s.value() - length);
    let k: int = 0x20_0000_0000_0000;
    assert(e * k <= 2 * length);
    assert(f * k <= length);
    assert(s.value() > 0);
    arithmetic::lemma_zero_sign(s);
    arithmetic::lemma_zero_units(s);
    assert(n.units() <= 4 * s.units());
    let m = n.units() * one;
    lemma_pow2_unfold(1075);
    lemma_pow2_unfold(1076);
    assert(m <= pow2(1076) * s.units()) by (nonlinear_arith)
        requires
            m == n.units() * one,
            n.units() <= 4 * s.units(),
            pow2(1076) == 4 * one,
    ;
    arithmetic::lemma_ratio_at_most(m, s.units(), 1076);
    arithmetic::lemma_signed(n.negative() != s.negative(), arithmetic::ratio_key(m, s.units()));
    arithmetic::lemma_zero_units(n);
    if n.zero() {
        arithmetic::lemma_quotient_zero(n, s);
        arithmetic::lemma_zero_units(r);
    }
}

proof fn lemma_step_finite(r: Float64, d: Float64)
    requires
        r.finite(),
        r.units() <= 4 * float::one_in_units(),
        d.finite(),
        d.units() <= pow2(2001),
    ensures
        float::product(r, d).finite(),
        float::product(r, d).units() <= pow2(2003),
{
    let one = float::one_in_units();
    let n = r.units() * d.units();
    arithmetic::lemma_one();
    lemma_pow2_unfold(2002);
    lemma_pow2_unfold(2003);
    assert(n <= pow2(2003) * one) by (nonlinear_arith)
        requires
            n == r.units() * d.units(),
            4 * d.units() <= pow2(2003),
            r.units() <= 4 * one,
    ;
    arithmetic::lemma_ratio_at_most(n, one, 2003);
    arithmetic::lemma_signed(r.negative() != d.negative(), arithmetic::ratio_key(n, one));
}

#[verifier::spinoff_prover]
proof fn lemma_linear(
    n: int,
    s: int,
    d: int,
    r: int,
    t: int,
    moved: int,
    low: int,
    here: int,
    length: int,
    other: int,
    one: int,
)
    requires
        one >= pow2(52),
        arithmetic::size(here) <= 2 * length,
        length > 0,
        other >= 0,
        s > 0,
        d >= 0,
        arithmetic::size(r) <= 4 * one,
        arithmetic::size(n - here) * pow2(53) <= arithmetic::size(here),
        arithmetic::size(s - length) * pow2(53) <= arithmetic::size(length),
        arithmetic::size(d - other) * pow2(53) <= arithmetic::size(other),
        arithmetic::size(r * s - n * one) * pow2(53) <= arithmetic::size(n) * one + pow2(52)
            * arithmetic::size(s),
        arithmetic::size(t * one - r * d) * pow2(53) <= arithmetic::size(r * d) + pow2(52) * one,
        arithmetic::size(moved - (low + t)) * pow2(53) <= arithmetic::size(low + t),
    ensures
        arithmetic::size((moved - low) * length - here * other) * pow2(53) <= length * (
        arithmetic::size(low) + 64 * other + pow2(56)),
{
    lemma2_to64();
    lemma2_to64_rest();
    let k: int = 0x20_0000_0000_0000;
    let h: int = 0x10_0000_0000_0000;
    let sn = arithmetic::size(n);
    let sr = arithmetic::size(r);
    let sh = arithmetic::size(here);
    assert(sn <= 4 * length && s <= 2 * length && d <= 2 * other);
    let a = t * s - n * d;
    let f = r * s - n * one;
    let g = t * one - r * d;
    let rd = arithmetic::size(r * d);
    lemma_size_product(r, d);
    assert(0 <= rd <= 4 * (one * d)) by (nonlinear_arith)
        requires
            rd == sr * d,
            0 <= sr <= 4 * one,
            d >= 0,
    ;
    // The step is not much longer than the axis.
    let st = arithmetic::size(t);
    lemma_size_product(t, one);
    assert(st * one <= rd + arithmetic::size(g));
    assert(st * k <= 4 * (d * (k + 1)) + h) by (nonlinear_arith)
        requires
            st * one <= rd + arithmetic::size(g),
            arithmetic::size(g) * k <= rd + h * one,
            rd <= 4 * (one * d),
            one > 0,
            k > 0,
            h > 0,
    ;
    assert(st <= 10 * other + 1);
    // It is to the axis what the distance is to the other.
    let sf = arithmetic::size(f);
    let sg = arithmetic::size(g);
    assert(a * one == s * g + d * f) by (nonlinear_arith)
        requires
            a == t * s - n * d,
            f == r * s - n * one,
            g == t * one - r * d,
    ;
    lemma_size_product(s, g);
    lemma_size_product(d, f);
    let sd = s * d;
    let most = 5 * sd + sn * d + h * s;
    assert((s * sg + d * sf) * k <= most * one) by {
        assert(s * (sg * k) <= s * (4 * (one * d) + h * one)) by (nonlinear_arith)
            requires
                sg * k <= 4 * (one * d) + h * one,
                s > 0,
        ;
        assert(d * (sf * k) <= d * (sn * one + h * s)) by (nonlinear_arith)
            requires
                sf * k <= sn * one + h * s,
                d >= 0,
        ;
        assert(h * sd <= one * sd) by (nonlinear_arith)
            requires
                h <= one,
                sd >= 0,
                sd == s * d,
        ;
        assert(sd >= 0) by (nonlinear_arith)
            requires
                sd == s * d,
                s > 0,
                d >= 0,
        ;
        assert((s * sg + d * sf) * k == s * (sg * k) + d * (sf * k)) by (nonlinear_arith);
        let hs = h * s;
        let nd = sn * d;
        assert(s * (4 * (one * d) + h * one) == 4 * (sd * one) + hs * one) by (nonlinear_arith)
            requires
                sd == s * d,
                hs == h * s,
        ;
        assert(d * (sn * one + h * s) == nd * one + h * sd) by (nonlinear_arith)
            requires
                sd == s * d,
                nd == sn * d,
        ;
        assert((4 * sd + hs + nd) * one == 4 * (sd * one) + hs * one + nd * one) by (nonlinear_arith);
        assert(most * one == (4 * sd + hs + nd) * one + one * sd) by (nonlinear_arith)
            requires
                most == 5 * sd + nd + hs,
        ;
    }
    let w = arithmetic::size(a * one);
    assert(w * k <= (s * sg + d * sf) * k) by (nonlinear_arith)
        requires
            w <= s * sg + d * sf,
            k > 0,
    ;
    arithmetic::lemma_bound_scaled(a, k, most, one);
    let lo = length * other;
    assert(sd <= 4 * lo && sn * d <= 8 * lo && lo >= 0) by (nonlinear_arith)
        requires
            sd == s * d,
            lo == length * other,
            0 < s <= 2 * length,
            0 <= d <= 2 * other,
            0 <= sn <= 4 * length,
            length > 0,
    ;
    let sa = arithmetic::size(a);
    assert(sa * k <= 28 * lo + 2 * h * length);
    // What the three lengths were rounded by.
    let p = t * (length - s);
    let q = (n - here) * d;
    let u = here * (d - other);
    lemma_size_product(t, length - s);
    lemma_size_product(n - here, d);
    lemma_size_product(here, d - other);
    let ls = arithmetic::size(length - s);
    let nh = arithmetic::size(n - here);
    let dd = arithmetic::size(d - other);
    assert(ls == arithmetic::size(s - length));
    assert(st * ls * k <= 10 * lo + length) by (nonlinear_arith)
        requires
            ls * k <= length,
            0 <= st <= 10 * other + 1,
            ls >= 0,
            length > 0,
            lo == length * other,
            k > 0,
    ;
    assert(nh * d * k <= 4 * lo) by (nonlinear_arith)
        requires
            nh * k <= sh,
            0 <= sh <= 2 * length,
            0 <= d <= 2 * other,
            nh >= 0,
            lo == length * other,
            k > 0,
    ;
    assert(sh * dd * k <= 2 * lo) by (nonlinear_arith)
        requires
            dd * k <= other,
            0 <= sh <= 2 * length,
            other >= 0,
            dd >= 0,
            lo == length * other,
            k > 0,
    ;
    let x = t * length - here * other;
    assert(x == a + p + q + u) by (nonlinear_arith)
        requires
            x == t * length - here * other,
            a == t * s - n * d,
            p == t * (length - s),
            q == (n - here) * d,
            u == here * (d - other),
    ;
    let sx = arithmetic::size(x);
    assert(sx * k <= 44 * lo + 2 * h * length + length) by (nonlinear_arith)
        requires
            sx <= sa + st * ls + nh * d + sh * dd,
            sa * k <= 28 * lo + 2 * h * length,
            st * ls * k <= 10 * lo + length,
            nh * d * k <= 4 * lo,
            sh * dd * k <= 2 * lo,
            k > 0,
    ;
    let v = moved - (low + t);
    let sv = arithmetic::size(v);
    let slow = arithmetic::size(low);
    lemma_size_product(v, length);
    assert(sv * k <= slow + st);
    assert(sv * length * k <= slow * length + 10 * lo + length) by (nonlinear_arith)
        requires
            sv * k <= slow + st,
            st <= 10 * other + 1,
            length > 0,
            lo == length * other,
    ;
    let y = (moved - low) * length - here * other;
    assert(y == v * length + x) by (nonlinear_arith)
        requires
            y == (moved - low) * length - here * other,
            v == moved - (low + t),
            x == t * length - here * other,
    ;
    let sy = arithmetic::size(y);
    assert(sy * k <= slow * length + 54 * lo + 2 * h * length + 2 * length) by (nonlinear_arith)
        requires
            sy <= sv * length + sx,
            sv * length * k <= slow * length + 10 * lo + length,
            sx * k <= 44 * lo + 2 * h * length + length,
            k > 0,
    ;
    assert(length * (slow + 64 * other + 16 * h) == slow * length + 64 * lo + 16 * h * length)
        by (nonlinear_arith)
        requires
            lo == length * other,
    ;
}

proof fn lemma_size_product(a: int, b: int)
    ensures
        arithmetic::size(a * b) == arithmetic::size(a) * arithmetic::size(b),
{
    assert((-a) * b == -(a * b) && a * (-b) == -(a * b) && (-a) * (-b) == a * b)
        by (nonlinear_arith);
    assert(a >= 0 && b >= 0 ==> a * b >= 0) by (nonlinear_arith);
    assert(a <= 0 && b <= 0 ==> a * b >= 0) by (nonlinear_arith);
    assert(a >= 0 && b <= 0 ==> a * b <= 0) by (nonlinear_arith);
    assert(a <= 0 && b >= 0 ==> a * b <= 0) by (nonlinear_arith);
}

/// Where the ends of an axis can hardly be told apart, every number is moved to the middle of the
/// other axis, up to rounding.
pub proof fn lemma_remap_middle(x: Float64, src: Bounds, dst: Bounds)
    requires
        !x.nan(),
        arithmetic::moderate(dst.low),
        arithmetic::moderate(dst.high),
        chart::close(src.low, src.high),
    ensures
        ({
            let moved = chart::remapped(x, src, dst);
            let low = dst.low.value();
            let high = dst.high.value();
            &&& moved.finite()
            &&& arithmetic::size(2 * moved.value() - (low + high)) * pow2(53) <= 4 * (
            arithmetic::size(low) + arithmetic::size(high)) + pow2(53)
        }),
{
    let two = Float64 { bits: chart::TWO_BITS };
    let both = float::sum(dst.low, dst.high);
    let one = float::one_in_units();
    lemma2_to64();
    lemma2_to64_rest();
    arithmetic::lemma_one();
    arithmetic::lemma_top();
    assert(0x4000_0000_0000_0000nat / 0x10_0000_0000_0000nat == 0x400);
    lemma_pow2_adds(52, 1023);
    lemma_pow2_unfold(1075);
    float::lemma_nearest_exact(chart::TWO_BITS as nat, 1);
    assert(two.units() == 2 * one);
    assert(float::from_whole(2) == two);
    rounding::lemma_pow2_le(2000, 2003);
    lemma_ends(dst.low, dst.high);
    arithmetic::lemma_whole_quotient_error(both, 2);
    let sum = dst.low.value() + dst.high.value();
    let moved = chart::remapped(x, src, dst).value();
    let a = arithmetic::size(both.value() - sum);
    let c = arithmetic::size(2 * moved - both.value());
    let k: int = 0x20_0000_0000_0000;
    assert(a * k <= arithmetic::size(sum));
    assert(c * k <= arithmetic::size(both.value()) + k);
    assert(arithmetic::size(both.value()) <= 2 * arithmetic::size(sum));
    assert(arithmetic::size(2 * moved - sum) <= a + c);
}

} // verus!
