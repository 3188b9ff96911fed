//! What the statistics of a watch keep: the mean lies between the least and the greatest number, and
//! is exact where the sums are; the mean distance of neighbours is that from the least number to
//! the greatest, shared out; and nineteen numbers in twenty do not exceed the last but a twentieth.

use crate::arithmetic;
use crate::decimal;
use crate::float;
use crate::float::Float64;
use crate::measure::Measure;
use crate::order;
use crate::plot_data;
use crate::rounding;
use vstd::arithmetic::power2::*;
use vstd::prelude::*;

verus! {

/// Whether there is a number with so many units.
pub open spec fn held(x: int) -> bool {
    exists|r: Float64| r.finite() && #[trigger] r.value() == x
}

/// Whether the numbers are finite.
pub open spec fn all_finite(v: Seq<Float64>) -> bool {
    forall|i: int| 0 <= i < v.len() ==> (#[trigger] v[i]).finite()
}

/// The sum of the values, without rounding.
pub open spec fn sum_of_values(v: Seq<Float64>) -> int
    decreases v.len(),
{
    if v.len() == 0 {
        0
    } else {
        sum_of_values(v.drop_last()) + v.last().value()
    }
}

/// Whether no sum of the first numbers needs rounding.
pub open spec fn sums_held(v: Seq<Float64>) -> bool {
    forall|k: int| 0 <= k <= v.len() ==> held(#[trigger] sum_of_values(v.take(k)))
}

/// Sums that need no rounding are exact.
pub proof fn lemma_total_exact(v: Seq<Float64>)
    requires
        all_finite(v),
        sums_held(v),
    ensures
        plot_data::total(v).finite(),
        plot_data::total(v).value() == sum_of_values(v),
    decreases v.len(),
{
    if v.len() == 0 {
        arithmetic::lemma_zero_value(plot_data::total(v));
    } else {
        let front = v.drop_last();
        assert(all_finite(front)) by {
            assert forall|i: int| 0 <= i < front.len() implies (#[trigger] front[i]).finite() by {
                assert(front[i] == v[i]);
            }
        }
        assert(sums_held(front)) by {
            assert forall|k: int| 0 <= k <= front.len() implies held(
                #[trigger] sum_of_values(front.take(k)),
            ) by {
                assert(front.take(k) =~= v.take(k));
                assert(held(sum_of_values(v.take(k))));
            }
        }
        lemma_total_exact(front);
        assert(v.take(v.len() as int) =~= v);
        assert(held(sum_of_values(v.take(v.len() as int))));
        let r = choose|r: Float64| r.finite() && #[trigger] r.value() == sum_of_values(v);
        assert(v[v.len() - 1].finite());
        arithmetic::lemma_sum_exact(plot_data::total(front), v.last(), r);
    }
}

/// Where the sums need no rounding, no number is nearer to the mean of the values than the mean.
pub proof fn lemma_average_closest(v: Seq<Float64>, c: Float64)
    requires
        0 < v.len() <= pow2(53),
        all_finite(v),
        sums_held(v),
        c.finite(),
    ensures
        plot_data::average(v).finite(),
        arithmetic::size(v.len() * plot_data::average(v).value() - sum_of_values(v))
            <= arithmetic::size(v.len() * c.value() - sum_of_values(v)),
{
    let n = v.len() as int;
    let one = float::one_in_units();
    let a = plot_data::total(v);
    let w = float::from_whole(n);
    let q = plot_data::average(v);
    lemma_total_exact(v);
    arithmetic::lemma_whole_exact(n);
    arithmetic::lemma_one();
    assert(n * one >= one) by (nonlinear_arith)
        requires
            n >= 1,
            one > 0,
    ;
    arithmetic::lemma_quotient_at_most(a, w);
    arithmetic::lemma_quotient_closest(a, w, c);
    let x = n * q.value() - a.value();
    let y = n * c.value() - a.value();
    assert(q.value() * (n * one) - a.value() * one == x * one) by (nonlinear_arith)
        requires
            x == n * q.value() - a.value(),
    ;
    assert(c.value() * (n * one) - a.value() * one == y * one) by (nonlinear_arith)
        requires
            y == n * c.value() - a.value(),
    ;
    arithmetic::lemma_size_scaled(x, y, one as int);
}

/// So many copies of a number.
pub open spec fn copies(c: Float64, n: nat) -> Seq<Float64> {
    Seq::new(n, |i: int| c)
}

proof fn lemma_sum_of_copies(c: Float64, n: nat)
    ensures
        sum_of_values(copies(c, n)) == n * c.value(),
    decreases n,
{
    if n > 0 {
        let m = (n - 1) as nat;
        lemma_sum_of_copies(c, m);
        assert(copies(c, n).drop_last() =~= copies(c, m));
        assert(n * c.value() == m * c.value() + c.value()) by (nonlinear_arith)
            requires
                n == m + 1,
        ;
    } else {
        assert(0 * c.value() == 0) by (nonlinear_arith);
    }
}

/// Whether the multiples of a number up to the `n`-fold need no rounding.
pub open spec fn multiples_held(c: Float64, n: nat) -> bool {
    forall|k: int| 0 <= k <= n ==> held(#[trigger] (k * c.value()))
}

proof fn lemma_copies_held(c: Float64, n: nat)
    requires
        c.finite(),
        multiples_held(c, n),
    ensures
        all_finite(copies(c, n)),
        sums_held(copies(c, n)),
{
    let v = copies(c, n);
    assert forall|k: int| 0 <= k <= v.len() implies held(#[trigger] sum_of_values(v.take(k))) by {
        assert(v.take(k) =~= copies(c, k as nat));
        lemma_sum_of_copies(c, k as nat);
        assert(held(k * c.value()));
    }
}

/// The mean of copies of a number is that number, however many there are, where its multiples need
/// no rounding.
pub proof fn lemma_average_of_copies(c: Float64, n: nat)
    requires
        c.finite(),
        0 < n <= pow2(53),
        multiples_held(c, n),
    ensures
        plot_data::average(copies(c, n)).finite(),
        plot_data::average(copies(c, n)).value() == c.value(),
        plot_data::average(copies(c, n)).key() == c.key(),
{
    let v = copies(c, n);
    let q = plot_data::average(v);
    lemma_copies_held(c, n);
    lemma_sum_of_copies(c, n);
    lemma_average_closest(v, c);
    assert(q.value() == c.value()) by (nonlinear_arith)
        requires
            n * q.value() - n * c.value() == 0,
            n > 0,
    ;
    arithmetic::lemma_order(q, c);
}

/// The mean of copies of a whole number is that number, however many there are.
pub proof fn lemma_average_of_whole_copies(m: int, n: nat)
    requires
        0 < n <= pow2(53),
        n * arithmetic::size(m) <= pow2(53),
    ensures
        plot_data::average(copies(float::from_whole(m), n)).value() == m * float::one_in_units(),
        plot_data::average(copies(float::from_whole(m), n)).key() == float::from_whole(m).key(),
{
    let one = float::one_in_units();
    let c = float::from_whole(m);
    let s = arithmetic::size(m);
    assert(s <= pow2(53)) by (nonlinear_arith)
        requires
            n * s <= pow2(53),
            n >= 1,
            s >= 0,
    ;
    arithmetic::lemma_whole_exact(m);
    assert forall|k: int| 0 <= k <= n implies held(#[trigger] (k * c.value())) by {
        assert(-(n * s) <= k * m <= n * s) by (nonlinear_arith)
            requires
                0 <= k <= n,
                -s <= m <= s,
        ;
        let r = arithmetic::lemma_number_held(k * m, 1074);
        assert((k * m) * one == k * (m * one)) by (nonlinear_arith);
        assert(r.finite() && r.value() == k * c.value());
    }
    lemma_average_of_copies(c, n);
}

/// Sums keep the order of the numbers that are added.
proof fn lemma_total_order(v: Seq<Float64>, w: Seq<Float64>)
    requires
        v.len() == w.len(),
        all_finite(v),
        all_finite(w),
        forall|i: int| 0 <= i < v.len() ==> (#[trigger] v[i]).key() <= w[i].key(),
    ensures
        !plot_data::total(v).nan(),
        !plot_data::total(w).nan(),
        plot_data::total(v).key() <= plot_data::total(w).key(),
    decreases v.len(),
{
    if v.len() > 0 {
        let a = v.drop_last();
        let c = w.drop_last();
        let n = v.len() - 1;
        assert forall|i: int| 0 <= i < a.len() implies (#[trigger] a[i]).key() <= c[i].key() by {
            assert(a[i] == v[i] && c[i] == w[i]);
        }
        assert forall|i: int| 0 <= i < a.len() implies (#[trigger] a[i]).finite() by {
            assert(a[i] == v[i]);
        }
        assert forall|i: int| 0 <= i < c.len() implies (#[trigger] c[i]).finite() by {
            assert(c[i] == w[i]);
        }
        lemma_total_order(a, c);
        let s = plot_data::total(a);
        let t = plot_data::total(c);
        assert(v[n].finite() && w[n].finite() && v[n].key() <= w[n].key());
        arithmetic::lemma_sum_order(s, t, v[n]);
        if t.finite() {
            arithmetic::lemma_sum_order(v[n], w[n], t);
        }
    }
}

/// The mean keeps the order: larger numbers do not have a smaller mean.
pub proof fn lemma_average_order(v: Seq<Float64>, w: Seq<Float64>)
    requires
        0 < v.len() <= pow2(53),
        v.len() == w.len(),
        all_finite(v),
        all_finite(w),
        forall|i: int| 0 <= i < v.len() ==> (#[trigger] v[i]).key() <= w[i].key(),
    ensures
        !plot_data::average(v).nan(),
        !plot_data::average(w).nan(),
        plot_data::average(v).key() <= plot_data::average(w).key(),
{
    let n = v.len() as int;
    let one = float::one_in_units();
    let zero = Float64 { bits: 0 };
    lemma_total_order(v, w);
    arithmetic::lemma_whole_exact(n);
    arithmetic::lemma_one();
    assert(n * one >= one) by (nonlinear_arith)
        requires
            n >= 1,
            one > 0,
    ;
    arithmetic::lemma_zero_value(zero);
    arithmetic::lemma_order(zero, float::from_whole(n));
    arithmetic::lemma_quotient_order(
        plot_data::total(v),
        plot_data::total(w),
        float::from_whole(n),
    );
}

/// The mean lies between two numbers that all numbers lie between, where the multiples of those
/// two need no rounding.
pub proof fn lemma_average_between(v: Seq<Float64>, lo: Float64, hi: Float64)
    requires
        0 < v.len() <= pow2(53),
        all_finite(v),
        lo.finite(),
        hi.finite(),
        multiples_held(lo, v.len()),
        multiples_held(hi, v.len()),
        forall|i: int| 0 <= i < v.len() ==> lo.key() <= (#[trigger] v[i]).key() <= hi.key(),
    ensures
        plot_data::average(v).finite(),
        lo.key() <= plot_data::average(v).key() <= hi.key(),
        lo.value() <= plot_data::average(v).value() <= hi.value(),
{
    let n = v.len();
    lemma_copies_held(lo, n);
    lemma_copies_held(hi, n);
    assert forall|i: int| 0 <= i < n implies (#[trigger] copies(lo, n)[i]).key() <= v[i].key() by {}
    assert forall|i: int| 0 <= i < n implies (#[trigger] v[i]).key() <= copies(hi, n)[i].key() by {}
    lemma_average_order(copies(lo, n), v);
    lemma_average_order(v, copies(hi, n));
    lemma_average_of_copies(lo, n);
    lemma_average_of_copies(hi, n);
    let q = plot_data::average(v);
    assert(q.finite());
    arithmetic::lemma_order(lo, q);
    arithmetic::lemma_order(q, hi);
}

/// Below a number, and near it, there is one whose multiples need no rounding.
proof fn lemma_coarser(x: Float64, k: nat, n: nat) -> (lo: Float64)
    requires
        arithmetic::moderate(x),
        k <= 50,
        n <= pow2(k),
    ensures
        lo.finite(),
        lo.value() <= x.value(),
        multiples_held(lo, n),
        (x.value() - lo.value()) * pow2((52 - k) as nat) <= arithmetic::size(x.value()),
{
    let p = (52 - k) as nat;
    let u = x.units();
    let t = rounding::excess(u, 1, p);
    rounding::lemma_excess_meets(u, 1, p);
    assert(1 * pow2(p + 1 + t) == pow2(p + 1 + t) && 1 * pow2(p + t) == pow2(p + t));
    let w = pow2(t);
    lemma_pow2_pos(t);
    if t > 2000 {
        rounding::lemma_pow2_le(2001, p + t);
        lemma_pow2_unfold(2001);
        lemma_pow2_pos(2000);
    }
    let m = x.value() / (w as int);
    let r = x.value() % (w as int);
    vstd::arithmetic::div_mod::lemma_fundamental_div_mod(x.value(), w as int);
    assert(x.value() == w * m + r && 0 <= r < w);
    lemma_pow2_adds(p + 1, t);
    lemma_pow2_adds(p, t);
    let top = pow2(p + 1);
    assert(-top <= m <= top) by (nonlinear_arith)
        requires
            -(top * w) <= w * m + r <= top * w,
            0 <= r < w,
            w > 0,
    ;
    lemma_pow2_adds(k, p + 1);
    assert(k + (p + 1) == 53);
    rounding::lemma_pow2_le(p + 1, 53);
    let lo = arithmetic::lemma_number_held(m, t);
    assert forall|j: int| 0 <= j <= n implies held(#[trigger] (j * lo.value())) by {
        assert(-(pow2(k) * top) <= j * m <= pow2(k) * top) by (nonlinear_arith)
            requires
                0 <= j <= pow2(k),
                -top <= m <= top,
        ;
        let y = arithmetic::lemma_number_held(j * m, t);
        assert((j * m) * w == j * (m * w)) by (nonlinear_arith);
        assert(y.finite() && y.value() == j * lo.value());
    }
    assert(w * m == m * w) by (nonlinear_arith);
    assert(x.value() - lo.value() == r);
    if t == 0 {
        lemma2_to64();
        assert(r == 0);
        assert(0 * pow2(p) == 0) by (nonlinear_arith);
    } else {
        lemma_pow2_pos(p);
        assert(r * pow2(p) <= u) by (nonlinear_arith)
            requires
                r < w,
                pow2(p) * w <= u,
                pow2(p) > 0,
        ;
    }
    lo
}

proof fn lemma_mirrored(lo: Float64, n: nat)
    requires
        lo.finite(),
        multiples_held(lo, n),
    ensures
        multiples_held(float::negated(lo), n),
{
    arithmetic::lemma_negated(lo);
    assert forall|k: int| 0 <= k <= n implies held(
        #[trigger] (k * float::negated(lo).value()),
    ) by {
        assert(held(k * lo.value()));
        let r = choose|r: Float64| r.finite() && #[trigger] r.value() == k * lo.value();
        arithmetic::lemma_negated(r);
        assert(k * (-lo.value()) == -(k * lo.value())) by (nonlinear_arith);
        assert(float::negated(r).finite() && float::negated(r).value() == k * float::negated(
            lo,
        ).value());
    }
}

/// The mean lies between the least and the greatest number, up to rounding: it is below the least,
/// or above the greatest, by no more than a part of that in `2^(52 - k)`, where there are no more
/// than `2^k` numbers.
pub proof fn lemma_average_near(v: Seq<Float64>, least: Float64, greatest: Float64, k: nat)
    requires
        k <= 50,
        0 < v.len() <= pow2(k),
        all_finite(v),
        arithmetic::moderate(least),
        arithmetic::moderate(greatest),
        forall|i: int|
            0 <= i < v.len() ==> least.key() <= (#[trigger] v[i]).key() <= greatest.key(),
    ensures
        ({
            let mean = plot_data::average(v);
            let part = pow2((52 - k) as nat);
            &&& mean.finite()
            &&& (least.value() - mean.value()) * part <= arithmetic::size(least.value())
            &&& (mean.value() - greatest.value()) * part <= arithmetic::size(greatest.value())
        }),
{
    let n = v.len();
    let part = pow2((52 - k) as nat);
    let up = float::negated(greatest);
    arithmetic::lemma_negated(greatest);
    let lo = lemma_coarser(least, k, n);
    let under = lemma_coarser(up, k, n);
    let hi = float::negated(under);
    arithmetic::lemma_negated(under);
    lemma_mirrored(under, n);
    arithmetic::lemma_order(lo, least);
    arithmetic::lemma_order(greatest, hi);
    rounding::lemma_pow2_le(k, 53);
    lemma_average_between(v, lo, hi);
    let mean = plot_data::average(v);
    lemma_pow2_pos((52 - k) as nat);
    assert((least.value() - mean.value()) * part <= (least.value() - lo.value()) * part)
        by (nonlinear_arith)
        requires
            lo.value() <= mean.value(),
            part > 0,
    ;
    assert((mean.value() - greatest.value()) * part <= (up.value() - under.value()) * part)
        by (nonlinear_arith)
        requires
            mean.value() <= hi.value(),
            hi.value() == -under.value(),
            up.value() == -greatest.value(),
            part > 0,
    ;
}

/// The steps between numbers in order whose distances need no rounding are those distances.
proof fn lemma_steps_exact(v: Seq<Float64>, i: int)
    requires
        all_finite(v),
        order::ascending(v),
        0 <= i < v.len() - 1,
        held(v[i + 1].value() - v[i].value()),
    ensures
        plot_data::steps(v)[i].finite(),
        plot_data::steps(v)[i].value() == v[i + 1].value() - v[i].value(),
{
    let a = v[i + 1];
    let c = v[i];
    assert(a.finite() && c.finite() && c.key() <= a.key());
    let r = choose|r: Float64| r.finite() && #[trigger] r.value() == a.value() - c.value();
    arithmetic::lemma_negated(c);
    arithmetic::lemma_sum_exact(a, float::negated(c), r);
    let d = float::difference(a, c);
    arithmetic::lemma_order(c, a);
    arithmetic::lemma_signed(false, d.magnitude());
    assert(d.value() >= 0);
    assert(float::absolute(d).units() == d.units());
    arithmetic::lemma_zero_sign(d);
}

proof fn lemma_sum_of_steps(v: Seq<Float64>, k: int)
    requires
        all_finite(v),
        order::ascending(v),
        0 <= k < v.len(),
        forall|i: int|
            0 <= i < v.len() - 1 ==> held(#[trigger] (v[i + 1].value() - v[i].value())),
    ensures
        sum_of_values(plot_data::steps(v).take(k)) == v[k].value() - v[0].value(),
    decreases k,
{
    let s = plot_data::steps(v);
    if k > 0 {
        lemma_sum_of_steps(v, k - 1);
        assert(held(v[k - 1 + 1].value() - v[k - 1].value()));
        lemma_steps_exact(v, k - 1);
        assert(s.take(k).drop_last() =~= s.take(k - 1));
    }
}

/// The mean distance of neighbours in order is the distance from the least number to the greatest,
/// shared out evenly: where the distances need no rounding, no number is nearer to that.
pub proof fn lemma_jitter_closest(v: Seq<Float64>, c: Float64)
    requires
        2 <= v.len() <= pow2(53),
        all_finite(v),
        order::ascending(v),
        forall|i: int|
            0 <= i < v.len() - 1 ==> held(#[trigger] (v[i + 1].value() - v[i].value())),
        forall|i: int| 0 <= i < v.len() ==> held(#[trigger] v[i].value() - v[0].value()),
        c.finite(),
    ensures
        plot_data::jitter(v).finite(),
        ({
            let reach = v.last().value() - v.first().value();
            arithmetic::size((v.len() - 1) * plot_data::jitter(v).value() - reach)
                <= arithmetic::size((v.len() - 1) * c.value() - reach)
        }),
{
    let s = plot_data::steps(v);
    let n = v.len() - 1;
    assert forall|i: int| 0 <= i < s.len() implies (#[trigger] s[i]).finite() by {
        assert(held(v[i + 1].value() - v[i].value()));
        lemma_steps_exact(v, i);
    }
    assert forall|k: int| 0 <= k <= s.len() implies held(#[trigger] sum_of_values(s.take(k))) by {
        lemma_sum_of_steps(v, k);
        assert(held(v[k].value() - v[0].value()));
    }
    lemma_sum_of_steps(v, n);
    assert(s.take(n) =~= s);
    assert(plot_data::jitter(v) == plot_data::average(s));
    lemma_average_closest(s, c);
}

/// The mean distance of whole numbers in order.
pub proof fn lemma_jitter_of_whole(v: Seq<Float64>, ms: Seq<int>, c: Float64)
    requires
        2 <= v.len() <= pow2(53),
        v.len() == ms.len(),
        forall|i: int| 0 <= i < v.len() ==> #[trigger] v[i] == float::from_whole(ms[i]),
        forall|i: int| 0 <= i < ms.len() ==> arithmetic::size(#[trigger] ms[i]) <= pow2(52),
        order::ascending(v),
        c.finite(),
    ensures
        ({
            let reach = (ms.last() - ms.first()) * float::one_in_units();
            arithmetic::size((v.len() - 1) * plot_data::jitter(v).value() - reach)
                <= arithmetic::size((v.len() - 1) * c.value() - reach)
        }),
{
    let one = float::one_in_units();
    lemma2_to64();
    lemma2_to64_rest();
    assert forall|i: int| 0 <= i < v.len() implies (#[trigger] v[i]).finite() && v[i].value()
        == ms[i] * one by {
        assert(arithmetic::size(ms[i]) <= pow2(52));
        arithmetic::lemma_whole_exact(ms[i]);
    }
    assert forall|i: int| 0 <= i < v.len() - 1 implies held(
        #[trigger] (v[i + 1].value() - v[i].value()),
    ) by {
        lemma_whole_distance_held(ms[i + 1], ms[i]);
        assert(v[i + 1].value() == ms[i + 1] * one && v[i].value() == ms[i] * one);
    }
    assert forall|i: int| 0 <= i < v.len() implies held(#[trigger] v[i].value() - v[0].value()) by {
        lemma_whole_distance_held(ms[i], ms[0]);
        assert(v[i].value() == ms[i] * one && v[0].value() == ms[0] * one);
    }
    lemma_jitter_closest(v, c);
    let n = v.len() - 1;
    assert(v[n].value() == ms[n] * one && v[0].value() == ms[0] * one);
    let a = ms[n];
    let z = ms[0];
    assert(a * one - z * one == (a - z) * one) by (nonlinear_arith);
}

proof fn lemma_whole_distance_held(a: int, c: int)
    requires
        arithmetic::size(a) <= pow2(52),
        arithmetic::size(c) <= pow2(52),
    ensures
        held(a * float::one_in_units() - c * float::one_in_units()),
{
    let one = float::one_in_units();
    lemma2_to64();
    lemma2_to64_rest();
    let r = arithmetic::lemma_number_held(a - c, 1074);
    assert((a - c) * one == a * one - c * one) by (nonlinear_arith);
    assert(r.finite() && r.value() == a * one - c * one);
}

/// One number has no distance from another.
pub proof fn lemma_jitter_single(v: Seq<Float64>)
    requires
        v.len() <= 1,
    ensures
        plot_data::jitter(v).value() == 0,
{
    arithmetic::lemma_zero_value(plot_data::jitter(v));
}

/// The index among numbers in order that nineteen in twenty do not exceed is the whole number
/// nearest to nineteen twentieths of the last index.
pub proof fn lemma_near_all_index(n: nat)
    requires
        0 < n <= pow2(40),
        n <= usize::MAX,
    ensures
        plot_data::near_all_index(n) < n,
        -10 <= 20 * plot_data::near_all_index(n) - 19 * (n - 1) <= 10,
{
    let m = n - 1;
    let one = float::one_in_units();
    let c = Float64 { bits: plot_data::NEAR_ALL_BITS };
    let a = float::from_whole(m);
    let y = float::product(a, c);
    let grain = pow2(1068);
    lemma2_to64();
    lemma2_to64_rest();
    arithmetic::lemma_one();
    arithmetic::lemma_whole_exact(m);
    lemma_pow2_adds(53, 1021);
    lemma_pow2_adds(6, 1068);
    lemma_pow2_adds(47, 1021);
    let tiny = pow2(1021);
    lemma_pow2_pos(1021);
    assert(0x3fee_6666_6666_6666nat / 0x10_0000_0000_0000nat == 0x3fe);
    assert(c.units() == 0x1e_6666_6666_6666 * tiny);
    let cu = c.units() as int;
    assert(20 * cu == 19 * one - 8 * tiny);
    let exact = m * cu;
    assert(20 * exact == 19 * (m * one) - 8 * (m * tiny)) by (nonlinear_arith)
        requires
            20 * cu == 19 * one - 8 * tiny,
            exact == m * cu,
    ;
    assert(0 <= m * tiny <= pow2(40) * tiny) by (nonlinear_arith)
        requires
            0 <= m <= pow2(40),
            tiny > 0,
    ;
    assert(exact >= 0) by (nonlinear_arith)
        requires
            exact == m * cu,
            m >= 0,
            cu >= 0,
    ;
    let j = exact / (grain as int);
    let r = exact % (grain as int);
    lemma_pow2_pos(1068);
    vstd::arithmetic::div_mod::lemma_fundamental_div_mod(exact, grain as int);
    assert(exact <= (pow2(40) as int) * one) by (nonlinear_arith)
        requires
            exact == m * cu,
            0 <= m <= pow2(40),
            0 <= cu <= one,
    ;
    assert(exact == grain * j + r && 0 <= r < grain);
    assert(0 <= j && j + 1 <= 0x8000_0000_0000) by (nonlinear_arith)
        requires
            exact == grain * j + r,
            0 <= r < grain,
            0 <= exact <= 0x100_0000_0000 * (64 * grain),
            grain > 0,
    ;
    assert(m * one >= 0) by (nonlinear_arith)
        requires
            m >= 0,
            one > 0,
    ;
    arithmetic::lemma_zero_sign(a);
    assert((m * cu) * one == (m * one) * cu) by (nonlinear_arith);
    assert(grain * (j + 1) == grain * j + grain) by (nonlinear_arith);
    lemma_product_grain(a, c, exact, j, true);
    lemma_product_grain(a, c, exact, j, false);
    let v = y.units() as int;
    assert(grain * j <= v <= grain * (j + 1));
    assert(exact - grain <= v <= exact + grain);
    let whole = float::half_up(y.units(), one);
    vstd::arithmetic::div_mod::lemma_fundamental_div_mod(
        (2 * v + one) as int,
        (2 * one) as int,
    );
    let rest = (2 * v + one) % (2 * one as int);
    assert(2 * v + one == (2 * one) * (whole as int) + rest && 0 <= rest < 2 * one);
    let w = whole as int;
    let e = 20 * w - 19 * m;
    assert((2 * one) * w == 2 * (w * one)) by (nonlinear_arith);
    assert(e * one == 20 * (w * one) - 19 * (m * one)) by (nonlinear_arith)
        requires
            e == 20 * w - 19 * m,
    ;
    assert(64 * grain == one);
    assert(pow2(40) * tiny * 8192 == one) by {
        assert(0x100_0000_0000 * tiny * 8192 == 0x20_0000_0000_0000 * tiny) by (nonlinear_arith);
    }
    assert(-11 * one < e * one < 11 * one);
    assert(-11 < e < 11) by (nonlinear_arith)
        requires
            -11 * one < e * one < 11 * one,
            one > 0,
    ;
    assert(w <= m);
}

/// A product with sides that are not negative lies between neighbouring multiples of a grain that
/// its exact value lies between.
proof fn lemma_product_grain(a: Float64, c: Float64, exact: int, j: int, below: bool)
    requires
        a.finite(),
        c.finite(),
        !c.negative(),
        a.value() >= 0,
        exact * float::one_in_units() == a.units() * c.units(),
        0 <= j,
        j + 1 <= 0x8000_0000_0000,
        pow2(1068) * j <= exact <= pow2(1068) * (j + 1),
    ensures
        float::product(a, c).finite(),
        a.negative() ==> float::product(a, c).units() == 0,
        float::product(a, c).negative() ==> float::product(a, c).units() == 0,
        below ==> pow2(1068) * j <= float::product(a, c).units(),
        !below ==> float::product(a, c).units() <= pow2(1068) * (j + 1),
{
    let one = float::one_in_units();
    let grain = pow2(1068);
    let n = a.units() * c.units();
    let p = float::product(a, c);
    let top = float::INFINITY_BITS as nat;
    lemma2_to64();
    lemma2_to64_rest();
    arithmetic::lemma_one();
    arithmetic::lemma_top();
    arithmetic::lemma_zero_sign(a);
    let lo = arithmetic::lemma_number_held(j, 1068);
    let hi = arithmetic::lemma_number_held(j + 1, 1068);
    assert(j * grain == grain * j && (j + 1) * grain == grain * (j + 1)) by (nonlinear_arith);
    assert(grain * j >= 0 && grain * (j + 1) >= 0) by (nonlinear_arith)
        requires
            j >= 0,
            grain >= 0,
    ;
    arithmetic::lemma_zero_sign(lo);
    arithmetic::lemma_zero_sign(hi);
    let l = lo.units();
    let h = hi.units();
    assert(l == grain * j && h == grain * (j + 1));
    assert(l * one <= n * 1 && n * 1 <= h * one) by (nonlinear_arith)
        requires
            exact * one == n,
            l <= exact <= h,
            one > 0,
    ;
    float::lemma_nearest_exact(lo.magnitude(), 1);
    assert(l * 1 == l && h * 1 == h);
    rounding::lemma_nearest_monotone(l, 1, n, one, 52, top);
    rounding::lemma_nearest_at_most(n, one, 52, top, hi.magnitude());
    let r = arithmetic::ratio_key(n, one);
    arithmetic::lemma_signed(a.negative() != c.negative(), r);
    if r < hi.magnitude() {
        rounding::lemma_units_increase(r, hi.magnitude(), 52);
    }
    if lo.magnitude() < r {
        rounding::lemma_units_increase(lo.magnitude(), r, 52);
    }
    if a.negative() {
        assert(n == 0) by (nonlinear_arith)
            requires
                n == a.units() * c.units(),
                a.units() == 0,
        ;
        arithmetic::lemma_ratio_zero(one);
        arithmetic::lemma_zero_units(p);
    }
}

/// The header of a watch that has reported no number is its name.
pub proof fn lemma_header_without_numbers(
    display: Seq<char>,
    data: Seq<(Float64, Float64)>,
    measure: Measure,
)
    requires
        forall|i: int| 0 <= i < data.len() ==> (#[trigger] data[i]).1.nan(),
    ensures
        plot_data::stat_texts(display, data, measure) == seq![display],
{
    let v = plot_data::present(data);
    order::lemma_ordered(v);
    if v.len() > 0 {
        plot_data::lemma_present_origin(data, 0);
    }
}

/// The header of a watch that has reported a number: its name, the last outcome, a number that was
/// reported and that none is below, one that none is above, the mean and the mean distance of the
/// numbers in order, the one that nineteen in twenty do not exceed, and how many outcomes are gaps.
pub proof fn lemma_header_lines(
    display: Seq<char>,
    data: Seq<(Float64, Float64)>,
    measure: Measure,
    least: int,
    greatest: int,
)
    requires
        0 <= least < data.len(),
        0 <= greatest < data.len(),
        !data[least].1.nan(),
        !data[greatest].1.nan(),
        forall|i: int|
            0 <= i < data.len() && !(#[trigger] data[i]).1.nan() ==> data[least].1.key()
                <= data[i].1.key() <= data[greatest].1.key(),
        order::one_zero(plot_data::present(data)),
    ensures
        ({
            let lines = plot_data::stat_texts(display, data, measure);
            let items = order::ordered(plot_data::present(data));
            &&& items.len() > 0
            &&& lines.len() == 8
            &&& lines[0] == display
            &&& lines[1] == "last "@ + measure.value_text(data[data.len() - 1].1)
            &&& lines[2] == "min "@ + measure.value_text(data[least].1)
            &&& lines[3] == "max "@ + measure.value_text(data[greatest].1)
            &&& lines[4] == "avg "@ + measure.value_text(plot_data::average(items))
            &&& lines[5] == "jtr "@ + measure.value_text(plot_data::jitter(items))
            &&& lines[6] == "p95 "@ + measure.value_text(
                items[plot_data::near_all_index(items.len()) as int],
            )
            &&& lines[7] == "t/o "@ + decimal::digits(plot_data::gap_count(data))
        }),
{
    let v = plot_data::present(data);
    let items = order::ordered(v);
    order::lemma_ordered(v);
    lemma_item_at(data, least);
    lemma_item_at(data, greatest);
    lemma_item_from(data, 0);
    lemma_item_from(data, items.len() - 1);
    let p = choose|p: int| 0 <= p < items.len() && #[trigger] items[p] == data[least].1;
    let q = choose|q: int| 0 <= q < items.len() && #[trigger] items[q] == data[greatest].1;
    assert(items[0].key() <= items[p].key());
    assert(items[q].key() <= items[items.len() - 1].key());
    let a = choose|a: int| 0 <= a < data.len() && (#[trigger] data[a]).1 == items[0];
    let z = choose|z: int| 0 <= z < data.len() && (#[trigger] data[z]).1 == items[items.len() - 1];
    assert(data[least].1.key() <= data[a].1.key());
    assert(data[z].1.key() <= data[greatest].1.key());
    lemma_same_item(data, a, least);
    lemma_same_item(data, z, greatest);
    lemma_header_parts(display, data, measure);
}

proof fn lemma_header_parts(display: Seq<char>, data: Seq<(Float64, Float64)>, measure: Measure)
    requires
        order::ordered(plot_data::present(data)).len() > 0,
    ensures
        ({
            let lines = plot_data::stat_texts(display, data, measure);
            let items = order::ordered(plot_data::present(data));
            &&& lines.len() == 8
            &&& lines[0] == display
            &&& lines[1] == "last "@ + measure.value_text(data[data.len() - 1].1)
            &&& lines[2] == "min "@ + measure.value_text(items[0])
            &&& lines[3] == "max "@ + measure.value_text(items[items.len() - 1])
            &&& lines[4] == "avg "@ + measure.value_text(plot_data::average(items))
            &&& lines[5] == "jtr "@ + measure.value_text(plot_data::jitter(items))
            &&& lines[6] == "p95 "@ + measure.value_text(
                items[plot_data::near_all_index(items.len()) as int],
            )
            &&& lines[7] == "t/o "@ + decimal::digits(plot_data::gap_count(data))
        }),
{
    let items = order::ordered(plot_data::present(data));
    let rest = plot_data::stat_lines(measure, data.last().1, items, plot_data::gap_count(data));
    let lines = plot_data::stat_texts(display, data, measure);
    assert(lines == seq![display] + rest);
    assert forall|i: int| 1 <= i < 8 implies lines[i] == rest[i - 1] by {}
}

/// A number that was reported is among the numbers in order.
proof fn lemma_item_at(data: Seq<(Float64, Float64)>, i: int)
    requires
        0 <= i < data.len(),
        !data[i].1.nan(),
        order::one_zero(plot_data::present(data)),
    ensures
        ({
            let items = order::ordered(plot_data::present(data));
            exists|p: int| 0 <= p < items.len() && #[trigger] items[p] == data[i].1
        }),
{
    let v = plot_data::present(data);
    let items = order::ordered(v);
    plot_data::lemma_present_contains(data, i);
    let k = choose|k: int| 0 <= k < v.len() && v[k] == data[i].1;
    order::lemma_ordered_finds(v, k);
    let p = choose|p: int| 0 <= p < items.len() && (#[trigger] items[p]).key() == v[k].key();
    order::lemma_ordered_member(v, p);
    let j = choose|j: int| 0 <= j < v.len() && v[j] == items[p];
    assert(v[j].key() == v[k].key());
    assert(v[j] == v[k]);
}

/// A number among those in order was reported.
proof fn lemma_item_from(data: Seq<(Float64, Float64)>, p: int)
    requires
        0 <= p < order::ordered(plot_data::present(data)).len(),
    ensures
        exists|a: int|
            0 <= a < data.len() && (#[trigger] data[a]).1 == order::ordered(
                plot_data::present(data),
            )[p],
        !order::ordered(plot_data::present(data))[p].nan(),
{
    let v = plot_data::present(data);
    let items = order::ordered(v);
    order::lemma_ordered_member(v, p);
    let j = choose|j: int| 0 <= j < v.len() && v[j] == items[p];
    plot_data::lemma_present_origin(data, j);
}

proof fn lemma_same_item(data: Seq<(Float64, Float64)>, i: int, j: int)
    requires
        0 <= i < data.len(),
        0 <= j < data.len(),
        !data[i].1.nan(),
        !data[j].1.nan(),
        data[i].1.key() == data[j].1.key(),
        order::one_zero(plot_data::present(data)),
    ensures
        data[i].1 == data[j].1,
{
    let v = plot_data::present(data);
    plot_data::lemma_present_contains(data, i);
    plot_data::lemma_present_contains(data, j);
    let p = choose|p: int| 0 <= p < v.len() && v[p] == data[i].1;
    let q = choose|q: int| 0 <= q < v.len() && v[q] == data[j].1;
    assert(v[p].key() == v[q].key());
}

/// The sum of the sizes of the values.
pub open spec fn sum_of_sizes(v: Seq<Float64>) -> int
    decreases v.len(),
{
    if v.len() == 0 {
        0
    } else {
        sum_of_sizes(v.drop_last()) + arithmetic::size(v.last().value())
    }
}

/// The sum of numbers is the sum of the values, up to a part in `2^52` of their sizes for each.
#[verifier::spinoff_prover]
pub proof fn lemma_total_error(v: Seq<Float64>)
    requires
        v.len() <= pow2(50),
        all_finite(v),
        sum_of_sizes(v) <= pow2(2000),
    ensures
        plot_data::total(v).finite(),
        arithmetic::size(sum_of_values(v)) <= sum_of_sizes(v),
        arithmetic::size(plot_data::total(v).value() - sum_of_values(v)) * pow2(53) <= 2 * (v.len()
            * sum_of_sizes(v)),
    decreases v.len(),
{
    if v.len() == 0 {
        arithmetic::lemma_zero_value(plot_data::total(v));
        assert(0 * pow2(53) == 0 && v.len() * sum_of_sizes(v) == 0) by (nonlinear_arith)
            requires
                v.len() == 0,
        ;
    } else {
        let front = v.drop_last();
        let x = v.last();
        assert(x == v[v.len() - 1]);
        assert forall|i: int| 0 <= i < front.len() implies (#[trigger] front[i]).finite() by {
            assert(front[i] == v[i]);
        }
        lemma_total_error(front);
        let t = plot_data::total(front);
        let n = front.len() as int;
        let a = sum_of_sizes(front);
        let b = sum_of_sizes(v);
        let e = arithmetic::size(t.value() - sum_of_values(front));
        lemma2_to64();
        lemma2_to64_rest();
        let k: int = 0x20_0000_0000_0000;
        assert(n * a <= n * b) by (nonlinear_arith)
            requires
                a <= b,
                n >= 0,
        ;
        assert(2 * (n * a) <= k * a) by (nonlinear_arith)
            requires
                2 * n <= k,
                a >= 0,
        ;
        assert(e <= a) by (nonlinear_arith)
            requires
                e * k <= k * a,
                k > 0,
        ;
        lemma_pow2_unfold(2001);
        arithmetic::lemma_sum_at_most(t, x, 2001);
        arithmetic::lemma_sum_error(t, x);
        let s = plot_data::total(v);
        let d = arithmetic::size(s.value() - (t.value() + x.value()));
        assert(d * k <= b + e);
        let w = arithmetic::size(s.value() - sum_of_values(v));
        assert(w <= d + e);
        assert(v.len() * b == n * b + b) by (nonlinear_arith)
            requires
                v.len() == n + 1,
        ;
        assert(w * k <= 2 * (n * b) + 2 * b) by (nonlinear_arith)
            requires
                w <= d + e,
                d * k <= b + e,
                e * k <= 2 * (n * b),
                e <= b,
                k > 0,
        ;
    }
}

/// The mean of numbers is the mean of the values, up to a part in `2^52` of their sizes for each
/// and one more.
pub proof fn lemma_average_error(v: Seq<Float64>)
    requires
        0 < v.len() <= pow2(50),
        all_finite(v),
        sum_of_sizes(v) <= pow2(2000),
    ensures
        plot_data::average(v).finite(),
        arithmetic::size(v.len() * plot_data::average(v).value() - sum_of_values(v)) * pow2(53) <= 2
            * (v.len() * sum_of_sizes(v)) + 2 * sum_of_sizes(v) + v.len() * pow2(52),
{
    let t = plot_data::total(v);
    let n = v.len() as int;
    let a = sum_of_sizes(v);
    lemma2_to64();
    lemma2_to64_rest();
    lemma_total_error(v);
    arithmetic::lemma_whole_quotient_error(t, n);
    lemma_joined_error(
        n * plot_data::average(v).value(),
        t.value(),
        sum_of_values(v),
        n,
        a,
    );
}

proof fn lemma_joined_error(q: int, t: int, s: int, n: int, a: int)
    requires
        0 < n <= pow2(50),
        a >= 0,
        arithmetic::size(s) <= a,
        arithmetic::size(t - s) * pow2(53) <= 2 * (n * a),
        arithmetic::size(q - t) * pow2(53) <= arithmetic::size(t) + n * pow2(52),
    ensures
        arithmetic::size(q - s) * pow2(53) <= 2 * (n * a) + 2 * a + n * pow2(52),
{
    lemma2_to64();
    lemma2_to64_rest();
    let k: int = 0x20_0000_0000_0000;
    let e = arithmetic::size(t - s);
    assert(2 * (n * a) <= k * a) by (nonlinear_arith)
        requires
            2 * n <= k,
            a >= 0,
    ;
    assert(e <= a) by (nonlinear_arith)
        requires
            e * k <= k * a,
            k > 0,
    ;
}

/// The steps between numbers in order add up to the distance from the first to the last, up to a
/// part of that in `2^53`.
proof fn lemma_steps_error(v: Seq<Float64>, k: int)
    requires
        all_finite(v),
        order::ascending(v),
        0 <= k < v.len(),
        arithmetic::size(v.first().value()) <= pow2(1998),
        arithmetic::size(v.last().value()) <= pow2(1998),
    ensures
        ({
            let s = plot_data::steps(v).take(k);
            let reach = v[k].value() - v[0].value();
            &&& all_finite(s)
            &&& sum_of_sizes(s) == sum_of_values(s)
            &&& reach >= 0
            &&& arithmetic::size(sum_of_values(s) - reach) * pow2(53) <= reach
        }),
    decreases k,
{
    let all = plot_data::steps(v);
    let s = all.take(k);
    if k == 0 {
        assert(0 * pow2(53) == 0) by (nonlinear_arith);
    } else {
        let i = k - 1;
        let before = all.take(i);
        lemma_steps_error(v, i);
        assert(s.drop_last() =~= before);
        assert(s.last() == all[i]);
        let a = v[i + 1];
        let c = v[i];
        let d = float::difference(a, c);
        assert(v[0].key() <= c.key() && c.key() <= a.key() && a.key() <= v[v.len() - 1].key());
        assert(v[0].finite() && v[v.len() - 1].finite() && a.finite() && c.finite());
        arithmetic::lemma_order(c, a);
        arithmetic::lemma_order(v[0], c);
        arithmetic::lemma_order(a, v[v.len() - 1]);
        lemma_pow2_unfold(1999);
        arithmetic::lemma_negated(c);
        arithmetic::lemma_sum_at_most(a, float::negated(c), 1999);
        arithmetic::lemma_difference_error(a, c);
        arithmetic::lemma_signed(false, d.magnitude());
        lemma2_to64_rest();
        let gap = a.value() - c.value();
        let e = arithmetic::size(d.value() - gap);
        assert(e <= gap) by (nonlinear_arith)
            requires
                e * pow2(53) <= gap,
                pow2(53) >= 1,
                e >= 0,
        ;
        assert(d.value() >= 0);
        arithmetic::lemma_zero_sign(d);
        assert(all[i].value() == d.value());
        assert forall|j: int| 0 <= j < s.len() implies (#[trigger] s[j]).finite() by {
            if j < i {
                assert(s[j] == before[j]);
            }
        }
        let f = arithmetic::size(sum_of_values(before) - (c.value() - v[0].value()));
        let w = arithmetic::size(sum_of_values(s) - (a.value() - v[0].value()));
        assert(w <= e + f);
        assert(w * pow2(53) <= a.value() - v[0].value()) by (nonlinear_arith)
            requires
                w <= e + f,
                e * pow2(53) <= gap,
                f * pow2(53) <= c.value() - v[0].value(),
                gap == a.value() - c.value(),
        ;
    }
}

/// The mean distance of neighbours in order is the distance from the first to the last shared out
/// evenly, up to a part of that in `2^51` for each.
pub proof fn lemma_jitter_error(v: Seq<Float64>)
    requires
        2 <= v.len() <= pow2(50),
        all_finite(v),
        order::ascending(v),
        arithmetic::size(v.first().value()) <= pow2(1998),
        arithmetic::size(v.last().value()) <= pow2(1998),
    ensures
        ({
            let reach = v.last().value() - v.first().value();
            &&& plot_data::jitter(v).finite()
            &&& arithmetic::size((v.len() - 1) * plot_data::jitter(v).value() - reach) * pow2(53)
                <= 4 * (v.len() * reach) + 8 * reach + v.len() * pow2(52)
        }),
{
    let s = plot_data::steps(v);
    let n = v.len() - 1;
    let reach = v.last().value() - v.first().value();
    lemma_steps_error(v, n);
    assert(s.take(n) =~= s);
    lemma2_to64();
    lemma2_to64_rest();
    lemma_pow2_unfold(1999);
    lemma_pow2_unfold(2000);
    let a = sum_of_sizes(s);
    let w = arithmetic::size(a - reach);
    let k: int = 0x20_0000_0000_0000;
    assert(w <= reach) by (nonlinear_arith)
        requires
            w * k <= reach,
            k >= 1,
            w >= 0,
    ;
    assert(a <= 2 * reach);
    lemma_total_error(s);
    lemma_average_error(s);
    let q = n * plot_data::average(s).value();
    assert(n * a <= 2 * (n * reach)) by (nonlinear_arith)
        requires
            a <= 2 * reach,
            n >= 0,
    ;
    assert(v.len() * reach == n * reach + reach) by (nonlinear_arith)
        requires
            v.len() == n + 1,
    ;
    assert(v.len() * pow2(52) == n * pow2(52) + pow2(52)) by (nonlinear_arith)
        requires
            v.len() == n + 1,
    ;
    assert(arithmetic::size(q - reach) <= arithmetic::size(q - a) + w);
}

} // verus!
