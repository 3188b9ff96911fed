//! What the graph keeps: its axes lie around what they show, moving lines to another axis keeps
//! their order and their gaps, and everything is drawn inside.

use crate::arithmetic;
use crate::chart;
use crate::chart::Bounds;
use crate::clock;
use crate::float;
use crate::float::Float64;
use crate::measure::{AxisSide, Measure};
use crate::order;
use crate::plot_data;
use crate::plot_data::PlotData;
use crate::rounding;
use vstd::arithmetic::power2::*;
use vstd::prelude::*;

verus! {

/// Whether the numbers are finite.
pub open spec fn all_finite(values: Seq<Float64>) -> bool {
    forall|i: int| 0 <= i < values.len() ==> (#[trigger] values[i]).finite()
}

/// The ends of an axis lie around the numbers that it is for.
pub proof fn lemma_bounds_around_values(values: Seq<Float64>)
    requires
        values.len() > 0,
        all_finite(values),
    ensures
        !chart::value_bounds(values).low.nan(),
        !chart::value_bounds(values).high.nan(),
        forall|i: int|
            0 <= i < values.len() ==> chart::value_bounds(values).low.key() <= (#[trigger]
            values[i]).key() <= chart::value_bounds(values).high.key(),
{
    order::lemma_extremes(values);
    let min = order::least(values);
    let max = order::greatest(values);
    assert(min.finite() && max.finite() && min.key() <= max.key()) by {
        let i = choose|i: int| 0 <= i < values.len() && values[i] == min;
        let j = choose|j: int| 0 <= j < values.len() && values[j] == max;
        assert(values[i].finite() && values[j].finite());
        assert(values[i].key() <= max.key());
    }
    lemma_padding(min, max);
    arithmetic::lemma_padded(min, chart::padding(min, max));
    arithmetic::lemma_padded(max, chart::padding(min, max));
}

/// What is left free is not negative.
proof fn lemma_padding(min: Float64, max: Float64)
    requires
        min.finite(),
        max.finite(),
        min.key() <= max.key(),
    ensures
        !chart::padding(min, max).nan(),
        chart::padding(min, max).key() >= 0,
{
    let tenth = Float64 { bits: chart::TENTH_BITS };
    if !chart::close(min, max) {
        let span = float::difference(max, min);
        arithmetic::lemma_difference_key(max, min);
        arithmetic::lemma_order(min, max);
        arithmetic::lemma_nearest_key_monotone(0, max.value() - min.value());
        lemma_zero_key();
        if span.finite() {
            arithmetic::lemma_product_key(span, tenth);
        }
    } else if !float::less(float::absolute(min), Float64 { bits: float::ONE_BITS }) {
        arithmetic::lemma_product_key(float::absolute(min), tenth);
    }
}

proof fn lemma_zero_key()
    ensures
        arithmetic::nearest_key(0) == 0,
{
    let zero = Float64 { bits: 0 };
    arithmetic::lemma_difference_itself(zero);
    arithmetic::lemma_difference_key(zero, zero);
}

/// What a watch has reported is among what the watches on its side have reported.
pub proof fn lemma_value_on_axis(plots: Seq<PlotData>, i: int, j: int)
    requires
        0 <= i < plots.len(),
        0 <= j < plots[i].data@.len(),
        !plots[i].data@[j].1.nan(),
    ensures
        chart::axis_values(plots, plots[i].axis).contains(plots[i].data@[j].1),
    decreases plots.len(),
{
    let x = plots[i].data@[j].1;
    let axis = plots[i].axis;
    let front = chart::axis_values(plots.drop_last(), axis);
    let all = chart::axis_values(plots, axis);
    if i == plots.len() - 1 {
        plot_data::lemma_present_contains(plots[i].data@, j);
        let more = plot_data::present(plots[i].data@);
        let k = choose|k: int| 0 <= k < more.len() && more[k] == x;
        assert(all[front.len() + k] == x);
    } else {
        assert(plots.drop_last()[i] == plots[i]);
        lemma_value_on_axis(plots.drop_last(), i, j);
        let k = choose|k: int| 0 <= k < front.len() && front[k] == x;
        assert(all[k] == x);
    }
}

/// What a watch has reported lies between the ends of its axis, where only finite numbers were
/// reported on its side.
pub proof fn lemma_axis_around_points(plots: Seq<PlotData>, i: int, j: int)
    requires
        0 <= i < plots.len(),
        0 <= j < plots[i].data@.len(),
        !plots[i].data@[j].1.nan(),
        all_finite(chart::axis_values(plots, plots[i].axis)),
    ensures
        chart::axis_bounds(plots, plots[i].axis) matches Some(b) && b.low.key()
            <= plots[i].data@[j].1.key() <= b.high.key(),
{
    let values = chart::axis_values(plots, plots[i].axis);
    lemma_value_on_axis(plots, i, j);
    lemma_bounds_around_values(values);
    let k = choose|k: int| 0 <= k < values.len() && values[k] == plots[i].data@[j].1;
    assert(values[k].key() <= chart::value_bounds(values).high.key());
}

/// Gaps stay gaps when points are moved to another axis, and no time changes.
pub proof fn lemma_gaps_stay(data: Seq<(Float64, Float64)>, src: Bounds, dst: Bounds, i: int)
    requires
        0 <= i < data.len(),
    ensures
        chart::remapped_series(data, src, dst).len() == data.len(),
        chart::remapped_series(data, src, dst)[i].0 == data[i].0,
        data[i].1.nan() ==> chart::remapped_series(data, src, dst)[i].1.nan(),
{
}

/// The lower end of an axis is moved to the lower end of the other.
pub proof fn lemma_remap_low(src: Bounds, dst: Bounds)
    requires
        src.low.finite(),
        src.high.finite(),
        !chart::close(src.low, src.high),
        dst.low.finite(),
        float::difference(dst.high, dst.low).finite(),
    ensures
        chart::remapped(src.low, src, dst).key() == dst.low.key(),
{
    let span = float::difference(src.high, src.low);
    let zero = float::difference(src.low, src.low);
    arithmetic::lemma_difference_key(src.high, src.low);
    arithmetic::lemma_difference_itself(src.low);
    let ratio = float::quotient(zero, span);
    arithmetic::lemma_quotient_zero(zero, span);
    let step = float::product(ratio, float::difference(dst.high, dst.low));
    arithmetic::lemma_product_zero(float::difference(dst.high, dst.low), ratio);
    arithmetic::lemma_sum_zero(dst.low, step);
}

/// The upper end of an axis is moved as far from the lower end of the other as its own upper end
/// is.
pub proof fn lemma_remap_high(src: Bounds, dst: Bounds)
    requires
        src.low.finite(),
        src.high.finite(),
        src.low.key() <= src.high.key(),
        float::difference(src.high, src.low).finite(),
        !chart::close(src.low, src.high),
        float::difference(dst.high, dst.low).finite(),
    ensures
        chart::remapped(src.high, src, dst) == float::sum(
            dst.low,
            float::difference(dst.high, dst.low),
        ),
{
    lemma_span_positive(src);
    arithmetic::lemma_quotient_itself(float::difference(src.high, src.low));
    arithmetic::lemma_product_one(float::difference(dst.high, dst.low));
}

proof fn lemma_span_positive(src: Bounds)
    requires
        src.low.finite(),
        src.high.finite(),
        src.low.key() <= src.high.key(),
        !chart::close(src.low, src.high),
    ensures
        float::difference(src.high, src.low).key() > 0,
{
    let span = float::difference(src.high, src.low);
    arithmetic::lemma_difference_key(src.high, src.low);
    arithmetic::lemma_order(src.low, src.high);
    arithmetic::lemma_nearest_key_monotone(0, src.high.value() - src.low.value());
    lemma_zero_key();
    assert(float::absolute(span).key() == span.magnitude());
}

/// Moving numbers from one axis to another keeps their order, wherever they lie and also where a
/// result is too large to be finite. Where all are moved to the same place, their own places have
/// to be finite.
pub proof fn lemma_remap_keeps_order(a: Float64, b: Float64, src: Bounds, dst: Bounds)
    requires
        src.low.finite(),
        src.high.finite(),
        src.low.key() <= src.high.key(),
        float::difference(src.high, src.low).finite(),
        !chart::close(src.low, src.high),
        dst.low.finite(),
        float::difference(dst.high, dst.low).finite(),
        float::difference(dst.high, dst.low).key() >= 0,
        !a.nan(),
        !b.nan(),
        a.key() <= b.key(),
        float::difference(dst.high, dst.low).zero() ==> place(a, src).finite() && place(
            b,
            src,
        ).finite(),
    ensures
        !chart::remapped(a, src, dst).nan(),
        !chart::remapped(b, src, dst).nan(),
        chart::remapped(a, src, dst).key() <= chart::remapped(b, src, dst).key(),
{
    let span = float::difference(src.high, src.low);
    let width = float::difference(dst.high, dst.low);
    let ra = place(a, src);
    let rb = place(b, src);
    arithmetic::lemma_negated(src.low);
    lemma_span_positive(src);
    arithmetic::lemma_sum_order(a, b, float::negated(src.low));
    arithmetic::lemma_quotient_order(
        float::difference(a, src.low),
        float::difference(b, src.low),
        span,
    );
    if width.zero() {
        arithmetic::lemma_product_zero(ra, width);
        arithmetic::lemma_product_zero(rb, width);
        arithmetic::lemma_sum_zero(dst.low, float::product(ra, width));
        arithmetic::lemma_sum_zero(dst.low, float::product(rb, width));
    } else {
        arithmetic::lemma_product_order(ra, rb, width);
        arithmetic::lemma_sum_order(
            float::product(ra, width),
            float::product(rb, width),
            dst.low,
        );
    }
}

/// Where a number lies on an axis: zero at the lower end, one at the upper.
pub open spec fn place(value: Float64, axis: Bounds) -> Float64 {
    float::quotient(
        float::difference(value, axis.low),
        float::difference(axis.high, axis.low),
    )
}

/// Numbers between the ends of an axis that are moved to another axis lie between its ends.
pub proof fn lemma_remap_inside(x: Float64, src: Bounds, dst: Bounds)
    requires
        src.low.finite(),
        src.high.finite(),
        x.finite(),
        src.low.key() <= x.key() <= src.high.key(),
        float::difference(src.high, src.low).finite(),
        !chart::close(src.low, src.high),
        dst.low.finite(),
        float::difference(dst.high, dst.low).finite(),
        float::difference(dst.high, dst.low).key() >= 0,
    ensures
        !chart::remapped(x, src, dst).nan(),
        dst.low.key() <= chart::remapped(x, src, dst).key() <= float::sum(
            dst.low,
            float::difference(dst.high, dst.low),
        ).key(),
{
    let minus_low = float::negated(src.low);
    let span = float::difference(src.high, src.low);
    let zero = float::difference(src.low, src.low);
    arithmetic::lemma_negated(src.low);
    lemma_span_positive(src);
    // The places of the lower end, the number and the upper end are in order and finite.
    arithmetic::lemma_sum_order(src.low, x, minus_low);
    arithmetic::lemma_sum_order(x, src.high, minus_low);
    arithmetic::lemma_difference_itself(src.low);
    arithmetic::lemma_quotient_zero(zero, span);
    arithmetic::lemma_quotient_itself(span);
    arithmetic::lemma_quotient_order(zero, float::difference(x, src.low), span);
    arithmetic::lemma_quotient_order(float::difference(x, src.low), span, span);
    assert(0 <= place(x, src).key() <= float::ONE_BITS);
    lemma_remap_low(src, dst);
    lemma_remap_high(src, dst);
    lemma_remap_keeps_order(src.low, x, src, dst);
    lemma_remap_keeps_order(x, src.high, src, dst);
}

/// The lowest label of an axis stands at its lower end.
pub proof fn lemma_lowest_label(bounds: Bounds)
    requires
        bounds.low.finite(),
        float::difference(bounds.high, bounds.low).finite(),
    ensures
        chart::label_value(bounds, 0).key() == bounds.low.key(),
{
    let span = float::difference(bounds.high, bounds.low);
    let six = float::from_whole(chart::LABEL_COUNT - 1);
    let zero = float::from_whole(0);
    arithmetic::lemma_whole_zero();
    arithmetic::lemma_quotient_by_whole(span, (chart::LABEL_COUNT - 1) as nat);
    arithmetic::lemma_product_zero(float::quotient(span, six), zero);
    arithmetic::lemma_sum_zero(bounds.low, float::product(float::quotient(span, six), zero));
}

/// The time axis is always as long as the graph, and `now` is on it.
pub proof fn lemma_shown_window(started: int, interval: int, now: int)
    requires
        started <= now,
        interval >= 0,
    ensures
        ({
            let (before, after) = chart::shown_millis(started, interval, now);
            after - before == interval && before <= now <= after && started <= before
        }),
{
}

/// Ends that are not near each other can be told apart.
proof fn lemma_apart(low: Float64, high: Float64, at_least: Float64)
    requires
        !low.nan(),
        !high.nan(),
        low.infinite() ==> low.negative(),
        high.infinite() ==> !high.negative(),
        at_least.finite(),
        at_least.key() >= chart::EPSILON_BITS,
        low.finite() && high.finite() ==> low.value() + at_least.value() <= high.value(),
    ensures
        !chart::close(low, high),
{
    let span = float::difference(high, low);
    arithmetic::lemma_negated(low);
    if low.finite() && high.finite() {
        arithmetic::lemma_difference_key(high, low);
        arithmetic::lemma_nearest_key_exact(at_least);
        arithmetic::lemma_nearest_key_monotone(at_least.value(), high.value() - low.value());
    }
    assert(span.key() >= chart::EPSILON_BITS);
    assert(float::absolute(span).key() == span.magnitude());
}

proof fn lemma_epsilon()
    ensures
        (Float64 { bits: chart::EPSILON_BITS }).value() == pow2(1022),
        pow2(1022) <= float::one_in_units(),
        16 * (Float64 { bits: chart::TENTH_BITS }).units() >= float::one_in_units(),
{
    lemma2_to64();
    lemma2_to64_rest();
    assert(0x3cb0_0000_0000_0000nat / 0x10_0000_0000_0000nat == 0x3cb);
    lemma_pow2_adds(52, 970);
    rounding::lemma_pow2_le(1022, 1074);
    // One sixteenth is below one tenth.
    let sixteenth: nat = 0x3fb0_0000_0000_0000;
    assert(0x3fb0_0000_0000_0000nat / 0x10_0000_0000_0000nat == 0x3fb);
    lemma_pow2_adds(52, 1018);
    lemma_pow2_adds(1070, 4);
    assert(rounding::units(sixteenth, 52) == pow2(1070));
    rounding::lemma_units_increase(sixteenth, chart::TENTH_BITS as nat, 52);
}

/// The ends of an axis lie around the numbers, each on its side.
proof fn lemma_normalized(min: Float64, max: Float64)
    requires
        min.finite(),
        max.finite(),
        min.key() <= max.key(),
    ensures
        ({
            let bounds = chart::normalized(min, max);
            &&& !bounds.low.nan()
            &&& !bounds.high.nan()
            &&& bounds.low.infinite() ==> bounds.low.negative()
            &&& bounds.high.infinite() ==> !bounds.high.negative()
            &&& bounds.low.finite() ==> bounds.low.value() <= min.value()
            &&& bounds.high.finite() ==> max.value() <= bounds.high.value()
            &&& min.value() <= max.value()
        }),
{
    let low = chart::normalized(min, max).low;
    let high = chart::normalized(min, max).high;
    lemma_padding(min, max);
    arithmetic::lemma_padded(min, chart::padding(min, max));
    arithmetic::lemma_padded(max, chart::padding(min, max));
    arithmetic::lemma_order(min, max);
    if high.finite() {
        arithmetic::lemma_order(max, high);
    }
    if low.finite() {
        arithmetic::lemma_order(low, min);
    }
}

/// What lies around numbers that can be told apart can be told apart.
proof fn lemma_around_apart(low: Float64, min: Float64, max: Float64, high: Float64)
    requires
        low.finite(),
        min.finite(),
        max.finite(),
        high.finite(),
        low.value() <= min.value() <= max.value() <= high.value(),
        !chart::close(min, max),
    ensures
        !chart::close(low, high),
{
    let span = float::difference(max, min);
    let wide = float::difference(high, low);
    lemma_zero_key();
    arithmetic::lemma_difference_key(max, min);
    arithmetic::lemma_difference_key(high, low);
    arithmetic::lemma_nearest_key_monotone(0, max.value() - min.value());
    arithmetic::lemma_nearest_key_monotone(max.value() - min.value(), high.value() - low.value());
    lemma_absolute_key(span);
    lemma_absolute_key(wide);
}

proof fn lemma_absolute_key(x: Float64)
    requires
        !x.nan(),
        x.key() >= 0,
    ensures
        float::absolute(x).key() == x.key(),
        !float::absolute(x).nan(),
{
}

proof fn lemma_near_zero(min: Float64, max: Float64)
    requires
        min.finite(),
        max.finite(),
        min.value() <= max.value(),
        -float::one_in_units() < min.value() < float::one_in_units(),
        float::difference(min, Float64 { bits: float::ONE_BITS }).finite(),
        float::sum(max, Float64 { bits: float::ONE_BITS }).finite(),
    ensures
        float::difference(min, Float64 { bits: float::ONE_BITS }).value() + float::one_in_units()
            <= float::sum(max, Float64 { bits: float::ONE_BITS }).value(),
{
    let one = Float64 { bits: float::ONE_BITS };
    let zero = Float64 { bits: 0 };
    let minus_one = float::negated(one);
    let low = float::difference(min, one);
    let high = float::sum(max, one);
    arithmetic::lemma_one();
    arithmetic::lemma_zero_value(zero);
    arithmetic::lemma_negated(one);
    arithmetic::lemma_difference_key(min, one);
    arithmetic::lemma_sum_key(max, one);
    lemma_zero_key();
    if min.value() >= 0 {
        arithmetic::lemma_nearest_key_monotone(min.value() - one.value(), 0);
        arithmetic::lemma_nearest_key_exact(one);
        arithmetic::lemma_nearest_key_monotone(one.value(), max.value() + one.value());
        arithmetic::lemma_order(low, zero);
        arithmetic::lemma_order(one, high);
    } else {
        arithmetic::lemma_nearest_key_exact(minus_one);
        arithmetic::lemma_nearest_key_monotone(min.value() - one.value(), minus_one.value());
        arithmetic::lemma_nearest_key_monotone(0, max.value() + one.value());
        arithmetic::lemma_order(low, minus_one);
        arithmetic::lemma_order(zero, high);
    }
}

/// The ends of an axis for finite numbers can always be told apart.
#[verifier::spinoff_prover]
#[verifier::rlimit(50)]
pub proof fn lemma_bounds_apart(min: Float64, max: Float64)
    requires
        min.finite(),
        max.finite(),
        min.key() <= max.key(),
    ensures
        !chart::close(chart::normalized(min, max).low, chart::normalized(min, max).high),
{
    let low = chart::normalized(min, max).low;
    let high = chart::normalized(min, max).high;
    let one = Float64 { bits: float::ONE_BITS };
    let size = float::absolute(min);
    lemma_normalized(min, max);
    arithmetic::lemma_one();
    if !low.finite() || !high.finite() {
        lemma_apart(low, high, one);
    } else if !chart::close(min, max) {
        lemma_around_apart(low, min, max, high);
    } else if float::less(size, one) {
        arithmetic::lemma_order(size, one);
        assert(size.value() == min.units());
        lemma_near_zero(min, max);
        lemma_apart(low, high, one);
    } else {
        lemma_epsilon();
        arithmetic::lemma_less_a_tenth(min, Float64 { bits: chart::TENTH_BITS });
        lemma_apart(low, high, Float64 { bits: chart::EPSILON_BITS });
    }
}

/// Whether the ends of an axis and the distance between them are finite.
pub open spec fn countable(bounds: Bounds) -> bool {
    bounds.low.finite() && bounds.high.finite() && float::difference(
        bounds.high,
        bounds.low,
    ).finite()
}

/// Both axes show everything: where only finite numbers are reported, and the axes are not too
/// long to be counted, every number is drawn between the ends of the axis that the graph is drawn
/// with, whichever side its watch is on. The upper end is as exact as its distance from the lower
/// one.
pub proof fn lemma_drawn_inside(plots: Seq<PlotData>, i: int, j: int)
    requires
        0 <= i < plots.len(),
        0 <= j < plots[i].data@.len(),
        !plots[i].data@[j].1.nan(),
        all_finite(chart::axis_values(plots, AxisSide::Left)),
        all_finite(chart::axis_values(plots, AxisSide::Right)),
        countable(chart::main_bounds(plots)),
        chart::axis_bounds(plots, plots[i].axis) matches Some(b) && countable(b),
    ensures
        ({
            let y = chart::drawn_points(plots, i)[j].1;
            let main = chart::main_bounds(plots);
            let top = float::sum(main.low, float::difference(main.high, main.low));
            &&& !y.nan()
            &&& main.low.key() <= y.key()
            &&& y.key() <= main.high.key() || y.key() <= top.key()
        }),
{
    let x = plots[i].data@[j].1;
    let axis = plots[i].axis;
    let values = chart::axis_values(plots, axis);
    let main = chart::main_bounds(plots);
    assert(plots[i].axis == axis);
    lemma_axis_around_points(plots, i, j);
    if axis != chart::main_axis(plots) {
        let second = chart::value_bounds(values);
        let first = chart::axis_values(plots, chart::main_axis(plots));
        assert(chart::on_axis(plots, chart::main_axis(plots)));
        lemma_value_on_axis(plots, i, j);
        let k = choose|k: int| 0 <= k < values.len() && values[k] == x;
        assert(values[k].finite());
        lemma_value_bounds_apart(values);
        lemma_value_bounds_apart(first);
        lemma_span_positive(main);
        lemma_remap_inside(x, second, main);
    }
}

/// The ends of an axis are in order, and can be told apart.
proof fn lemma_value_bounds_apart(values: Seq<Float64>)
    requires
        all_finite(values),
        chart::value_bounds(values).low.finite(),
        chart::value_bounds(values).high.finite(),
    ensures
        chart::value_bounds(values).low.key() <= chart::value_bounds(values).high.key(),
        !chart::close(chart::value_bounds(values).low, chart::value_bounds(values).high),
{
    let zero = Float64 { bits: 0 };
    let one = Float64 { bits: float::ONE_BITS };
    let (min, max) = if values.len() == 0 {
        (zero, one)
    } else {
        (order::least(values), order::greatest(values))
    };
    if values.len() > 0 {
        order::lemma_extremes(values);
        let i = choose|i: int| 0 <= i < values.len() && values[i] == min;
        let j = choose|j: int| 0 <= j < values.len() && values[j] == max;
        assert(values[i].finite() && values[j].finite());
        assert(values[i].key() <= max.key());
    }
    lemma_bounds_apart(min, max);
    lemma_normalized(min, max);
    arithmetic::lemma_order(chart::value_bounds(values).low, chart::value_bounds(values).high);
}

/// The watches that are shown on a side.
pub open spec fn shown_on(axis: AxisSide) -> spec_fn(PlotData) -> bool {
    |plot: PlotData| plot.axis == axis
}

/// What is known of a side is known from the watches on it.
proof fn lemma_side_alone(plots: Seq<PlotData>, axis: AxisSide)
    ensures
        ({
            let side = plots.filter(shown_on(axis));
            &&& chart::axis_values(plots, axis) == chart::axis_values(side, axis)
            &&& chart::on_axis(plots, axis) == chart::on_axis(side, axis)
            &&& forall|m: Measure| #[trigger]
                chart::measures_on(plots, axis, m) == chart::measures_on(side, axis, m)
        }),
    decreases plots.len(),
{
    reveal(Seq::filter);
    let side = plots.filter(shown_on(axis));
    if plots.len() > 0 {
        let front = plots.drop_last();
        let last = plots.last();
        let part = front.filter(shown_on(axis));
        lemma_side_alone(front, axis);
        lemma_one_more(front, last, axis);
        assert(front.push(last) =~= plots);
        if last.axis == axis {
            lemma_one_more(part, last, axis);
        }
        assert forall|m: Measure| #[trigger]
            chart::measures_on(plots, axis, m) == chart::measures_on(side, axis, m) by {
            assert(chart::measures_on(front, axis, m) == chart::measures_on(part, axis, m));
        }
    }
}

proof fn lemma_one_more(plots: Seq<PlotData>, plot: PlotData, axis: AxisSide)
    ensures
        chart::axis_values(plots.push(plot), axis) == if plot.axis == axis {
            chart::axis_values(plots, axis) + plot_data::present(plot.data@)
        } else {
            chart::axis_values(plots, axis)
        },
        chart::on_axis(plots.push(plot), axis) <==> chart::on_axis(plots, axis) || plot.axis
            == axis,
        forall|m: Measure| #[trigger]
            chart::measures_on(plots.push(plot), axis, m) <==> chart::measures_on(plots, axis, m)
                || (plot.axis == axis && plot.measure == m),
{
    let all = plots.push(plot);
    let n = plots.len() as int;
    assert(all.drop_last() =~= plots);
    assert(all[n] == plot);
    if chart::on_axis(plots, axis) {
        let i = choose|i: int| 0 <= i < plots.len() && (#[trigger] plots[i]).axis == axis;
        assert(all[i].axis == axis);
    }
    if chart::on_axis(all, axis) && plot.axis != axis {
        let i = choose|i: int| 0 <= i < all.len() && (#[trigger] all[i]).axis == axis;
        assert(plots[i].axis == axis);
    }
    assert forall|m: Measure| #[trigger]
        chart::measures_on(all, axis, m) <==> chart::measures_on(plots, axis, m) || (plot.axis
            == axis && plot.measure == m) by {
        if chart::measures_on(plots, axis, m) {
            let i = choose|i: int|
                0 <= i < plots.len() && (#[trigger] plots[i]).axis == axis && plots[i].measure == m;
            assert(all[i].axis == axis && all[i].measure == m);
        }
        if chart::measures_on(all, axis, m) && !(plot.axis == axis && plot.measure == m) {
            let i = choose|i: int|
                0 <= i < all.len() && (#[trigger] all[i]).axis == axis && all[i].measure == m;
            assert(plots[i].axis == axis && plots[i].measure == m);
        }
    }
}

/// Each axis has its own scale: its ends, and what is measured on it, depend on the watches on
/// its side alone.
pub proof fn lemma_scales_independent(
    plots: Seq<PlotData>,
    others: Seq<PlotData>,
    axis: AxisSide,
)
    requires
        plots.filter(shown_on(axis)) == others.filter(shown_on(axis)),
    ensures
        chart::axis_bounds(plots, axis) == chart::axis_bounds(others, axis),
        chart::common_measure(plots, axis) == chart::common_measure(others, axis),
{
    lemma_side_alone(plots, axis);
    lemma_side_alone(others, axis);
    let side = plots.filter(shown_on(axis));
    assert(chart::measures_on(plots, axis, Measure::Float) == chart::measures_on(
        side,
        axis,
        Measure::Float,
    ));
    assert(chart::measures_on(plots, axis, Measure::Bytes) == chart::measures_on(
        side,
        axis,
        Measure::Bytes,
    ));
    assert(chart::measures_on(others, axis, Measure::Float) == chart::measures_on(
        side,
        axis,
        Measure::Float,
    ));
    assert(chart::measures_on(others, axis, Measure::Bytes) == chart::measures_on(
        side,
        axis,
        Measure::Bytes,
    ));
}

proof fn lemma_filter_without(plots: Seq<PlotData>, i: int, plot: PlotData, axis: AxisSide)
    requires
        0 <= i < plots.len(),
        plots[i].axis != axis,
        plot.axis != axis,
    ensures
        plots.update(i, plot).filter(shown_on(axis)) == plots.filter(shown_on(axis)),
    decreases plots.len(),
{
    reveal(Seq::filter);
    let changed = plots.update(i, plot);
    if i < plots.len() - 1 {
        lemma_filter_without(plots.drop_last(), i, plot, axis);
        assert(changed.drop_last() =~= plots.drop_last().update(i, plot));
    } else {
        assert(changed.drop_last() =~= plots.drop_last());
    }
}

/// What a watch on one side reports does not change the scale of the other.
pub proof fn lemma_other_side_ignored(
    plots: Seq<PlotData>,
    i: int,
    plot: PlotData,
    axis: AxisSide,
)
    requires
        0 <= i < plots.len(),
        plots[i].axis != axis,
        plot.axis != axis,
    ensures
        chart::axis_bounds(plots.update(i, plot), axis) == chart::axis_bounds(plots, axis),
        chart::common_measure(plots.update(i, plot), axis) == chart::common_measure(plots, axis),
{
    lemma_filter_without(plots, i, plot, axis);
    lemma_scales_independent(plots.update(i, plot), plots, axis);
}

/// The labels of an axis stand at even distances: up to rounding, label `i` is `i` sixths of the
/// way from the lower end to the upper, and so the last one is the upper end.
#[verifier::spinoff_prover]
#[verifier::rlimit(60)]
pub proof fn lemma_labels_even(bounds: Bounds, i: int)
    requires
        arithmetic::moderate(bounds.low),
        arithmetic::moderate(bounds.high),
        0 <= i <= 6,
    ensures
        ({
            let label = chart::label_value(bounds, i);
            let low = bounds.low.value();
            let high = bounds.high.value();
            &&& label.finite()
            &&& arithmetic::size(6 * label.value() - ((6 - i) * low + i * high)) * pow2(53) <= 64 * (
            arithmetic::size(low) + arithmetic::size(high)) + pow2(60)
        }),
{
    let low = bounds.low;
    let high = bounds.high;
    let span = float::difference(high, low);
    let six = float::from_whole(chart::LABEL_COUNT - 1);
    let inc = float::quotient(span, six);
    let at = float::from_whole(i);
    let step = float::product(inc, at);
    let label = chart::label_value(bounds, i);
    let one = float::one_in_units();
    lemma2_to64();
    lemma2_to64_rest();
    lemma_pow2_unfold(2001);
    lemma_pow2_unfold(2002);
    lemma_pow2_unfold(2003);
    lemma_pow2_unfold(2004);
    lemma_pow2_unfold(2005);
    arithmetic::lemma_one();
    arithmetic::lemma_negated(low);
    arithmetic::lemma_sum_at_most(high, float::negated(low), 2001);
    arithmetic::lemma_difference_error(high, low);
    arithmetic::lemma_whole_quotient_error(span, 6);
    arithmetic::lemma_whole_exact(i);
    let n = inc.units() * at.units();
    assert(n <= pow2(2004) * one) by (nonlinear_arith)
        requires
            n == inc.units() * at.units(),
            at.units() == i * one,
            0 <= i <= 6,
            8 * inc.units() <= pow2(2004),
            one > 0,
    ;
    arithmetic::lemma_ratio_at_most(n, one, 2004);
    arithmetic::lemma_signed(inc.negative() != at.negative(), arithmetic::ratio_key(n, one));
    assert(step.finite() && step.units() <= pow2(2004));
    arithmetic::lemma_whole_product_error(inc, i);
    arithmetic::lemma_sum_at_most(low, step, 2005);
    arithmetic::lemma_sum_error(low, step);
    lemma_label_sum(
        low.value(),
        high.value(),
        span.value(),
        inc.value(),
        step.value(),
        label.value(),
        i,
    );
}

#[verifier::spinoff_prover]
#[verifier::rlimit(60)]
proof fn lemma_label_sum(
    low: int,
    high: int,
    span: int,
    inc: int,
    step: int,
    label: int,
    i: int,
)
    requires
        0 <= i <= 6,
        arithmetic::size(span - (high - low)) * pow2(53) <= arithmetic::size(high - low),
        arithmetic::size(6 * inc - span) * pow2(53) <= arithmetic::size(span) + 6 * pow2(52),
        arithmetic::size(step - i * inc) * pow2(53) <= i * arithmetic::size(inc) + pow2(52),
        arithmetic::size(label - (low + step)) * pow2(53) <= arithmetic::size(low + step),
    ensures
        arithmetic::size(6 * label - ((6 - i) * low + i * high)) * pow2(53) <= 64 * (
        arithmetic::size(low) + arithmetic::size(high)) + pow2(60),
{
    lemma2_to64();
    lemma2_to64_rest();
    let k: int = 0x20_0000_0000_0000;
    let a = span - (high - low);
    let b = 6 * inc - span;
    let c = step - i * inc;
    let d = label - (low + step);
    let e = 6 * label - ((6 - i) * low + i * high);
    assert(e == 6 * d + 6 * c + i * b + i * a) by (nonlinear_arith)
        requires
            a == span - (high - low),
            b == 6 * inc - span,
            c == step - i * inc,
            d == label - (low + step),
            e == 6 * label - ((6 - i) * low + i * high),
    ;
    let sa = arithmetic::size(a);
    let sb = arithmetic::size(b);
    let sinc = arithmetic::size(inc);
    let most = i * sinc;
    assert(most <= 6 * sinc) by (nonlinear_arith)
        requires
            most == i * sinc,
            0 <= i <= 6,
            sinc >= 0,
    ;
    assert(-(6 * sa) <= i * a <= 6 * sa) by (nonlinear_arith)
        requires
            -sa <= a <= sa,
            0 <= i <= 6,
    ;
    assert(-(6 * sb) <= i * b <= 6 * sb) by (nonlinear_arith)
        requires
            -sb <= b <= sb,
            0 <= i <= 6,
    ;
    assert(-most <= i * inc <= most) by (nonlinear_arith)
        requires
            -sinc <= inc <= sinc,
            most == i * sinc,
            0 <= i,
    ;
    let sc = arithmetic::size(c);
    let sd = arithmetic::size(d);
    let ends = arithmetic::size(low) + arithmetic::size(high);
    let ss = arithmetic::size(span);
    assert(sa * k <= ends);
    assert(ss <= 2 * ends);
    assert(sb * k <= ss + 3 * k);
    assert(sb <= ss + 3);
    assert(6 * sinc <= ss + sb);
    assert(sc * k <= most + k);
    assert(arithmetic::size(step) <= most + sc);
    assert(sc <= most + 1);
    assert(sd * k <= arithmetic::size(low) + most + sc);
    assert(arithmetic::size(e) <= 6 * sd + 6 * sc + 6 * sb + 6 * sa);
    assert(most <= 4 * ends + 3);
    assert(6 * (sd * k) <= 54 * ends + 42);
}

/// The labels of an axis are in order, and none stands below its lower end or above the last.
pub proof fn lemma_labels_in_order(bounds: Bounds, i: int, j: int)
    requires
        bounds.low.finite(),
        bounds.high.finite(),
        bounds.low.key() <= bounds.high.key(),
        float::difference(bounds.high, bounds.low).finite(),
        0 <= i <= j <= 6,
    ensures
        !chart::label_value(bounds, i).nan(),
        !chart::label_value(bounds, j).nan(),
        bounds.low.key() <= chart::label_value(bounds, i).key() <= chart::label_value(
            bounds,
            j,
        ).key() <= chart::label_value(bounds, 6).key(),
{
    lemma_lowest_label(bounds);
    lemma_label_step(bounds, 0, i);
    lemma_label_step(bounds, i, j);
    lemma_label_step(bounds, j, 6);
}

#[verifier::spinoff_prover]
#[verifier::rlimit(60)]
proof fn lemma_label_step(bounds: Bounds, i: int, j: int)
    requires
        bounds.low.finite(),
        bounds.high.finite(),
        bounds.low.key() <= bounds.high.key(),
        float::difference(bounds.high, bounds.low).finite(),
        0 <= i <= j <= 6,
    ensures
        !chart::label_value(bounds, i).nan(),
        !chart::label_value(bounds, j).nan(),
        chart::label_value(bounds, i).key() <= chart::label_value(bounds, j).key(),
{
    let span = float::difference(bounds.high, bounds.low);
    let six = float::from_whole(chart::LABEL_COUNT - 1);
    let inc = float::quotient(span, six);
    let a = float::from_whole(i);
    let b = float::from_whole(j);
    lemma2_to64();
    lemma2_to64_rest();
    arithmetic::lemma_difference_key(bounds.high, bounds.low);
    arithmetic::lemma_order(bounds.low, bounds.high);
    arithmetic::lemma_nearest_key_monotone(0, bounds.high.value() - bounds.low.value());
    lemma_zero_key();
    arithmetic::lemma_quotient_by_whole(span, 6);
    arithmetic::lemma_whole_order(0, 1);
    arithmetic::lemma_whole_zero();
    arithmetic::lemma_one();
    arithmetic::lemma_whole_exact(6);
    arithmetic::lemma_whole_exact(i);
    arithmetic::lemma_whole_exact(j);
    arithmetic::lemma_whole_order(i, j);
    arithmetic::lemma_zero_value(Float64 { bits: 0 });
    arithmetic::lemma_order(Float64 { bits: 0 }, six);
    let zero = Float64 { bits: 0 };
    arithmetic::lemma_quotient_zero(zero, six);
    arithmetic::lemma_quotient_order(zero, span, six);
    assert(inc.key() >= 0);
    arithmetic::lemma_product_commutes(inc, a);
    arithmetic::lemma_product_commutes(inc, b);
    if inc.zero() {
        arithmetic::lemma_product_zero(a, inc);
        arithmetic::lemma_product_zero(b, inc);
        arithmetic::lemma_sum_zero(bounds.low, float::product(a, inc));
        arithmetic::lemma_sum_zero(bounds.low, float::product(b, inc));
    } else {
        arithmetic::lemma_product_order(a, b, inc);
        arithmetic::lemma_sum_order(
            float::product(a, inc),
            float::product(b, inc),
            bounds.low,
        );
    }
}

/// Until the graph is full the time axis goes from the start on; once it is, the axis ends now.
pub proof fn lemma_axis_ends_now(started: int, interval: int, now: int)
    ensures
        now - started >= interval ==> chart::shown_millis(started, interval, now).1 == now
            && chart::shown_millis(started, interval, now).0 == now - interval,
        now - started < interval ==> chart::shown_millis(started, interval, now).0 == started
            && chart::shown_millis(started, interval, now).1 == started + interval,
{
}

/// What was reported since the start and is not older than the graph is long lies on the time
/// axis.
pub proof fn lemma_recent_on_axis(started: int, interval: int, now: int, then: int)
    requires
        started <= then <= now,
        now - then <= interval,
        clock::millis_in_calendar(then),
        clock::millis_in_calendar(chart::shown_millis(started, interval, now).0),
        clock::millis_in_calendar(chart::shown_millis(started, interval, now).1),
    ensures
        ({
            let (before, after) = chart::shown_millis(started, interval, now);
            plot_data::seconds_of(before).key() <= plot_data::seconds_of(then).key()
                <= plot_data::seconds_of(after).key()
        }),
{
    let (before, after) = chart::shown_millis(started, interval, now);
    plot_data::lemma_seconds_order(before, then);
    plot_data::lemma_seconds_order(then, after);
}

/// What is among what the watches on a side have reported was reported by a watch on that side,
/// and is a number.
pub proof fn lemma_axis_value_origin(plots: Seq<PlotData>, axis: AxisSide, k: int)
    requires
        0 <= k < chart::axis_values(plots, axis).len(),
    ensures
        !chart::axis_values(plots, axis)[k].nan(),
        exists|i: int, j: int|
            0 <= i < plots.len() && 0 <= j < plots[i].data@.len() && plots[i].axis == axis
                && #[trigger] plots[i].data@[j].1 == chart::axis_values(plots, axis)[k],
    decreases plots.len(),
{
    if plots.len() > 0 {
        let rest = plots.drop_last();
        let front = chart::axis_values(rest, axis);
        let x = chart::axis_values(plots, axis)[k];
        if k < front.len() {
            lemma_axis_value_origin(rest, axis, k);
            let (i, j) = choose|i: int, j: int|
                0 <= i < rest.len() && 0 <= j < rest[i].data@.len() && rest[i].axis == axis
                    && #[trigger] rest[i].data@[j].1 == front[k];
            assert(plots[i].data@[j].1 == x);
        } else {
            let n = plots.len() - 1;
            plot_data::lemma_present_origin(plots[n].data@, k - front.len());
            let j = choose|j: int|
                0 <= j < plots[n].data@.len() && (#[trigger] plots[n].data@[j]).1 == x;
            assert(plots[n].data@[j].1 == x);
        }
    }
}

/// The points of a watch that is not on the axis that the graph is drawn with: as many, at the
/// same times, each moved from the watch's own axis. Those of any other watch stay.
pub proof fn lemma_drawn_points(plots: Seq<PlotData>, i: int, j: int)
    requires
        0 <= i < plots.len(),
        0 <= j < plots[i].data@.len(),
    ensures
        chart::drawn_points(plots, i).len() == plots[i].data@.len(),
        chart::drawn_points(plots, i)[j].0 == plots[i].data@[j].0,
        plots[i].axis == AxisSide::Left ==> chart::drawn_points(plots, i)[j] == plots[i].data@[j],
        (forall|k: int| 0 <= k < plots.len() ==> (#[trigger] plots[k]).axis == AxisSide::Right)
            ==> chart::drawn_points(plots, i)[j] == plots[i].data@[j],
        (exists|k: int| 0 <= k < plots.len() && (#[trigger] plots[k]).axis == AxisSide::Left)
            && plots[i].axis == AxisSide::Right ==> chart::drawn_points(plots, i)[j].1
            == chart::remapped(
            plots[i].data@[j].1,
            chart::value_bounds(chart::axis_values(plots, AxisSide::Right)),
            chart::value_bounds(chart::axis_values(plots, AxisSide::Left)),
        ),
{
    assert(chart::on_axis(plots, plots[i].axis));
}

/// The graph is drawn with the left axis where a watch is shown on it, and with the right one where
/// none is; the other axis is the second; and the ends of an axis are those for what its watches
/// have reported.
pub proof fn lemma_axes(plots: Seq<PlotData>, i: int)
    requires
        0 <= i < plots.len(),
    ensures
        plots[i].axis == AxisSide::Left ==> {
            &&& chart::main_axis(plots) == AxisSide::Left
            &&& chart::main_bounds(plots) == chart::value_bounds(
                chart::axis_values(plots, AxisSide::Left),
            )
        },
        (forall|k: int| 0 <= k < plots.len() ==> (#[trigger] plots[k]).axis == AxisSide::Right) ==> {
            &&& chart::main_axis(plots) == AxisSide::Right
            &&& chart::main_bounds(plots) == chart::value_bounds(
                chart::axis_values(plots, AxisSide::Right),
            )
            &&& chart::axis_bounds(plots, AxisSide::Left) is None
        },
        chart::axis_bounds(plots, plots[i].axis) == Some(
            chart::value_bounds(chart::axis_values(plots, plots[i].axis)),
        ),
        chart::other_side(AxisSide::Left) == AxisSide::Right,
        chart::other_side(AxisSide::Right) == AxisSide::Left,
{
    assert(chart::on_axis(plots, plots[i].axis));
}

/// Without a watch the axis goes from zero to one.
pub proof fn lemma_no_watch()
    ensures
        chart::main_bounds(Seq::empty()).low == float::from_whole(0),
        chart::main_bounds(Seq::empty()).high == float::from_whole(1),
{
    arithmetic::lemma_whole_zero();
    arithmetic::lemma_one();
    float::lemma_nearest_exact(float::ONE_BITS as nat, 1);
}

/// What all the watches on a side measure is what each of them measures; where two differ, or
/// where there is none, it is nothing.
pub proof fn lemma_common_measure(plots: Seq<PlotData>, i: int, j: int)
    requires
        0 <= i < plots.len(),
        0 <= j < plots.len(),
        plots[i].axis == plots[j].axis,
    ensures
        plots[i].measure != plots[j].measure ==> chart::common_measure(plots, plots[i].axis) is None,
        (forall|k: int|
            0 <= k < plots.len() && (#[trigger] plots[k]).axis == plots[i].axis ==> plots[k].measure
                == plots[i].measure) ==> chart::common_measure(plots, plots[i].axis) == Some(
            plots[i].measure,
        ),
        (forall|k: int| 0 <= k < plots.len() ==> (#[trigger] plots[k]).axis == plots[i].axis)
            ==> chart::common_measure(plots, chart::other_side(plots[i].axis)) is None,
{
    let axis = plots[i].axis;
    assert(chart::measures_on(plots, axis, plots[i].measure));
    assert(chart::measures_on(plots, axis, plots[j].measure));
}

} // verus!
