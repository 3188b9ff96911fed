//! The graph: the bounds and labels of its axes, and the lines in it.

use crate::clock;
use crate::clock::Moment;
use crate::float;
use crate::float::Float64;
use crate::measure::{AxisSide, Measure};
use crate::order;
use crate::order::Extremes;
use crate::plot_data;
use crate::plot_data::{Dataset, PlotData};
use vstd::prelude::*;

verus! {

broadcast use vstd::string::group_string_axioms;

/// The bit pattern of the distance of one from the next number.
pub const EPSILON_BITS: u64 = 0x3cb0_0000_0000_0000;

/// The bit pattern of the number nearest to one tenth.
pub const TENTH_BITS: u64 = 0x3fb9_9999_9999_999a;

/// The bit pattern of two.
pub const TWO_BITS: u64 = 0x4000_0000_0000_0000;

/// How many labels an axis has.
pub const LABEL_COUNT: usize = 7;

/// The ends of an axis.
#[derive(Debug, Clone, Copy, PartialEq, Eq, Structural)]
pub struct Bounds {
    pub low: Float64,
    pub high: Float64,
}

/// What is watched, and since when.
#[derive(Debug)]
pub struct App {
    /// The watches.
    pub data: Vec<PlotData>,
    /// The milliseconds that the graph shows.
    pub display_interval: i64,
    /// The millisecond at which the graph starts.
    pub started: i64,
}

/// Whether two numbers can hardly be told apart.
pub open spec fn close(a: Float64, b: Float64) -> bool {
    float::less(float::absolute(float::difference(b, a)), Float64 { bits: EPSILON_BITS })
}

/// What is left free below the least and above the greatest number.
pub open spec fn padding(min: Float64, max: Float64) -> Float64 {
    if !close(min, max) {
        float::product(float::difference(max, min), Float64 { bits: TENTH_BITS })
    } else if float::less(float::absolute(min), Float64 { bits: float::ONE_BITS }) {
        Float64 { bits: float::ONE_BITS }
    } else {
        float::product(float::absolute(min), Float64 { bits: TENTH_BITS })
    }
}

/// The ends of an axis for numbers between two others.
pub open spec fn normalized(min: Float64, max: Float64) -> Bounds {
    Bounds {
        low: float::difference(min, padding(min, max)),
        high: float::sum(max, padding(min, max)),
    }
}

/// Whether a watch is shown on the side.
pub open spec fn on_axis(plots: Seq<PlotData>, axis: AxisSide) -> bool {
    exists|i: int| 0 <= i < plots.len() && (#[trigger] plots[i]).axis == axis
}

/// What the watches on the side have reported.
pub open spec fn axis_values(plots: Seq<PlotData>, axis: AxisSide) -> Seq<Float64>
    decreases plots.len(),
{
    if plots.len() == 0 {
        Seq::empty()
    } else if plots.last().axis == axis {
        axis_values(plots.drop_last(), axis) + plot_data::present(plots.last().data@)
    } else {
        axis_values(plots.drop_last(), axis)
    }
}

/// The ends of an axis for the numbers; those for zero to one where there are none.
pub open spec fn value_bounds(values: Seq<Float64>) -> Bounds {
    if values.len() == 0 {
        normalized(Float64 { bits: 0 }, Float64 { bits: float::ONE_BITS })
    } else {
        normalized(order::least(values), order::greatest(values))
    }
}

/// The ends of the axis on the side, where a watch is shown on it.
pub open spec fn axis_bounds(plots: Seq<PlotData>, axis: AxisSide) -> Option<Bounds> {
    if on_axis(plots, axis) {
        Some(value_bounds(axis_values(plots, axis)))
    } else {
        None
    }
}

/// Whether a watch on the side measures something.
pub open spec fn measures_on(plots: Seq<PlotData>, axis: AxisSide, measure: Measure) -> bool {
    exists|i: int|
        0 <= i < plots.len() && (#[trigger] plots[i]).axis == axis && plots[i].measure == measure
}

/// What all the watches on the side measure; `None` where there is no watch, or where they
/// differ.
pub open spec fn common_measure(plots: Seq<PlotData>, axis: AxisSide) -> Option<Measure> {
    let floats = measures_on(plots, axis, Measure::Float);
    let bytes = measures_on(plots, axis, Measure::Bytes);
    if floats && !bytes {
        Some(Measure::Float)
    } else if bytes && !floats {
        Some(Measure::Bytes)
    } else {
        None
    }
}

/// The milliseconds at the ends of the time axis: from the start on until the graph is full, and
/// after that up to now.
pub open spec fn shown_millis(started: int, interval: int, now: int) -> (int, int) {
    if now - started < interval {
        (started, started + interval)
    } else {
        (now - interval, now)
    }
}

/// The number at a label of an axis.
pub open spec fn label_value(bounds: Bounds, i: int) -> Float64 {
    let increment = float::quotient(
        float::difference(bounds.high, bounds.low),
        float::from_whole(LABEL_COUNT - 1),
    );
    float::sum(bounds.low, float::product(increment, float::from_whole(i)))
}

/// What is measured where nothing else is known.
pub open spec fn measure_or_float(measure: Option<Measure>) -> Measure {
    match measure {
        Some(m) => m,
        None => Measure::Float,
    }
}

/// The labels of an axis.
pub open spec fn axis_labels(measure: Option<Measure>, bounds: Bounds) -> Seq<Seq<char>> {
    Seq::new(
        LABEL_COUNT as nat,
        |i: int| measure_or_float(measure).value_text(label_value(bounds, i)),
    )
}

/// A number moved from one axis to the same place on another.
pub open spec fn remapped(value: Float64, src: Bounds, dst: Bounds) -> Float64 {
    if value.nan() {
        float::not_a_number()
    } else if close(src.low, src.high) {
        float::quotient(float::sum(dst.low, dst.high), Float64 { bits: TWO_BITS })
    } else {
        let ratio = float::quotient(
            float::difference(value, src.low),
            float::difference(src.high, src.low),
        );
        float::sum(dst.low, float::product(ratio, float::difference(dst.high, dst.low)))
    }
}

/// The points with what was reported moved from one axis to another.
pub open spec fn remapped_series(data: Seq<(Float64, Float64)>, src: Bounds, dst: Bounds) -> Seq<
    (Float64, Float64),
> {
    Seq::new(data.len(), |i: int| (data[i].0, remapped(data[i].1, src, dst)))
}

/// The axis that the graph is drawn with: the left one where a watch is shown on it.
pub open spec fn main_axis(plots: Seq<PlotData>) -> AxisSide {
    if on_axis(plots, AxisSide::Left) {
        AxisSide::Left
    } else {
        AxisSide::Right
    }
}

/// The other side.
pub open spec fn other_side(axis: AxisSide) -> AxisSide {
    match axis {
        AxisSide::Left => AxisSide::Right,
        AxisSide::Right => AxisSide::Left,
    }
}

/// The ends of the axis that the graph is drawn with; zero and one where there is no watch.
pub open spec fn main_bounds(plots: Seq<PlotData>) -> Bounds {
    match axis_bounds(plots, main_axis(plots)) {
        Some(bounds) => bounds,
        None => Bounds { low: Float64 { bits: 0 }, high: Float64 { bits: float::ONE_BITS } },
    }
}

/// The points that are drawn for a watch: its own, or moved to the axis that the graph is drawn
/// with.
pub open spec fn drawn_points(plots: Seq<PlotData>, i: int) -> Seq<(Float64, Float64)> {
    match axis_bounds(plots, other_side(main_axis(plots))) {
        Some(second) if plots[i].axis != main_axis(plots) => remapped_series(
            plots[i].data@,
            second,
            main_bounds(plots),
        ),
        _ => plots[i].data@,
    }
}

/// How the graph is drawn.
#[derive(Debug)]
pub struct ChartPlan {
    /// The axis that it is drawn with.
    pub axis: AxisSide,
    /// The ends of that axis.
    pub bounds: Bounds,
    /// What all the watches on that axis measure.
    pub measure: Option<Measure>,
    /// The ends of the second axis, where there is one.
    pub second_bounds: Option<Bounds>,
    /// What all the watches on the second axis measure.
    pub second_measure: Option<Measure>,
    /// Whether both axes are drawn.
    pub dual_axis: bool,
    /// For each watch, its points where they are moved to the axis that the graph is drawn with.
    pub moved: Vec<Option<Vec<(Float64, Float64)>>>,
}

fn are_close(a: Float64, b: Float64) -> (yes: bool)
    ensures
        yes == close(a, b),
{
    b.minus(a).abs().less_than(Float64 { bits: EPSILON_BITS })
}

/// The title of an axis.
pub fn axis_title(measure: Option<Measure>) -> (title: &'static str)
    ensures
        title@ == (match measure {
            Some(m) => m.name(),
            None => "mixed"@,
        }),
{
    match measure {
        Some(m) => m.axis_name(),
        None => "mixed",
    }
}

/// A number moved from one axis to the same place on another.
pub fn remap_value_between_bounds(value: Float64, src: Bounds, dst: Bounds) -> (x: Float64)
    ensures
        x == remapped(value, src, dst),
{
    if value.is_nan() {
        return Float64 { bits: float::NAN_BITS };
    }
    if are_close(src.low, src.high) {
        return dst.low.plus(dst.high).over(Float64 { bits: TWO_BITS });
    }
    let src_span: Float64 = src.high.minus(src.low);
    let dst_span: Float64 = dst.high.minus(dst.low);
    let ratio: Float64 = value.minus(src.low).over(src_span);
    dst.low.plus(ratio.times(dst_span))
}

/// The points with what was reported moved from one axis to another.
pub fn remap_series_to_bounds(data: &Vec<(Float64, Float64)>, src: Bounds, dst: Bounds) -> (moved:
    Vec<(Float64, Float64)>)
    ensures
        moved@ == remapped_series(data@, src, dst),
        moved@.len() == data@.len(),
        forall|i: int|
            0 <= i < moved@.len() ==> (#[trigger] moved@[i]).0 == data@[i].0 && moved@[i].1
                == remapped(data@[i].1, src, dst),
{
    let mut moved: Vec<(Float64, Float64)> = Vec::new();
    let mut i: usize = 0;
    while i < data.len()
        invariant
            i <= data@.len(),
            moved@.len() == i,
            forall|j: int| 0 <= j < i ==> moved@[j] == remapped_series(data@, src, dst)[j],
        decreases data@.len() - i,
    {
        moved.push((data[i].0, remap_value_between_bounds(data[i].1, src, dst)));
        i += 1;
    }
    assert(moved@ =~= remapped_series(data@, src, dst));
    moved
}

/// `more` put behind `values`.
fn append(values: &mut Vec<Float64>, more: &Vec<Float64>)
    ensures
        final(values)@ == old(values)@ + more@,
{
    let ghost before = values@;
    let mut i: usize = 0;
    assert(before + more@.take(0) =~= before);
    while i < more.len()
        invariant
            i <= more@.len(),
            values@ == before + more@.take(i as int),
        decreases more@.len() - i,
    {
        values.push(more[i]);
        i += 1;
        assert(values@ =~= before + more@.take(i as int));
    }
    assert(more@.take(i as int) =~= more@);
}

impl App {
    /// Some watches, shown from the given millisecond on in a graph of some seconds.
    pub fn new(data: Vec<PlotData>, buffer: u64, started: i64) -> (app: App)
        requires
            buffer <= clock::MAX_SECONDS,
        ensures
            app.data@ == data@,
            app.display_interval == 1000 * buffer,
            app.started == started,
    {
        let display_interval: i64 = match clock::span_millis(buffer as i64) {
            Some(millis) => millis,
            None => 0,
        };
        App { data, display_interval, started }
    }

    /// Adds what a watch reported at the given millisecond.
    pub fn update(&mut self, host_idx: usize, now: i64, item: Option<Float64>)
        requires
            host_idx < old(self).data@.len(),
            clock::millis_in_calendar(now as int),
            clock::millis_in_calendar(now - old(self).data@[host_idx as int].buffer),
        ensures
            final(self).data@.len() == old(self).data@.len(),
            forall|i: int|
                0 <= i < old(self).data@.len() && i != host_idx ==> final(self).data@[i] == old(
                    self,
                ).data@[i],
            plot_data::updated(
                old(self).data@[host_idx as int],
                final(self).data@[host_idx as int],
                now,
                item,
            ),
            final(self).display_interval == old(self).display_interval,
            final(self).started == old(self).started,
            final(self).data@[host_idx as int].data@.len() > 0,
            final(self).data@[host_idx as int].data@.last().0 == plot_data::seconds_of(now as int),
            item matches Some(value) ==> final(self).data@[host_idx as int].data@.last().1 == value,
            item is None ==> final(self).data@[host_idx as int].data@.last().1.nan(),
    {
        self.data[host_idx].update(now, item);
    }

    /// The ends of an axis for numbers between two others.
    pub fn normalize_y_bounds(min: Float64, max: Float64) -> (bounds: Bounds)
        ensures
            bounds == normalized(min, max),
    {
        let pad: Float64 = if are_close(min, max) {
            if min.abs().less_than(Float64 { bits: float::ONE_BITS }) {
                Float64 { bits: float::ONE_BITS }
            } else {
                min.abs().times(Float64 { bits: TENTH_BITS })
            }
        } else {
            max.minus(min).times(Float64 { bits: TENTH_BITS })
        };
        Bounds { low: min.minus(pad), high: max.plus(pad) }
    }

    /// Whether a watch is shown on the side.
    pub fn has_axis(&self, axis: AxisSide) -> (yes: bool)
        ensures
            yes == on_axis(self.data@, axis),
            yes <==> exists|i: int|
                0 <= i < self.data@.len() && (#[trigger] self.data@[i]).axis == axis,
    {
        let mut i: usize = 0;
        while i < self.data.len()
            invariant
                i <= self.data@.len(),
                forall|j: int| 0 <= j < i ==> (#[trigger] self.data@[j]).axis != axis,
            decreases self.data@.len() - i,
        {
            if self.data[i].axis == axis {
                return true;
            }
            i += 1;
        }
        false
    }

    /// What the watches on the side have reported.
    fn values_on(&self, axis: AxisSide) -> (values: Vec<Float64>)
        ensures
            values@ == axis_values(self.data@, axis),
    {
        let mut values: Vec<Float64> = Vec::new();
        let mut i: usize = 0;
        assert(self.data@.take(0) =~= Seq::empty());
        while i < self.data.len()
            invariant
                i <= self.data@.len(),
                values@ == axis_values(self.data@.take(i as int), axis),
            decreases self.data@.len() - i,
        {
            assert(self.data@.take(i + 1).drop_last() =~= self.data@.take(i as int));
            if self.data[i].axis == axis {
                append(&mut values, &plot_data::present_values(&self.data[i].data));
            }
            i += 1;
        }
        assert(self.data@.take(i as int) =~= self.data@);
        values
    }

    /// The ends of the axis on the side, where a watch is shown on it.
    pub fn y_axis_bounds_for(&self, axis: AxisSide) -> (bounds: Option<Bounds>)
        ensures
            bounds == axis_bounds(self.data@, axis),
            bounds matches Some(b) ==> b == value_bounds(axis_values(self.data@, axis)),
    {
        if !self.has_axis(axis) {
            return None;
        }
        let (min, max) = match order::extremes(self.values_on(axis)) {
            Extremes::Nothing => (Float64 { bits: 0 }, Float64 { bits: float::ONE_BITS }),
            Extremes::One(value) => (value, value),
            Extremes::Two(min, max) => (min, max),
        };
        Some(App::normalize_y_bounds(min, max))
    }

    /// What all the watches on the side measure.
    pub fn axis_measure_hint(&self, axis: AxisSide) -> (measure: Option<Measure>)
        ensures
            measure == common_measure(self.data@, axis),
    {
        let mut first: Option<Measure> = None;
        let mut i: usize = 0;
        while i < self.data.len()
            invariant
                i <= self.data@.len(),
                first is None ==> forall|j: int|
                    0 <= j < i ==> (#[trigger] self.data@[j]).axis != axis,
                first matches Some(m) ==> measures_on(self.data@, axis, m) && forall|j: int|
                    0 <= j < i && (#[trigger] self.data@[j]).axis == axis
                        ==> self.data@[j].measure == m,
            decreases self.data@.len() - i,
        {
            if self.data[i].axis == axis {
                let measure: Measure = self.data[i].measure;
                match first {
                    None => {
                        first = Some(measure);
                    },
                    Some(m) => {
                        if m != measure {
                            assert(measures_on(self.data@, axis, measure));
                            return None;
                        }
                    },
                }
            }
            i += 1;
        }
        first
    }

    /// Whether the calendar has the time axis at the given millisecond.
    pub open spec fn in_calendar(self, now: i64) -> bool {
        let (before, after) = shown_millis(
            self.started as int,
            self.display_interval as int,
            now as int,
        );
        &&& clock::millis_in_calendar(now as int)
        &&& clock::millis_in_calendar(self.started as int)
        &&& clock::millis_in_calendar(before)
        &&& clock::millis_in_calendar(after)
    }

    /// Whether the calendar has the time axis at the given millisecond.
    pub fn has_time_axis(&self, now: i64) -> (yes: bool)
        ensures
            yes == self.in_calendar(now),
            now - self.started < self.display_interval ==> yes == (clock::millis_in_calendar(
                now as int,
            ) && clock::millis_in_calendar(self.started as int) && clock::millis_in_calendar(
                self.started + self.display_interval,
            )),
            now - self.started >= self.display_interval ==> yes == (clock::millis_in_calendar(
                now as int,
            ) && clock::millis_in_calendar(self.started as int) && clock::millis_in_calendar(
                now - self.display_interval,
            )),
    {
        let started: i128 = self.started as i128;
        let interval: i128 = self.display_interval as i128;
        let end: i128 = if (now as i128) - started < interval {
            started + interval
        } else {
            now as i128
        };
        clock::has_millis(now as i128) && clock::has_millis(started) && clock::has_millis(
            end - interval,
        ) && clock::has_millis(end)
    }

    /// The ends of the time axis at the given millisecond.
    pub fn x_axis_bounds(&self, now: i64) -> (bounds: Bounds)
        requires
            self.in_calendar(now),
        ensures
            ({
                let (before, after) = shown_millis(
                    self.started as int,
                    self.display_interval as int,
                    now as int,
                );
                bounds == (Bounds {
                    low: plot_data::seconds_of(before),
                    high: plot_data::seconds_of(after),
                })
            }),
            now - self.started >= self.display_interval ==> bounds.high == plot_data::seconds_of(
                now as int,
            ) && bounds.low == plot_data::seconds_of(now - self.display_interval),
            now - self.started < self.display_interval ==> bounds.low == plot_data::seconds_of(
                self.started as int,
            ) && bounds.high == plot_data::seconds_of(self.started + self.display_interval),
    {
        if now - self.started < self.display_interval {
            Bounds {
                low: plot_data::to_seconds(self.started),
                high: plot_data::to_seconds(self.started + self.display_interval),
            }
        } else {
            Bounds {
                low: plot_data::to_seconds(now - self.display_interval),
                high: plot_data::to_seconds(now),
            }
        }
    }

    /// The instants that the time axis is labelled at: its ends and the middle.
    pub fn x_axis_marks(bounds: Bounds, now: Moment) -> (marks: Vec<Moment>)
        requires
            now.valid(),
        ensures
            marks@.len() == 3,
            marks@[0] == clock::moment_for(bounds.low, now),
            marks@[1].valid(),
            marks@[1].total_nanos() == marks@[0].total_nanos() + (marks@[2].total_nanos()
                - marks@[0].total_nanos()) / 2,
            marks@[2] == clock::moment_for(bounds.high, now),
    {
        let lower: Moment = clock::moment_at(bounds.low, now);
        let upper: Moment = clock::moment_at(bounds.high, now);
        let middle: Moment = clock::midpoint(lower, upper);
        let mut marks: Vec<Moment> = Vec::new();
        marks.push(lower);
        marks.push(middle);
        marks.push(upper);
        marks
    }

    /// The labels of the time axis: the time of day at each instant, where the clocks are ahead
    /// of universal time by the given seconds.
    pub fn x_axis_labels(marks: &Vec<Moment>, offsets: &Vec<i32>) -> (labels: Vec<String>)
        requires
            marks@.len() == offsets@.len(),
            forall|i: int| 0 <= i < marks@.len() ==> (#[trigger] marks@[i]).valid(),
            forall|i: int|
                0 <= i < offsets@.len() ==> -clock::SECONDS_PER_DAY < #[trigger] offsets@[i]
                    < clock::SECONDS_PER_DAY,
        ensures
            labels@.len() == marks@.len(),
            forall|i: int|
                0 <= i < labels@.len() ==> (#[trigger] labels@[i])@ == clock::clock_text(
                    ((marks@[i].secs + offsets@[i]) % clock::SECONDS_PER_DAY as int) as nat,
                    marks@[i].nanos as nat,
                ),
    {
        let mut labels: Vec<String> = Vec::new();
        let mut i: usize = 0;
        while i < marks.len()
            invariant
                i <= marks@.len(),
                marks@.len() == offsets@.len(),
                forall|j: int| 0 <= j < marks@.len() ==> (#[trigger] marks@[j]).valid(),
                forall|j: int|
                    0 <= j < offsets@.len() ==> -clock::SECONDS_PER_DAY < #[trigger] offsets@[j]
                        < clock::SECONDS_PER_DAY,
                labels@.len() == i,
                forall|j: int|
                    0 <= j < i ==> (#[trigger] labels@[j])@ == clock::clock_text(
                        ((marks@[j].secs + offsets@[j]) % clock::SECONDS_PER_DAY as int) as nat,
                        marks@[j].nanos as nat,
                    ),
            decreases marks@.len() - i,
        {
            labels.push(clock::clock_label(marks[i], offsets[i]));
            i += 1;
        }
        labels
    }

    /// The labels of an axis, from the lowest to the highest.
    pub fn y_axis_label_strings(measure: Option<Measure>, bounds: Bounds) -> (labels: Vec<String>)
        ensures
            crate::text::texts(labels@) == axis_labels(measure, bounds),
            labels@.len() == 7,
            forall|i: int|
                0 <= i < 7 ==> (#[trigger] labels@[i])@ == (match measure {
                    Some(m) => m.value_text(label_value(bounds, i)),
                    None => Measure::Float.value_text(label_value(bounds, i)),
                }),
    {
        let increment: Float64 = bounds.high.minus(bounds.low).over(
            Float64::from_u64((LABEL_COUNT - 1) as u64),
        );
        let formatter: Measure = match measure {
            Some(m) => m,
            None => Measure::Float,
        };
        let mut labels: Vec<String> = Vec::new();
        let mut i: usize = 0;
        while i < LABEL_COUNT
            invariant
                i <= LABEL_COUNT,
                labels@.len() == i,
                formatter == measure_or_float(measure),
                increment == float::quotient(
                    float::difference(bounds.high, bounds.low),
                    float::from_whole(LABEL_COUNT - 1),
                ),
                forall|j: int|
                    0 <= j < i ==> (#[trigger] labels@[j])@ == axis_labels(measure, bounds)[j],
            decreases LABEL_COUNT - i,
        {
            let value: Float64 = bounds.low.plus(increment.times(Float64::from_u64(i as u64)));
            labels.push(formatter.format_value(value));
            i += 1;
        }
        assert(crate::text::texts(labels@) =~= axis_labels(measure, bounds));
        assert forall|j: int| 0 <= j < 7 implies (#[trigger] labels@[j])@ == (match measure {
            Some(m) => m.value_text(label_value(bounds, j)),
            None => Measure::Float.value_text(label_value(bounds, j)),
        }) by {
            assert(labels@[j]@ == axis_labels(measure, bounds)[j]);
        }
        labels
    }

    /// How the graph is drawn.
    pub fn chart_plan(&self) -> (plan: ChartPlan)
        ensures
            plan.axis == main_axis(self.data@),
            plan.bounds == main_bounds(self.data@),
            plan.measure == common_measure(self.data@, plan.axis),
            plan.second_bounds == axis_bounds(self.data@, other_side(plan.axis)),
            plan.second_measure == common_measure(self.data@, other_side(plan.axis)),
            plan.dual_axis == (on_axis(self.data@, AxisSide::Left) && on_axis(
                self.data@,
                AxisSide::Right,
            )),
            plan.moved@.len() == self.data@.len(),
            forall|i: int|
                0 <= i < plan.moved@.len() ==> match #[trigger] plan.moved@[i] {
                    Some(points) => self.data@[i].axis != plan.axis && points@ == drawn_points(
                        self.data@,
                        i,
                    ),
                    None => self.data@[i].axis == plan.axis,
                },
    {
        let left: Option<Bounds> = self.y_axis_bounds_for(AxisSide::Left);
        let right: Option<Bounds> = self.y_axis_bounds_for(AxisSide::Right);
        let dual_axis: bool = left.is_some() && right.is_some();
        let (axis, second_axis, first, second_bounds) = if left.is_some() {
            (AxisSide::Left, AxisSide::Right, left, right)
        } else {
            (AxisSide::Right, AxisSide::Left, right, left)
        };
        let bounds: Bounds = match first {
            Some(b) => b,
            None => Bounds { low: Float64 { bits: 0 }, high: Float64 { bits: float::ONE_BITS } },
        };
        let mut moved: Vec<Option<Vec<(Float64, Float64)>>> = Vec::new();
        let mut i: usize = 0;
        while i < self.data.len()
            invariant
                i <= self.data@.len(),
                axis == main_axis(self.data@),
                bounds == main_bounds(self.data@),
                second_bounds == axis_bounds(self.data@, other_side(axis)),
                moved@.len() == i,
                forall|j: int|
                    0 <= j < i ==> match #[trigger] moved@[j] {
                        Some(points) => self.data@[j].axis != axis && points@ == drawn_points(
                            self.data@,
                            j,
                        ),
                        None => self.data@[j].axis == axis,
                    },
            decreases self.data@.len() - i,
        {
            if self.data[i].axis == axis {
                moved.push(None);
            } else {
                assert(self.data@[i as int].axis == other_side(axis));
                match second_bounds {
                    Some(second) => {
                        moved.push(
                            Some(remap_series_to_bounds(&self.data[i].data, second, bounds)),
                        );
                    },
                    None => {
                        moved.push(None);
                    },
                }
            }
            i += 1;
        }
        ChartPlan {
            axis,
            bounds,
            measure: self.axis_measure_hint(axis),
            second_bounds,
            second_measure: self.axis_measure_hint(second_axis),
            dual_axis,
            moved,
        }
    }

    /// The lines of the graph, one for each watch.
    pub fn datasets<'a>(&'a self, plan: &'a ChartPlan) -> (lines: Vec<Dataset<'a>>)
        requires
            plan.moved@.len() == self.data@.len(),
        ensures
            lines@.len() == self.data@.len(),
            forall|i: int|
                0 <= i < lines@.len() ==> {
                    let plot = self.data@[i];
                    &&& (#[trigger] lines@[i]).marker == plot_data::marker_of(plot)
                    &&& lines@[i].marker == plot_data::Marker::Dot <==> plot.simple_graphics
                    &&& lines@[i].style == plot.style
                    &&& lines@[i].data@ == (match plan.moved@[i] {
                        Some(points) => points@,
                        None => plot.data@,
                    })
                },
    {
        let mut lines: Vec<Dataset<'a>> = Vec::new();
        let mut i: usize = 0;
        while i < self.data.len()
            invariant
                i <= self.data@.len(),
                plan.moved@.len() == self.data@.len(),
                lines@.len() == i,
                forall|j: int|
                    0 <= j < i ==> {
                        let plot = self.data@[j];
                        &&& (#[trigger] lines@[j]).marker == plot_data::marker_of(plot)
                        &&& lines@[j].style == plot.style
                        &&& lines@[j].data@ == (match plan.moved@[j] {
                            Some(points) => points@,
                            None => plot.data@,
                        })
                    },
            decreases self.data@.len() - i,
        {
            match &plan.moved[i] {
                Some(points) => lines.push(self.data[i].dataset(points)),
                None => lines.push(self.data[i].dataset(&self.data[i].data)),
            }
            i += 1;
        }
        lines
    }
}

} // verus!
