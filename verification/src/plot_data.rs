//! What one watch has reported: its points, and what is said of them.

use crate::arithmetic;
use crate::clock;
use crate::decimal;
use crate::float;
use crate::float::Float64;
use crate::measure::{AxisSide, Measure};
use crate::order;
use crate::text;
use ratatui::style::Style;
use vstd::arithmetic::power2::*;
use vstd::prelude::*;

verus! {

broadcast use vstd::string::group_string_axioms;

/// `ratatui::style::Style`: the colours and modifiers that something is drawn with. It is only
/// handed on.
#[verifier::external_type_specification]
#[verifier::external_body]
pub struct ExStyle(ratatui::style::Style);

/// The bit pattern of the number nearest to ninety-five hundredths.
pub const NEAR_ALL_BITS: u64 = 0x3fee_6666_6666_6666;

/// A text and what it is drawn with.
#[derive(Debug)]
pub struct StyledText {
    pub text: String,
    pub style: Style,
}

/// What a point is drawn with.
#[derive(Debug, Clone, Copy, PartialEq, Eq, Structural)]
pub enum Marker {
    /// One dot per cell.
    Dot,
    /// Up to eight dots per cell.
    Braille,
}

/// A line through points.
#[derive(Debug)]
pub struct Dataset<'a> {
    pub marker: Marker,
    pub style: Style,
    pub data: &'a Vec<(Float64, Float64)>,
}

/// What one watch has reported.
#[derive(Debug)]
pub struct PlotData {
    /// What the watch is called.
    pub display: String,
    /// The points: seconds from the start of the year 1970, and what was reported then. What is
    /// not a number is a gap.
    pub data: Vec<(Float64, Float64)>,
    /// What the watch is drawn with.
    pub style: Style,
    /// What is measured.
    pub measure: Measure,
    /// The axis that shows it.
    pub axis: AxisSide,
    /// The milliseconds that points are kept for.
    pub buffer: i64,
    /// Whether points are drawn as one dot per cell.
    pub simple_graphics: bool,
}

/// The texts of styled texts.
pub open spec fn styled(v: Seq<StyledText>) -> Seq<Seq<char>> {
    v.map_values(|t: StyledText| t.text@)
}

/// A number of seconds with its bits read as those of a signed number.
pub open spec fn signed_seconds(buffer: u64) -> int {
    if buffer <= i64::MAX {
        buffer as int
    } else {
        buffer - u64::MAX - 1
    }
}

/// The seconds of some milliseconds.
pub open spec fn seconds_of(millis: int) -> Float64 {
    float::quotient(float::from_whole(millis), Float64 { bits: float::THOUSAND_BITS })
}

/// The index of the last point before the given time, or zero where there is none.
pub open spec fn last_stale(data: Seq<(Float64, Float64)>, earliest: Float64) -> nat
    decreases data.len(),
{
    if data.len() == 0 {
        0
    } else if float::less(data.last().0, earliest) {
        (data.len() - 1) as nat
    } else {
        last_stale(data.drop_last(), earliest)
    }
}

/// The points without those that come before the last one that is too old.
pub open spec fn kept(data: Seq<(Float64, Float64)>, earliest: Float64) -> Seq<
    (Float64, Float64),
> {
    data.skip(last_stale(data, earliest) as int)
}

/// What is drawn of an outcome: what was reported, or a gap.
pub open spec fn drawn(item: Option<Float64>) -> Float64 {
    match item {
        Some(value) => value,
        None => float::not_a_number(),
    }
}

/// What was reported, without the gaps.
pub open spec fn present(data: Seq<(Float64, Float64)>) -> Seq<Float64>
    decreases data.len(),
{
    if data.len() == 0 {
        Seq::empty()
    } else if data.last().1.nan() {
        present(data.drop_last())
    } else {
        present(data.drop_last()).push(data.last().1)
    }
}

/// The sum of the numbers, added one after the other to negative zero.
pub open spec fn total(v: Seq<Float64>) -> Float64
    decreases v.len(),
{
    if v.len() == 0 {
        Float64 { bits: float::SIGN_BIT }
    } else {
        float::sum(total(v.drop_last()), v.last())
    }
}

/// How far each number is from the one before it.
pub open spec fn steps(v: Seq<Float64>) -> Seq<Float64> {
    Seq::new(
        (v.len() - 1) as nat,
        |i: int| float::absolute(float::difference(v[i + 1], v[i])),
    )
}

/// The mean of the numbers.
pub open spec fn average(v: Seq<Float64>) -> Float64 {
    float::quotient(total(v), float::from_whole(v.len() as int))
}

/// The mean distance of neighbours.
pub open spec fn jitter(v: Seq<Float64>) -> Float64 {
    if v.len() > 1 {
        float::quotient(total(steps(v)), float::from_whole(v.len() - 1))
    } else {
        Float64 { bits: 0 }
    }
}

/// The index, among `n` numbers in order, of the one that nineteen in twenty do not exceed.
pub open spec fn near_all_index(n: nat) -> nat {
    let at = float::rounded_index(
        float::product(float::from_whole(n - 1), Float64 { bits: NEAR_ALL_BITS }),
    );
    if at <= n - 1 {
        at
    } else {
        (n - 1) as nat
    }
}

/// The gaps.
pub open spec fn gap_count(data: Seq<(Float64, Float64)>) -> nat {
    (data.len() - present(data).len()) as nat
}

/// The statistics: the last outcome, the least, greatest and mean number, the mean distance of
/// neighbours in order, the number that nineteen in twenty do not exceed, and how many outcomes
/// are gaps.
pub open spec fn stat_lines(
    measure: Measure,
    last: Float64,
    items: Seq<Float64>,
    gaps: nat,
) -> Seq<Seq<char>> {
    seq![
        "last "@ + measure.value_text(last),
        "min "@ + measure.value_text(items.first()),
        "max "@ + measure.value_text(items.last()),
        "avg "@ + measure.value_text(average(items)),
        "jtr "@ + measure.value_text(jitter(items)),
        "p95 "@ + measure.value_text(items[near_all_index(items.len()) as int]),
        "t/o "@ + decimal::digits(gaps),
    ]
}

/// What is said of the points: the name, and the statistics where a number was reported.
pub open spec fn stat_texts(
    display: Seq<char>,
    data: Seq<(Float64, Float64)>,
    measure: Measure,
) -> Seq<Seq<char>> {
    let items = order::ordered(present(data));
    if items.len() == 0 {
        seq![display]
    } else {
        seq![display] + stat_lines(measure, data.last().1, items, gap_count(data))
    }
}

/// What the points of a watch are drawn with.
pub open spec fn marker_of(plot: PlotData) -> Marker {
    if plot.simple_graphics {
        Marker::Dot
    } else {
        Marker::Braille
    }
}

/// Whether `after` is `before` with what was reported at the given millisecond added, and without
/// what is too old then.
pub open spec fn updated(
    before: PlotData,
    after: PlotData,
    now: i64,
    item: Option<Float64>,
) -> bool {
    &&& after.data@ == kept(
        before.data@.push((seconds_of(now as int), drawn(item))),
        seconds_of(now - before.buffer),
    )
    &&& after.display == before.display
    &&& after.style == before.style
    &&& after.measure == before.measure
    &&& after.axis == before.axis
    &&& after.buffer == before.buffer
    &&& after.simple_graphics == before.simple_graphics
}

proof fn lemma_present_len(data: Seq<(Float64, Float64)>)
    ensures
        present(data).len() <= data.len(),
    decreases data.len(),
{
    if data.len() > 0 {
        lemma_present_len(data.drop_last());
    }
}

/// What was reported is among what was reported without the gaps.
pub proof fn lemma_present_contains(data: Seq<(Float64, Float64)>, i: int)
    requires
        0 <= i < data.len(),
        !data[i].1.nan(),
    ensures
        present(data).contains(data[i].1),
    decreases data.len(),
{
    let front = present(data.drop_last());
    let all = present(data);
    if i == data.len() - 1 {
        assert(all[all.len() - 1] == data[i].1);
    } else {
        assert(data.drop_last()[i] == data[i]);
        lemma_present_contains(data.drop_last(), i);
        let k = choose|k: int| 0 <= k < front.len() && front[k] == data[i].1;
        assert(all[k] == data[i].1);
    }
}

proof fn lemma_last_stale(data: Seq<(Float64, Float64)>, earliest: Float64)
    ensures
        last_stale(data, earliest) <= data.len(),
        data.len() > 0 ==> last_stale(data, earliest) < data.len(),
    decreases data.len(),
{
    if data.len() > 0 {
        lemma_last_stale(data.drop_last(), earliest);
    }
}

/// The seconds of some milliseconds.
pub fn to_seconds(millis: i64) -> (x: Float64)
    ensures
        x == seconds_of(millis as int),
{
    Float64::from_i64(millis).over(Float64 { bits: float::THOUSAND_BITS })
}

/// What was reported, without the gaps.
pub fn present_values(data: &Vec<(Float64, Float64)>) -> (items: Vec<Float64>)
    ensures
        items@ == present(data@),
{
    let mut items: Vec<Float64> = Vec::new();
    let mut i: usize = 0;
    assert(data@.take(0) =~= Seq::empty());
    while i < data.len()
        invariant
            i <= data@.len(),
            items@ == present(data@.take(i as int)),
        decreases data@.len() - i,
    {
        assert(data@.take(i + 1).drop_last() =~= data@.take(i as int));
        let value: Float64 = data[i].1;
        if !value.is_nan() {
            items.push(value);
        }
        i += 1;
    }
    assert(data@.take(i as int) =~= data@);
    items
}

/// The sum of the numbers.
fn sum_of(v: &Vec<Float64>) -> (x: Float64)
    ensures
        x == total(v@),
{
    let mut x: Float64 = Float64 { bits: float::SIGN_BIT };
    let mut i: usize = 0;
    assert(v@.take(0) =~= Seq::empty());
    while i < v.len()
        invariant
            i <= v@.len(),
            x == total(v@.take(i as int)),
        decreases v@.len() - i,
    {
        assert(v@.take(i + 1).drop_last() =~= v@.take(i as int));
        x = x.plus(v[i]);
        i += 1;
    }
    assert(v@.take(i as int) =~= v@);
    x
}

/// How far each number is from the one before it.
fn steps_of(v: &Vec<Float64>) -> (s: Vec<Float64>)
    requires
        v@.len() > 0,
    ensures
        s@ == steps(v@),
{
    let mut s: Vec<Float64> = Vec::new();
    let mut i: usize = 1;
    while i < v.len()
        invariant
            1 <= i <= v@.len(),
            s@.len() == i - 1,
            forall|j: int| 0 <= j < i - 1 ==> s@[j] == steps(v@)[j],
        decreases v@.len() - i,
    {
        s.push(v[i].minus(v[i - 1]).abs());
        i += 1;
    }
    assert(s@ =~= steps(v@));
    s
}

/// A statistic with its name before it.
fn named_value(name: &str, measure: Measure, value: Float64) -> (s: String)
    ensures
        s@ == name@ + measure.value_text(value),
{
    name.to_owned().concat(measure.format_value(value).as_str())
}

/// The mean of the numbers.
fn mean(items: &Vec<Float64>) -> (x: Float64)
    ensures
        x == average(items@),
{
    sum_of(items).over(Float64::from_u64(items.len() as u64))
}

/// The mean distance of neighbours.
fn mean_step(items: &Vec<Float64>) -> (x: Float64)
    ensures
        x == jitter(items@),
{
    if items.len() > 1 {
        sum_of(&steps_of(items)).over(Float64::from_u64((items.len() - 1) as u64))
    } else {
        Float64 { bits: 0 }
    }
}

/// The number that nineteen in twenty do not exceed.
fn near_all(items: &Vec<Float64>) -> (x: Float64)
    requires
        items@.len() > 0,
    ensures
        x == items@[near_all_index(items@.len()) as int],
{
    let top: usize = items.len() - 1;
    let at: usize = Float64::from_u64(top as u64).times(
        Float64 { bits: NEAR_ALL_BITS },
    ).to_index();
    if at <= top {
        items[at]
    } else {
        items[top]
    }
}

fn push_styled(stats: &mut Vec<StyledText>, text: String, style: Style)
    requires
        forall|i: int| 0 <= i < old(stats)@.len() ==> (#[trigger] old(stats)@[i]).style == style,
    ensures
        styled(final(stats)@) == styled(old(stats)@).push(text@),
        forall|i: int|
            0 <= i < final(stats)@.len() ==> (#[trigger] final(stats)@[i]).style == style,
{
    let ghost before = styled(stats@);
    let ghost chars = text@;
    stats.push(StyledText { text, style });
    assert(styled(stats@) =~= before.push(chars));
}

/// Adds texts that are drawn alike.
fn push_all(stats: &mut Vec<StyledText>, lines: Vec<String>, style: Style)
    requires
        forall|i: int| 0 <= i < old(stats)@.len() ==> (#[trigger] old(stats)@[i]).style == style,
    ensures
        styled(final(stats)@) == styled(old(stats)@) + text::texts(lines@),
        forall|i: int|
            0 <= i < final(stats)@.len() ==> (#[trigger] final(stats)@[i]).style == style,
{
    let ghost before = styled(stats@);
    let ghost all = text::texts(lines@);
    let mut rest: Vec<String> = lines;
    assert(before + all.take(0) =~= before);
    assert(all.skip(0) =~= all);
    let ghost mut done: int = 0;
    while rest.len() > 0
        invariant
            0 <= done,
            done + rest@.len() == all.len(),
            text::texts(rest@) == all.skip(done),
            styled(stats@) == before + all.take(done),
            forall|i: int| 0 <= i < stats@.len() ==> (#[trigger] stats@[i]).style == style,
        decreases rest@.len(),
    {
        let ghost remaining = text::texts(rest@);
        let line = rest.remove(0);
        proof {
            assert(remaining[0] == all[done]);
            assert(text::texts(rest@) =~= remaining.drop_first());
            assert(remaining.drop_first() =~= all.skip(done + 1));
            assert((before + all.take(done)).push(line@) =~= before + all.take(done + 1));
        }
        push_styled(stats, line, style);
        proof {
            done = done + 1;
        }
    }
    assert(all.take(done) =~= all);
}

/// The statistics of numbers in order.
fn stats_of(measure: Measure, last: Float64, items: &Vec<Float64>, gaps: usize) -> (lines: Vec<
    String,
>)
    requires
        items@.len() > 0,
    ensures
        text::texts(lines@) == stat_lines(measure, last, items@, gaps as nat),
{
    let least = named_value("min ", measure, items[0]);
    let greatest = named_value("max ", measure, items[items.len() - 1]);
    let avg = named_value("avg ", measure, mean(items));
    let jtr = named_value("jtr ", measure, mean_step(items));
    let p95 = named_value("p95 ", measure, near_all(items));
    let missing = "t/o ".to_owned().concat(decimal::decimal(gaps as u64).as_str());
    let last_value = named_value("last ", measure, last);
    seven(last_value, least, greatest, avg, jtr, p95, missing)
}

fn seven(a: String, b: String, c: String, d: String, e: String, f: String, g: String) -> (lines:
    Vec<String>)
    ensures
        text::texts(lines@) == seq![a@, b@, c@, d@, e@, f@, g@],
{
    let ghost all = seq![a@, b@, c@, d@, e@, f@, g@];
    let lines = vec![a, b, c, d, e, f, g];
    assert(text::texts(lines@) =~= all);
    lines
}

impl PlotData {
    /// A watch that has not reported anything.
    pub fn new(
        display: String,
        buffer: u64,
        style: Style,
        simple_graphics: bool,
        measure: Measure,
        axis: AxisSide,
    ) -> (plot: PlotData)
        requires
            -clock::MAX_SECONDS <= signed_seconds(buffer) <= clock::MAX_SECONDS,
        ensures
            plot.display@ == display@,
            plot.data@ == Seq::<(Float64, Float64)>::empty(),
            plot.style == style,
            plot.measure == measure,
            plot.axis == axis,
            plot.buffer == 1000 * signed_seconds(buffer),
            buffer <= i64::MAX ==> plot.buffer == 1000 * buffer,
            buffer > i64::MAX ==> plot.buffer == 1000 * (buffer - 0x1_0000_0000_0000_0000),
            plot.simple_graphics == simple_graphics,
    {
        let seconds: i64 = if buffer <= i64::MAX as u64 {
            buffer as i64
        } else {
            -((u64::MAX - buffer) as i64) - 1
        };
        let millis: i64 = match clock::span_millis(seconds) {
            Some(m) => m,
            None => 0,
        };
        PlotData {
            display,
            data: Vec::with_capacity(150),
            style,
            measure,
            axis,
            buffer: millis,
            simple_graphics,
        }
    }

    /// Adds what was reported at the given millisecond, and drops what is too old.
    pub fn update(&mut self, now: i64, item: Option<Float64>)
        requires
            clock::millis_in_calendar(now as int),
            clock::millis_in_calendar(now - old(self).buffer),
        ensures
            updated(*old(self), *final(self), now, item),
            0 < final(self).data@.len() <= old(self).data@.len() + 1,
            final(self).data@.last().0 == seconds_of(now as int),
            item matches Some(value) ==> final(self).data@.last().1 == value,
            item is None ==> final(self).data@.last().1.nan(),
    {
        let idx: Float64 = to_seconds(now);
        match item {
            Some(value) => self.data.push((idx, value)),
            None => self.data.push((idx, Float64 { bits: float::NAN_BITS })),
        }
        let earliest: Float64 = to_seconds(now - self.buffer);
        let ghost all = self.data@;
        let mut n: usize = self.data.len();
        assert(all.take(n as int) =~= all);
        while n > 0 && !self.data[n - 1].0.less_than(earliest)
            invariant
                n <= all.len(),
                self.data@ == all,
                last_stale(all, earliest) == last_stale(all.take(n as int), earliest),
            decreases n,
        {
            assert(all.take(n as int).drop_last() =~= all.take(n - 1));
            n -= 1;
        }
        if n > 1 {
            self.data = self.data.split_off(n - 1);
            assert(self.data@ =~= all.skip(n - 1));
        } else {
            assert(all.skip(0) =~= all);
        }
        proof {
            lemma_updated(*old(self), *self, now, item);
        }
    }

    /// What is said of the points.
    pub fn header_stats(&self) -> (stats: Vec<StyledText>)
        ensures
            styled(stats@) == stat_texts(self.display@, self.data@, self.measure),
            forall|i: int| 0 <= i < stats@.len() ==> (#[trigger] stats@[i]).style == self.style,
    {
        let mut stats: Vec<StyledText> = Vec::new();
        assert(styled(stats@) =~= Seq::empty());
        push_styled(&mut stats, self.display.clone(), self.style);
        let items = order::sorted_values(present_values(&self.data));
        proof {
            order::lemma_ordered(present(self.data@));
            lemma_present_len(self.data@);
        }
        if items.len() == 0 {
            assert(styled(stats@) =~= stat_texts(self.display@, self.data@, self.measure));
            return stats;
        }
        let last: Float64 = self.data[self.data.len() - 1].1;
        let gaps: usize = self.data.len() - items.len();
        push_all(&mut stats, stats_of(self.measure, last, &items, gaps), self.style);
        stats
    }

    /// A line through the given points, drawn as those of this watch are.
    pub fn dataset<'a>(&'a self, data: &'a Vec<(Float64, Float64)>) -> (line: Dataset<'a>)
        ensures
            line.marker == marker_of(*self),
            line.marker == Marker::Dot <==> self.simple_graphics,
            line.style == self.style,
            line.data == data,
    {
        Dataset {
            marker: if self.simple_graphics {
                Marker::Dot
            } else {
                Marker::Braille
            },
            style: self.style,
            data,
        }
    }
}

impl<'a> From<&'a PlotData> for Dataset<'a> {
    fn from(plot: &'a PlotData) -> (line: Dataset<'a>) {
        plot.dataset(&plot.data)
    }
}

impl<'a> vstd::std_specs::convert::FromSpecImpl<&'a PlotData> for Dataset<'a> {
    open spec fn obeys_from_spec() -> bool {
        true
    }

    open spec fn from_spec(plot: &'a PlotData) -> Dataset<'a> {
        Dataset { marker: marker_of(*plot), style: plot.style, data: &plot.data }
    }
}

/// A later millisecond is not fewer seconds.
pub proof fn lemma_seconds_order(m: int, n: int)
    requires
        m <= n,
        clock::millis_in_calendar(m),
        clock::millis_in_calendar(n),
    ensures
        !seconds_of(m).nan(),
        !seconds_of(n).nan(),
        seconds_of(m).key() <= seconds_of(n).key(),
{
    arithmetic::lemma_whole_order(m, n);
    lemma_millis_finite(m);
    lemma_millis_finite(n);
    arithmetic::lemma_quotient_order(
        float::from_whole(m),
        float::from_whole(n),
        Float64 { bits: float::THOUSAND_BITS },
    );
}

proof fn lemma_millis_finite(m: int)
    requires
        clock::millis_in_calendar(m),
    ensures
        float::from_whole(m).finite(),
{
    arithmetic::lemma_whole_key(m);
    arithmetic::lemma_whole_finite(m);
}

/// Whether the times of the points are in order.
pub open spec fn in_time(data: Seq<(Float64, Float64)>) -> bool {
    forall|i: int, j: int|
        0 <= i <= j < data.len() ==> !(#[trigger] data[i]).0.nan() && !(#[trigger] data[j]).0.nan()
            && data[i].0.key() <= data[j].0.key()
}

/// Every point behind the index of the last one that is too old is recent enough.
proof fn lemma_recent(data: Seq<(Float64, Float64)>, earliest: Float64, i: int)
    requires
        last_stale(data, earliest) < i < data.len(),
    ensures
        !float::less(data[i].0, earliest),
    decreases data.len(),
{
    if i < data.len() - 1 {
        assert(data.drop_last()[i] == data[i]);
        lemma_recent(data.drop_last(), earliest, i);
    }
}

/// Where a point is dropped, the first one that is left is too old.
proof fn lemma_stale(data: Seq<(Float64, Float64)>, earliest: Float64)
    requires
        last_stale(data, earliest) > 0,
    ensures
        last_stale(data, earliest) < data.len(),
        float::less(data[last_stale(data, earliest) as int].0, earliest),
    decreases data.len(),
{
    if data.len() > 0 && !float::less(data.last().0, earliest) {
        lemma_stale(data.drop_last(), earliest);
    }
}

/// The newest point is never dropped, and of those that are left only the first can be too old.
pub proof fn lemma_newest_kept(data: Seq<(Float64, Float64)>, earliest: Float64)
    requires
        data.len() > 0,
    ensures
        0 < kept(data, earliest).len() <= data.len(),
        kept(data, earliest).last() == data.last(),
        forall|i: int|
            0 < i < kept(data, earliest).len() ==> !float::less(
                (#[trigger] kept(data, earliest)[i]).0,
                earliest,
            ),
{
    lemma_last_stale(data, earliest);
    let at = last_stale(data, earliest) as int;
    assert forall|i: int| 0 < i < kept(data, earliest).len() implies !float::less(
        (#[trigger] kept(data, earliest)[i]).0,
        earliest,
    ) by {
        lemma_recent(data, earliest, at + i);
    }
}

/// Where the times are in order, only points that are too old are dropped.
pub proof fn lemma_recent_kept(data: Seq<(Float64, Float64)>, earliest: Float64, i: int)
    requires
        in_time(data),
        0 <= i < data.len(),
        !float::less(data[i].0, earliest),
        !earliest.nan(),
    ensures
        kept(data, earliest).contains(data[i]),
{
    let at = last_stale(data, earliest) as int;
    lemma_last_stale(data, earliest);
    if i < at {
        lemma_stale(data, earliest);
        assert(data[i].0.key() <= data[at].0.key());
    }
    assert(kept(data, earliest)[i - at] == data[i]);
}

/// Reports that come one after the other leave the times in order.
pub proof fn lemma_update_in_time(
    data: Seq<(Float64, Float64)>,
    then: int,
    now: int,
    value: Float64,
    earliest: Float64,
)
    requires
        in_time(data),
        clock::millis_in_calendar(then),
        clock::millis_in_calendar(now),
        then <= now,
        data.len() > 0 ==> data.last().0 == seconds_of(then),
    ensures
        in_time(kept(data.push((seconds_of(now), value)), earliest)),
        kept(data.push((seconds_of(now), value)), earliest).last().0 == seconds_of(now),
{
    lemma_seconds_order(then, now);
    let all = data.push((seconds_of(now), value));
    lemma_last_stale(all, earliest);
    let at = last_stale(all, earliest) as int;
    assert(in_time(all)) by {
        assert forall|i: int, j: int| 0 <= i <= j < all.len() implies !(#[trigger] all[i]).0.nan()
            && !(#[trigger] all[j]).0.nan() && all[i].0.key() <= all[j].0.key() by {
            if j < data.len() {
                assert(data[i].0.key() <= data[j].0.key());
            } else if i < data.len() {
                assert(data[i].0.key() <= data[data.len() - 1].0.key());
            }
        }
    }
    let left = kept(all, earliest);
    assert forall|i: int, j: int| 0 <= i <= j < left.len() implies !(#[trigger] left[i]).0.nan()
        && !(#[trigger] left[j]).0.nan() && left[i].0.key() <= left[j].0.key() by {
        assert(all[at + i].0.key() <= all[at + j].0.key());
    }
}

/// A gap counts as one, and a number as none.
pub proof fn lemma_gap_counted(data: Seq<(Float64, Float64)>, point: (Float64, Float64))
    ensures
        gap_count(data.push(point)) == gap_count(data) + if point.1.nan() {
            1int
        } else {
            0int
        },
{
    lemma_present_len(data);
    lemma_present_len(data.push(point));
    assert(data.push(point).drop_last() =~= data);
}

/// The least and the greatest number in the header have all numbers that were reported between
/// them, and so has the number that nineteen in twenty do not exceed.
pub proof fn lemma_stats_around(data: Seq<(Float64, Float64)>, i: int)
    requires
        0 <= i < data.len(),
        !data[i].1.nan(),
    ensures
        ({
            let items = order::ordered(present(data));
            let near_all = items[near_all_index(items.len()) as int];
            &&& items.len() > 0
            &&& items.first().key() <= data[i].1.key() <= items.last().key()
            &&& items.first().key() <= near_all.key() <= items.last().key()
        }),
{
    let v = present(data);
    let items = order::ordered(v);
    lemma_present_contains(data, i);
    let k = choose|k: int| 0 <= k < v.len() && v[k] == data[i].1;
    order::lemma_ordered(v);
    order::lemma_ordered_finds(v, k);
    let j = choose|j: int| 0 <= j < items.len() && (#[trigger] items[j]).key() == v[k].key();
    assert(items[0].key() <= items[j].key());
    assert(items[j].key() <= items[items.len() - 1].key());
    let near_all = items[near_all_index(items.len()) as int];
    assert(items[0].key() <= near_all.key());
    assert(near_all.key() <= items[items.len() - 1].key());
}

/// What came of the runs: numbers and gaps.
pub open spec fn outcomes(data: Seq<(Float64, Float64)>) -> Seq<Float64> {
    data.map_values(|p: (Float64, Float64)| p.1)
}

/// Each number is among what was reported without the gaps as often as it came, and a gap never.
pub proof fn lemma_present_count(data: Seq<(Float64, Float64)>, x: Float64)
    ensures
        present(data).to_multiset().count(x) == if x.nan() {
            0
        } else {
            outcomes(data).to_multiset().count(x)
        },
    decreases data.len(),
{
    broadcast use vstd::seq_lib::group_to_multiset_ensures;
    broadcast use vstd::multiset::group_multiset_axioms;

    if data.len() > 0 {
        let front = data.drop_last();
        let y = data.last().1;
        lemma_present_count(front, x);
        assert(outcomes(data) =~= outcomes(front).push(y));
        assert(outcomes(data).to_multiset() == outcomes(front).to_multiset().insert(y));
        if !y.nan() {
            assert(present(data).to_multiset() == present(front).to_multiset().insert(y));
        }
    } else {
        assert(!present(data).contains(x));
        assert(!outcomes(data).contains(x));
    }
}

/// Apart from the last outcome, the statistics do not depend on the order in which the outcomes
/// came, where zeros all have one sign.
pub proof fn lemma_stats_alike(
    display: Seq<char>,
    data: Seq<(Float64, Float64)>,
    other: Seq<(Float64, Float64)>,
    measure: Measure,
)
    requires
        outcomes(data).to_multiset() == outcomes(other).to_multiset(),
        order::one_zero(present(data)),
    ensures
        stat_texts(display, data, measure).len() == stat_texts(display, other, measure).len(),
        forall|i: int|
            0 <= i < stat_texts(display, data, measure).len() && i != 1 ==> #[trigger] stat_texts(
                display,
                data,
                measure,
            )[i] == stat_texts(display, other, measure)[i],
{
    broadcast use vstd::seq_lib::group_to_multiset_ensures;

    let v = present(data);
    let w = present(other);
    assert(v.to_multiset() =~= w.to_multiset()) by {
        assert forall|x: Float64| v.to_multiset().count(x) == w.to_multiset().count(x) by {
            lemma_present_count(data, x);
            lemma_present_count(other, x);
        }
    }
    order::lemma_ordered_alike(v, w);
    assert(v.len() == v.to_multiset().len());
    assert(w.len() == w.to_multiset().len());
    assert(outcomes(data).len() == outcomes(data).to_multiset().len());
    assert(outcomes(other).len() == outcomes(other).to_multiset().len());
    assert(gap_count(data) == gap_count(other));
    lemma_stat_texts_alike(display, data, other, measure);
}

proof fn lemma_stat_texts_alike(
    display: Seq<char>,
    data: Seq<(Float64, Float64)>,
    other: Seq<(Float64, Float64)>,
    measure: Measure,
)
    requires
        order::ordered(present(data)) == order::ordered(present(other)),
        gap_count(data) == gap_count(other),
    ensures
        stat_texts(display, data, measure).len() == stat_texts(display, other, measure).len(),
        forall|i: int|
            0 <= i < stat_texts(display, data, measure).len() && i != 1 ==> #[trigger] stat_texts(
                display,
                data,
                measure,
            )[i] == stat_texts(display, other, measure)[i],
{
    let items = order::ordered(present(data));
    let gaps = gap_count(data);
    let a = stat_lines(measure, data.last().1, items, gaps);
    let b = stat_lines(measure, other.last().1, items, gaps);
    assert(a.drop_first() =~= b.drop_first());
    assert forall|i: int| 1 <= i < a.len() implies a[i] == b[i] by {
        assert(a.drop_first()[i - 1] == b.drop_first()[i - 1]);
    }
    let s = stat_texts(display, data, measure);
    let t = stat_texts(display, other, measure);
    assert forall|i: int| 0 <= i < s.len() && i != 1 implies #[trigger] s[i] == t[i] by {
        if i > 1 {
            assert(s[i] == a[i - 1] && t[i] == b[i - 1]);
        }
    }
}

/// Milliseconds become seconds: no number is nearer to a thousandth of them.
pub proof fn lemma_seconds_closest(millis: int, c: Float64)
    requires
        clock::millis_in_calendar(millis),
        c.finite(),
    ensures
        seconds_of(millis).finite(),
        arithmetic::size(
            1000 * seconds_of(millis).value() - millis * float::one_in_units(),
        ) <= arithmetic::size(1000 * c.value() - millis * float::one_in_units()),
{
    let one = float::one_in_units();
    let a = float::from_whole(millis);
    let b = Float64 { bits: float::THOUSAND_BITS };
    let s = seconds_of(millis);
    lemma2_to64();
    lemma2_to64_rest();
    arithmetic::lemma_whole_exact(millis);
    arithmetic::lemma_one();
    lemma_thousand();
    arithmetic::lemma_quotient_at_most(a, b);
    arithmetic::lemma_quotient_closest(a, b, c);
    let x = s.value();
    let y = c.value();
    let u = 1000 * x - millis * one;
    let v = 1000 * y - millis * one;
    assert(x * (1000 * one) - (millis * one) * one == u * one) by (nonlinear_arith)
        requires
            u == 1000 * x - millis * one,
    ;
    assert(y * (1000 * one) - (millis * one) * one == v * one) by (nonlinear_arith)
        requires
            v == 1000 * y - millis * one,
    ;
    arithmetic::lemma_size_scaled(u, v, one as int);
}

proof fn lemma_thousand()
    ensures
        (Float64 { bits: float::THOUSAND_BITS }).value() == 1000 * float::one_in_units(),
        (Float64 { bits: float::THOUSAND_BITS }).finite(),
{
    lemma2_to64();
    lemma2_to64_rest();
    arithmetic::lemma_whole_exact(1000);
    lemma_pow2_adds(43, 1031);
    let y = pow2(1031);
    assert(0x408f_4000_0000_0000nat / 0x10_0000_0000_0000nat == 0x408);
    assert((1000 * 0x800_0000_0000) * y == 1000 * (0x800_0000_0000 * y)) by (nonlinear_arith);
}

/// Whole seconds become exactly themselves.
pub proof fn lemma_whole_seconds(seconds: int)
    requires
        clock::in_calendar(seconds),
    ensures
        seconds_of(1000 * seconds).value() == seconds * float::one_in_units(),
{
    let one = float::one_in_units();
    lemma2_to64();
    lemma2_to64_rest();
    arithmetic::lemma_whole_exact(seconds);
    lemma_seconds_closest(1000 * seconds, float::from_whole(seconds));
    assert(1000 * (seconds * one) == (1000 * seconds) * one) by (nonlinear_arith);
}

/// What is among what was reported without the gaps was reported, and is a number.
pub proof fn lemma_present_origin(data: Seq<(Float64, Float64)>, i: int)
    requires
        0 <= i < present(data).len(),
    ensures
        !present(data)[i].nan(),
        exists|j: int| 0 <= j < data.len() && (#[trigger] data[j]).1 == present(data)[i],
    decreases data.len(),
{
    if data.len() > 0 {
        let front = data.drop_last();
        let x = present(data)[i];
        if i < present(front).len() {
            lemma_present_origin(front, i);
            let j = choose|j: int| 0 <= j < front.len() && (#[trigger] front[j]).1 == x;
            assert(data[j].1 == x);
        } else {
            assert(data[data.len() - 1].1 == x);
        }
    }
}

/// What an update leaves: the newest point has the time and exactly the number that was reported,
/// or is a gap where there was none; before it stand points that were there, in their order; and
/// what was dropped is what came before the last point that is too old.
pub proof fn lemma_updated(before: PlotData, after: PlotData, now: i64, item: Option<Float64>)
    requires
        updated(before, after, now, item),
    ensures
        0 < after.data@.len() <= before.data@.len() + 1,
        after.data@.last().0 == seconds_of(now as int),
        item matches Some(value) ==> after.data@.last().1 == value,
        item is None ==> after.data@.last().1.nan(),
        ({
            let dropped = before.data@.len() + 1 - after.data@.len();
            let earliest = seconds_of(now - before.buffer);
            &&& forall|i: int|
                0 <= i < after.data@.len() - 1 ==> #[trigger] after.data@[i] == before.data@[dropped
                    + i]
            &&& dropped > 0 ==> float::less(after.data@[0].0, earliest)
            &&& forall|i: int|
                0 < i < after.data@.len() ==> !float::less((#[trigger] after.data@[i]).0, earliest)
        }),
        after.display@ == before.display@,
        after.style == before.style,
        after.measure == before.measure,
        after.axis == before.axis,
        after.buffer == before.buffer,
        after.simple_graphics == before.simple_graphics,
{
    let all = before.data@.push((seconds_of(now as int), drawn(item)));
    let earliest = seconds_of(now - before.buffer);
    lemma_newest_kept(all, earliest);
    lemma_last_stale(all, earliest);
    let at = last_stale(all, earliest) as int;
    if at > 0 {
        lemma_stale(all, earliest);
    }
    assert forall|i: int| 0 < i < after.data@.len() implies !float::less(
        (#[trigger] after.data@[i]).0,
        earliest,
    ) by {
        assert(kept(all, earliest)[i] == after.data@[i]);
    }
}

/// The line of a watch goes through all its points, as it is drawn: in dots where it is drawn in
/// simple graphics, and only there.
pub proof fn lemma_line<'a>(plot: &'a PlotData)
    ensures
        ({
            let line: Dataset<'a> = vstd::std_specs::convert::FromSpec::from_spec(plot);
            &&& *line.data == plot.data
            &&& line.style == plot.style
            &&& line.marker == Marker::Dot <==> plot.simple_graphics
        }),
{
}

/// The texts of styled texts are those of each, in their order.
pub proof fn lemma_styled(v: Seq<StyledText>, i: int)
    requires
        0 <= i < v.len(),
    ensures
        styled(v).len() == v.len(),
        styled(v)[i] == v[i].text@,
{
}

} // verus!
