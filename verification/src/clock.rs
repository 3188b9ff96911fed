//! Instants and spans of time, and the times of day that label them.

use crate::decimal;
use crate::float;
use crate::float::Float64;
use crate::measure;
use crate::number;
use chrono::{DateTime, NaiveTime, TimeDelta, Utc};
use vstd::prelude::*;

verus! {

broadcast use vstd::string::group_string_axioms;

/// The seconds of the longest span of time.
pub const MAX_SECONDS: i64 = 9_223_372_036_854_775;

/// The first second of the calendar, counted from the start of the year 1970.
pub const FIRST_SECOND: i64 = -8_334_601_228_800;

/// The last second of the calendar, counted from the start of the year 1970.
pub const LAST_SECOND: i64 = 8_210_266_876_799;

/// The seconds of a day.
pub const SECONDS_PER_DAY: i64 = 86_400;

/// Whether the calendar has the second.
pub open spec fn in_calendar(seconds: int) -> bool {
    FIRST_SECOND <= seconds <= LAST_SECOND
}

/// Whether the calendar has the millisecond.
pub open spec fn millis_in_calendar(millis: int) -> bool {
    1000 * FIRST_SECOND <= millis <= 1000 * LAST_SECOND + 999
}

/// An instant: a second, counted from the start of the year 1970, and nanoseconds behind it.
#[derive(Debug, Clone, Copy, PartialEq, Eq, Structural)]
pub struct Moment {
    pub secs: i64,
    pub nanos: u32,
}

impl Moment {
    /// Whether the calendar has the instant.
    pub open spec fn valid(self) -> bool {
        in_calendar(self.secs as int) && self.nanos < 1_000_000_000
    }

    /// The nanoseconds from the start of the year 1970.
    pub open spec fn total_nanos(self) -> int {
        self.secs * 1_000_000_000 + self.nanos
    }
}

/// `chrono::TimeDelta::try_seconds`, with the span that it gives counted in milliseconds. There
/// is none for more seconds, or fewer, than a span can have.
#[verifier::external_body]
fn try_seconds(seconds: i64) -> (millis: Option<i64>)
    ensures
        millis == (if -MAX_SECONDS <= seconds <= MAX_SECONDS {
            Some((seconds * 1000) as i64)
        } else {
            None
        }),
{
    TimeDelta::try_seconds(seconds).map(|span| span.num_milliseconds())
}

/// `chrono::DateTime::from_timestamp` for a whole second, with the instant that it gives counted
/// in seconds again. There is none for a second that the calendar does not have.
#[verifier::external_body]
fn from_timestamp(seconds: i64) -> (found: Option<i64>)
    ensures
        found == (if in_calendar(seconds as int) {
            Some(seconds)
        } else {
            None
        }),
{
    DateTime::<Utc>::from_timestamp(seconds, 0).map(|instant| instant.timestamp())
}

/// The digits behind the second: none, or as many thousands as are needed.
pub open spec fn fraction_text(nanos: nat) -> Seq<char> {
    if nanos == 0 {
        Seq::empty()
    } else if nanos % 1_000_000 == 0 {
        seq!['.'] + measure::padded(nanos / 1_000_000, 3)
    } else if nanos % 1000 == 0 {
        seq!['.'] + measure::padded(nanos / 1000, 6)
    } else {
        seq!['.'] + measure::padded(nanos, 9)
    }
}

/// A time of day: hours, minutes and seconds, and a fraction where there is one.
pub open spec fn clock_text(seconds: nat, nanos: nat) -> Seq<char> {
    measure::padded(seconds / 3600, 2) + seq![':'] + measure::padded((seconds / 60) % 60, 2)
        + seq![':'] + measure::padded(seconds % 60, 2) + fraction_text(nanos)
}

/// `chrono::NaiveTime::from_num_seconds_from_midnight_opt`, and the text that `Debug` gives of
/// the time of day that it returns: hours, minutes and seconds with two digits each, and three,
/// six or nine digits of a fraction that is not zero.
#[verifier::external_body]
fn time_of_day_text(seconds: u32, nanos: u32) -> (s: String)
    requires
        seconds < SECONDS_PER_DAY,
        nanos < 1_000_000_000,
    ensures
        s@ == clock_text(seconds as nat, nanos as nat),
{
    NaiveTime::from_num_seconds_from_midnight_opt(seconds, nanos).map_or(
        String::new(),
        |time| format!("{time:?}"),
    )
}

/// Whether the calendar has the millisecond.
pub fn has_millis(millis: i128) -> (yes: bool)
    ensures
        yes == millis_in_calendar(millis as int),
{
    1000 * FIRST_SECOND as i128 <= millis && millis <= 1000 * LAST_SECOND as i128 + 999
}

/// The milliseconds of a span of whole seconds; `None` where it is too long.
pub fn span_millis(seconds: i64) -> (millis: Option<i64>)
    ensures
        millis == (if -MAX_SECONDS <= seconds <= MAX_SECONDS {
            Some((seconds * 1000) as i64)
        } else {
            None
        }),
{
    try_seconds(seconds)
}

/// The instant that a number of seconds stands for, without its fraction, or else `now` where the
/// calendar does not have it.
pub open spec fn moment_for(seconds: Float64, now: Moment) -> Moment {
    let whole = float::truncated(seconds);
    if in_calendar(whole) {
        Moment { secs: whole as i64, nanos: 0 }
    } else {
        now
    }
}

/// The instant that a number of seconds stands for, without its fraction, or else `now` where the
/// calendar does not have it.
pub fn moment_at(seconds: Float64, now: Moment) -> (m: Moment)
    ensures
        m == moment_for(seconds, now),
        FIRST_SECOND <= float::truncated(seconds) <= LAST_SECOND ==> m.secs == float::truncated(
            seconds,
        ) && m.nanos == 0,
        !(FIRST_SECOND <= float::truncated(seconds) <= LAST_SECOND) ==> m == now,
{
    match from_timestamp(seconds.to_i64()) {
        Some(secs) => Moment { secs, nanos: 0 },
        None => now,
    }
}

/// The instant in the middle of two, without parts of a nanosecond.
pub fn midpoint(lower: Moment, upper: Moment) -> (m: Moment)
    requires
        lower.valid(),
        upper.valid(),
    ensures
        m.valid(),
        m.total_nanos() == lower.total_nanos() + (upper.total_nanos() - lower.total_nanos()) / 2,
        0 <= (lower.secs * 1_000_000_000 + lower.nanos) + (upper.secs * 1_000_000_000
            + upper.nanos) - 2 * (m.secs * 1_000_000_000 + m.nanos) <= 1,
        m.nanos < 1_000_000_000,
{
    let a: i128 = lower.secs as i128 * 1_000_000_000 + lower.nanos as i128;
    let b: i128 = upper.secs as i128 * 1_000_000_000 + upper.nanos as i128;
    // From the first second on, so that nothing is negative.
    let origin: i128 = FIRST_SECOND as i128 * 1_000_000_000;
    let middle: i128 = ((a - origin) + (b - origin)) / 2;
    let secs: i64 = (middle / 1_000_000_000) as i64 + FIRST_SECOND;
    let nanos: u32 = (middle % 1_000_000_000) as u32;
    Moment { secs, nanos }
}

/// The time of day at an instant, where the clocks are ahead of universal time by `offset`
/// seconds.
pub fn clock_label(moment: Moment, offset: i32) -> (s: String)
    requires
        moment.valid(),
        -SECONDS_PER_DAY < offset < SECONDS_PER_DAY,
    ensures
        s@ == clock_text(
            ((moment.secs + offset) % SECONDS_PER_DAY as int) as nat,
            moment.nanos as nat,
        ),
{
    let day: i64 = (moment.secs - FIRST_SECOND) % SECONDS_PER_DAY;
    let shifted: i64 = (day + offset as i64 + SECONDS_PER_DAY) % SECONDS_PER_DAY;
    assert(shifted == (moment.secs + offset) % SECONDS_PER_DAY as int);
    time_of_day_text(shifted as u32, moment.nanos)
}

/// The time of day at so many hours, minutes and seconds.
pub proof fn lemma_clock_text(hours: nat, minutes: nat, seconds: nat, nanos: nat)
    requires
        hours < 24,
        minutes < 60,
        seconds < 60,
        nanos < 1_000_000_000,
    ensures
        ({
            let s = clock_text(3600 * hours + 60 * minutes + seconds, nanos);
            &&& s.len() >= 8
            &&& number::number(s.subrange(0, 2)) == hours
            &&& s[2] == ':'
            &&& number::number(s.subrange(3, 5)) == minutes
            &&& s[5] == ':'
            &&& number::number(s.subrange(6, 8)) == seconds
            &&& nanos == 0 <==> s.len() == 8
            &&& s.len() > 8 ==> s[8] == '.'
            &&& s.len() > 8 ==> s.len() == 12 || s.len() == 15 || s.len() == 18
            &&& s.len() == 12 ==> number::number(s.skip(9)) * 1_000_000 == nanos
            &&& s.len() == 15 ==> number::number(s.skip(9)) * 1000 == nanos
            &&& s.len() == 18 ==> number::number(s.skip(9)) == nanos
        }),
{
    let total = 3600 * hours + 60 * minutes + seconds;
    let s = clock_text(total, nanos);
    reveal_with_fuel(decimal::ten_to, 10);
    assert(total / 3600 == hours);
    assert((total / 60) % 60 == minutes);
    assert(total % 60 == seconds);
    measure::lemma_padded(Seq::empty(), hours, 2);
    measure::lemma_padded(Seq::empty(), minutes, 2);
    measure::lemma_padded(Seq::empty(), seconds, 2);
    assert(s.subrange(0, 2) =~= measure::padded(hours, 2));
    assert(s.subrange(3, 5) =~= measure::padded(minutes, 2));
    assert(s.subrange(6, 8) =~= measure::padded(seconds, 2));
    if nanos == 0 {
    } else if nanos % 1_000_000 == 0 {
        measure::lemma_padded(Seq::empty(), nanos / 1_000_000, 3);
        assert(s.skip(9) =~= measure::padded(nanos / 1_000_000, 3));
    } else if nanos % 1000 == 0 {
        measure::lemma_padded(Seq::empty(), nanos / 1000, 6);
        assert(s.skip(9) =~= measure::padded(nanos / 1000, 6));
    } else {
        measure::lemma_padded(Seq::empty(), nanos, 9);
        assert(s.skip(9) =~= measure::padded(nanos, 9));
    }
}

/// The calendar has a millisecond where it has the second that it lies in.
pub proof fn lemma_calendar_millis(millis: int)
    ensures
        millis_in_calendar(millis) <==> in_calendar(millis / 1000),
        in_calendar(millis) <==> FIRST_SECOND <= millis <= LAST_SECOND,
{
}

} // verus!
