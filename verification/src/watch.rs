//! Watches: what to run, how often, and how to show it; read from specifications of the form
//! `key=value;key=value` or from the blocks of a configuration.

use crate::error::{Fault, WatchError};
use crate::float::Float32;
use crate::measure::{AxisSide, Measure};
use crate::period;
use crate::period::Period;
use crate::text;
use std::str::FromStr;
use vstd::arithmetic::power2::*;
use vstd::prelude::*;

verus! {

broadcast use vstd::string::group_string_axioms;

/// The seconds between two runs where nothing else is said: the bit pattern of one.
pub const DEFAULT_PERIOD_SECONDS: u32 = 0x3f80_0000;

/// The longest title that is made from a command, in characters.
pub const DEFAULT_TITLE_MAX_CHARS: usize = 40;

/// One watch.
#[derive(Debug, Clone)]
pub struct WatchSpec {
    /// What the watch is called.
    pub title: String,
    /// The command that it runs.
    pub exp: String,
    /// The seconds between two runs.
    pub seconds: Float32,
    /// What the command reports.
    pub measure: Measure,
    /// The axis that shows it, where one is chosen.
    pub axis: Option<AxisSide>,
}

/// A watch with the characters of its texts.
pub struct WatchView {
    pub title: Seq<char>,
    pub exp: Seq<char>,
    pub seconds: Float32,
    pub measure: Measure,
    pub axis: Option<AxisSide>,
}

impl View for WatchSpec {
    type V = WatchView;

    open spec fn view(&self) -> WatchView {
        WatchView {
            title: self.title@,
            exp: self.exp@,
            seconds: self.seconds,
            measure: self.measure,
            axis: self.axis,
        }
    }
}

/// The watches with the characters of their texts.
pub open spec fn views(watches: Seq<WatchSpec>) -> Seq<WatchView> {
    watches.map_values(|w: WatchSpec| w@)
}

/// The characters of an optional text.
pub open spec fn optional_text(s: Option<String>) -> Option<Seq<char>> {
    match s {
        Some(t) => Some(t@),
        None => None,
    }
}

/// A title made from a command: its words with one blank between them, cut with three dots where
/// they are too long; `watch` where there are none.
pub open spec fn short_title(exp: Seq<char>) -> Seq<char> {
    let compact = text::joined(text::words(exp), " "@);
    if compact.len() == 0 {
        "watch"@
    } else if compact.len() <= DEFAULT_TITLE_MAX_CHARS {
        compact
    } else {
        compact.take(DEFAULT_TITLE_MAX_CHARS - 3) + "..."@
    }
}

/// The title that is given, without white space around it, or one made from the command where
/// none is left.
pub open spec fn title_for(title: Option<Seq<char>>, exp: Seq<char>) -> Seq<char> {
    match title {
        Some(t) => if text::trimmed(t).len() == 0 {
            short_title(exp)
        } else {
            text::trimmed(t)
        },
        None => short_title(exp),
    }
}

/// A title made from a command.
pub fn shorten_title(exp: &str) -> (title: String)
    ensures
        title@ == short_title(exp@),
        ({
            let compact = text::joined(text::words(exp@), " "@);
            &&& compact.len() == 0 ==> title@ == "watch"@
            &&& 0 < compact.len() <= 40 ==> title@ == compact
            &&& compact.len() > 40 ==> title@.len() == 40 && title@.take(37) == compact.take(37)
                && title@.skip(37) == "..."@
        }),
{
    proof {
        lemma_short_title(exp@);
    }
    let compact = text::join_texts(&text::words_of(exp), " ");
    if compact.as_str().is_empty() {
        return "watch".to_owned();
    }
    let chars = text::chars_of(compact.as_str());
    if chars.len() <= DEFAULT_TITLE_MAX_CHARS {
        return compact;
    }
    let short = text::string_of(&chars, 0, DEFAULT_TITLE_MAX_CHARS - 3);
    assert(short@ =~= compact@.take(DEFAULT_TITLE_MAX_CHARS - 3));
    short.concat("...")
}

/// The title of a watch.
pub fn normalize_title(title: Option<String>, exp: &str) -> (normal: String)
    ensures
        normal@ == title_for(optional_text(title), exp@),
        title matches Some(t) ==> text::trimmed(t@).len() > 0 ==> normal@ == text::trimmed(t@),
        title matches Some(t) ==> text::trimmed(t@).len() == 0 ==> normal@ == short_title(exp@),
        title is None ==> normal@ == short_title(exp@),
{
    match title {
        Some(t) => {
            let trimmed = text::trim(t.as_str());
            if trimmed.as_str().is_empty() {
                shorten_title(exp)
            } else {
                trimmed
            }
        },
        None => shorten_title(exp),
    }
}

/// A number of seconds that is to be positive and finite.
pub open spec fn checked_period(value: Float32, field: Seq<char>) -> Result<Float32, Fault> {
    if value.positive_finite() {
        Ok(value)
    } else {
        Err(Fault::NotPositive { field })
    }
}

/// Whether an outcome is the one that is described.
pub open spec fn agrees<T: View>(r: Result<T, WatchError>, model: Result<T::V, Fault>) -> bool {
    match r {
        Ok(x) => model == Ok::<T::V, Fault>(x@),
        Err(e) => model == Err::<T::V, Fault>(e@),
    }
}

/// A number of seconds, refused unless it is positive and finite.
pub fn parse_period_seconds(value: Float32, field_name: &str) -> (r: Result<Float32, WatchError>)
    ensures
        r matches Ok(x) ==> checked_period(value, field_name@) == Ok::<Float32, Fault>(x),
        r matches Err(e) ==> checked_period(value, field_name@) == Err::<Float32, Fault>(e@),
        r is Ok <==> 0 < value.bits < 0x7f80_0000,
        r matches Ok(x) ==> x == value,
        r matches Err(e) ==> e@ == (Fault::NotPositive { field: field_name@ }),
{
    if 0 < value.bits && value.bits < crate::float::INFINITY_BITS_32 {
        Ok(value)
    } else {
        Err(WatchError::NotPositive { field: field_name.to_owned() })
    }
}

/// The span that a number of seconds stands for.
pub fn seconds_to_duration(value: Float32, field_name: &str) -> (r: Result<Period, WatchError>)
    requires
        value.positive_finite() ==> period::countable(value),
    ensures
        r is Ok <==> value.positive_finite(),
        r matches Ok(p) ==> p.total_nanos() == period::nearest_nanos(value) && p.nanos
            < period::NANOS_PER_SECOND,
        r matches Err(e) ==> e@ == (Fault::NotPositive { field: field_name@ }),
{
    match parse_period_seconds(value, field_name) {
        Ok(seconds) => Ok(period::period_of(seconds)),
        Err(e) => Err(e),
    }
}

impl WatchSpec {
    /// The span between two runs.
    pub fn period(&self) -> (p: Period)
        requires
            self.seconds.positive_finite(),
            period::countable(self.seconds),
        ensures
            p.total_nanos() == period::nearest_nanos(self.seconds),
            p.nanos < period::NANOS_PER_SECOND,
    {
        period::period_of(self.seconds)
    }
}

/// The measure that an optional text names; numbers where there is none.
pub open spec fn chosen_measure(value: Option<Seq<char>>) -> Result<Measure, Seq<char>> {
    match value {
        Some(v) => match Measure::named(v) {
            Some(m) => Ok(m),
            None => Err(text::lowered(text::trimmed(v))),
        },
        None => Ok(Measure::Float),
    }
}

/// The side that an optional text names.
pub open spec fn chosen_axis(value: Option<Seq<char>>) -> Result<Option<AxisSide>, Seq<char>> {
    match value {
        Some(v) => match AxisSide::named(v) {
            Some(a) => Ok(Some(a)),
            None => Err(text::lowered(text::trimmed(v))),
        },
        None => Ok(None),
    }
}

/// The measure that an optional text names; numbers where there is none.
pub fn parse_measure(value: Option<&str>) -> (r: Result<Measure, WatchError>)
    ensures
        ({
            let model = chosen_measure(
                match value {
                    Some(v) => Some(v@),
                    None => None,
                },
            );
            match r {
                Ok(m) => model == Ok::<Measure, Seq<char>>(m),
                Err(e) => model is Err && e@ == (Fault::UnknownMeasure { name: model->Err_0 }),
            }
        }),
{
    match value {
        Some(raw) => match Measure::from_str(raw) {
            Ok(m) => Ok(m),
            Err(_) => Err(
                WatchError::UnknownMeasure { name: text::lowercase(text::trim(raw).as_str()) },
            ),
        },
        None => Ok(Measure::Float),
    }
}

/// The side that an optional text names.
pub fn parse_axis(value: Option<&str>) -> (r: Result<Option<AxisSide>, WatchError>)
    ensures
        ({
            let model = chosen_axis(
                match value {
                    Some(v) => Some(v@),
                    None => None,
                },
            );
            match r {
                Ok(a) => model == Ok::<Option<AxisSide>, Seq<char>>(a),
                Err(e) => model is Err && e@ == (Fault::UnknownAxis { name: model->Err_0 }),
            }
        }),
{
    match value {
        Some(raw) => match AxisSide::from_str(raw) {
            Ok(a) => Ok(Some(a)),
            Err(_) => Err(
                WatchError::UnknownAxis { name: text::lowercase(text::trim(raw).as_str()) },
            ),
        },
        None => Ok(None),
    }
}

/// What holds of every watch that is accepted: there is a command, without white space around
/// it, the period is positive, and there is a title.
pub open spec fn valid_watch(w: WatchView) -> bool {
    &&& w.exp.len() > 0
    &&& text::trimmed(w.exp) == w.exp
    &&& w.seconds.positive_finite()
    &&& w.title.len() > 0
}

/// A title made from a command is not empty, and has forty characters or fewer.
pub proof fn lemma_short_title_length(exp: Seq<char>)
    ensures
        0 < short_title(exp).len() <= DEFAULT_TITLE_MAX_CHARS,
{
    reveal_strlit("watch");
    reveal_strlit("...");
}

/// There is always a title.
pub proof fn lemma_title_length(title: Option<Seq<char>>, exp: Seq<char>)
    ensures
        title_for(title, exp).len() > 0,
{
    lemma_short_title_length(exp);
}

/// A short command whose words have one blank between them is its own title.
pub proof fn lemma_short_title_kept(words: Seq<Seq<char>>)
    requires
        words.len() > 0,
        forall|i: int| 0 <= i < words.len() ==> text::is_word(#[trigger] words[i]),
        text::joined(words, seq![' ']).len() <= DEFAULT_TITLE_MAX_CHARS,
    ensures
        short_title(text::joined(words, seq![' '])) == text::joined(words, seq![' ']),
{
    reveal_strlit(" ");
    assert(" "@ =~= seq![' ']);
    text::lemma_words_of_joined(words);
    assert(text::is_word(words[words.len() - 1]));
    assert(text::joined(words, seq![' ']).len() > 0);
}

/// White space between the words of a command does not count for its title.
pub proof fn lemma_short_title_of_words(exp: Seq<char>)
    ensures
        short_title(text::joined(text::words(exp), seq![' '])) == short_title(exp),
{
    reveal_strlit(" ");
    assert(" "@ =~= seq![' ']);
    text::lemma_words_are_words(exp);
    text::lemma_words_of_joined(text::words(exp));
}

/// A title made from a title is that title.
pub proof fn lemma_short_title_twice(exp: Seq<char>)
    ensures
        short_title(short_title(exp)) == short_title(exp),
{
    reveal_strlit(" ");
    reveal_strlit("...");
    reveal_strlit("watch");
    let blank = seq![' '];
    assert(" "@ =~= blank);
    let words = text::words(exp);
    let compact = text::joined(words, blank);
    text::lemma_words_are_words(exp);
    if compact.len() == 0 {
        let name = seq!["watch"@];
        assert(text::is_word("watch"@));
        assert(text::joined(name, blank) == "watch"@);
        lemma_short_title_kept(name);
    } else if compact.len() <= DEFAULT_TITLE_MAX_CHARS {
        lemma_short_title_of_words(exp);
    } else {
        assert(text::is_word("..."@));
        let cut = text::lemma_cut_words(words, DEFAULT_TITLE_MAX_CHARS - 3, "..."@);
        assert(text::joined(cut, blank) == short_title(exp));
        assert(cut.len() > 0);
        lemma_short_title_kept(cut);
    }
}

/// The title of a command is its words with one blank between them, or the first of their
/// characters and three dots where there are more than forty.
pub proof fn lemma_short_title(exp: Seq<char>)
    ensures
        ({
            let compact = text::joined(text::words(exp), " "@);
            let title = short_title(exp);
            &&& compact.len() == 0 ==> title == "watch"@
            &&& 0 < compact.len() <= 40 ==> title == compact
            &&& compact.len() > 40 ==> title.len() == 40 && title.take(37) == compact.take(37)
                && title.skip(37) == "..."@
        }),
{
    reveal_strlit("...");
    let compact = text::joined(text::words(exp), " "@);
    let title = short_title(exp);
    if compact.len() > 40 {
        assert(title.take(37) =~= compact.take(37));
        assert(title.skip(37) =~= "..."@);
    }
}

/// A title that is given is the title, without white space around it.
pub proof fn lemma_given_title(before: Seq<char>, t: Seq<char>, after: Seq<char>, exp: Seq<char>)
    requires
        forall|i: int| 0 <= i < before.len() ==> text::white_space(#[trigger] before[i]),
        forall|i: int| 0 <= i < after.len() ==> text::white_space(#[trigger] after[i]),
        t.len() > 0,
        !text::white_space(t[0]),
        !text::white_space(t.last()),
    ensures
        title_for(Some(before + t + after), exp) == t,
        title_for(None, exp) == short_title(exp),
{
    text::lemma_trimmed_between(before, t, after);
}

/// Where no measure is named numbers are measured, and where no side is named none is chosen; a
/// name gives what it names, and anything else is refused with what was read.
pub proof fn lemma_chosen(value: Seq<char>)
    ensures
        chosen_measure(None) == Ok::<Measure, Seq<char>>(Measure::Float),
        chosen_axis(None) == Ok::<Option<AxisSide>, Seq<char>>(None),
        chosen_measure(Some(value)) matches Ok(m) ==> Measure::named(value) == Some(m),
        chosen_axis(Some(value)) matches Ok(a) ==> a is Some && AxisSide::named(value) == a,
        Measure::named(value) is None <==> chosen_measure(Some(value)) is Err,
        AxisSide::named(value) is None <==> chosen_axis(Some(value)) is Err,
        chosen_measure(Some(value)) matches Err(name) ==> name == text::lowered(
            text::trimmed(value),
        ),
        chosen_axis(Some(value)) matches Err(name) ==> name == text::lowered(text::trimmed(value)),
{
}

/// One second is what a watch waits where nothing else is said.
pub proof fn lemma_default_period()
    ensures
        (Float32 { bits: DEFAULT_PERIOD_SECONDS }).positive_finite(),
        (Float32 { bits: DEFAULT_PERIOD_SECONDS }).units() == period::one_in_units_32(),
{
    lemma2_to64();
    lemma2_to64_rest();
    assert(0x3f80_0000nat / 0x80_0000nat == 127);
    assert(0x3f80_0000nat % 0x80_0000nat == 0);
    lemma_pow2_adds(23, 126);
}

/// A watch and its characters have the same texts and the same settings.
pub proof fn lemma_watch_view(w: WatchSpec)
    ensures
        w@.title == w.title@,
        w@.exp == w.exp@,
        w@.seconds == w.seconds,
        w@.measure == w.measure,
        w@.axis == w.axis,
{
}

/// An outcome that is as described is accepted or refused as described, with what is described.
pub proof fn lemma_agrees(r: Result<WatchSpec, WatchError>, model: Result<WatchView, Fault>)
    requires
        agrees(r, model),
    ensures
        r is Ok <==> model is Ok,
        r matches Ok(w) ==> {
            &&& w.title@ == model->Ok_0.title
            &&& w.exp@ == model->Ok_0.exp
            &&& w.seconds == model->Ok_0.seconds
            &&& w.measure == model->Ok_0.measure
            &&& w.axis == model->Ok_0.axis
        },
        r matches Err(e) ==> e@ == model->Err_0,
{
}

} // verus!
