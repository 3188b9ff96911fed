//! Watches from specifications of the form `key=value;key=value`.

use crate::error::{Fault, WatchError};
use crate::float::Float32;
use crate::measure::{AxisSide, Measure};
use crate::number;
use crate::text;
use crate::watch;
use crate::watch::{WatchSpec, WatchView};
use vstd::prelude::*;

verus! {

broadcast use vstd::string::group_string_axioms;

/// What the items of a specification have set so far.
pub struct Settings {
    pub exp: Option<Seq<char>>,
    pub title: Option<Seq<char>>,
    pub period: Option<Float32>,
    pub measure: Option<Measure>,
    pub axis: Option<AxisSide>,
}

/// Nothing is set.
pub open spec fn unset() -> Settings {
    Settings { exp: None, title: None, period: None, measure: None, axis: None }
}

/// The period that the value of an item gives.
pub open spec fn period_value(value: Seq<char>) -> Result<Float32, Fault> {
    match number::read_float32(value) {
        Some(x) => watch::checked_period(x, "watch period"@),
        None => Err(Fault::InvalidPeriod { value }),
    }
}

/// The settings once `key=value` is added to them. A later value replaces an earlier one.
pub open spec fn with_pair(st: Settings, key: Seq<char>, value: Seq<char>) -> Result<
    Settings,
    Fault,
> {
    if key == "exp"@ {
        if value.len() == 0 {
            Err(Fault::EmptyExp)
        } else {
            Ok(Settings { exp: Some(value), ..st })
        }
    } else if key == "title"@ {
        Ok(Settings { title: Some(value), ..st })
    } else if key == "period"@ {
        match period_value(value) {
            Ok(x) => Ok(Settings { period: Some(x), ..st }),
            Err(e) => Err(e),
        }
    } else if key == "measure"@ {
        match watch::chosen_measure(Some(value)) {
            Ok(m) => Ok(Settings { measure: Some(m), ..st }),
            Err(name) => Err(Fault::UnknownMeasure { name }),
        }
    } else if key == "axis"@ {
        match watch::chosen_axis(Some(value)) {
            Ok(a) => Ok(Settings { axis: a, ..st }),
            Err(name) => Err(Fault::UnknownAxis { name }),
        }
    } else {
        Err(Fault::UnknownKey { key })
    }
}

/// The settings once an item is added to them. White space around the item, its key and its
/// value does not count, nor does the case of the key; a blank item sets nothing.
pub open spec fn with_item(st: Settings, item: Seq<char>) -> Result<Settings, Fault> {
    let pair = text::trimmed(item);
    let at = text::first_index(pair, '=');
    if pair.len() == 0 {
        Ok(st)
    } else if at == pair.len() {
        Err(Fault::InvalidItem { item: pair })
    } else {
        with_pair(
            st,
            text::lowered(text::trimmed(pair.take(at))),
            text::trimmed(pair.skip(at + 1)),
        )
    }
}

/// What the items set one after the other, up to the first one that is at fault.
pub open spec fn settings_of(items: Seq<Seq<char>>) -> Result<Settings, Fault>
    decreases items.len(),
{
    if items.len() == 0 {
        Ok(unset())
    } else {
        match settings_of(items.drop_last()) {
            Ok(st) => with_item(st, items.last()),
            Err(e) => Err(e),
        }
    }
}

/// The watch that the settings describe.
pub open spec fn watch_of(st: Settings, default_period: Float32) -> Result<WatchView, Fault> {
    match st.exp {
        None => Err(Fault::MissingExp),
        Some(exp) => {
            let seconds = match st.period {
                Some(x) => x,
                None => default_period,
            };
            match watch::checked_period(seconds, "watch period"@) {
                Err(e) => Err(e),
                Ok(seconds) => Ok(
                    WatchView {
                        title: watch::title_for(st.title, exp),
                        exp,
                        seconds,
                        measure: match st.measure {
                            Some(m) => m,
                            None => Measure::Float,
                        },
                        axis: st.axis,
                    },
                ),
            }
        },
    }
}

/// The watch that a specification describes.
pub open spec fn specified(spec: Seq<char>, default_period: Float32) -> Result<WatchView, Fault> {
    match settings_of(text::split_at_char(spec, ';')) {
        Ok(st) => watch_of(st, default_period),
        Err(e) => Err(e),
    }
}

/// What the items of a specification have set so far.
struct Draft {
    exp: Option<String>,
    title: Option<String>,
    period: Option<Float32>,
    measure: Option<Measure>,
    axis: Option<AxisSide>,
}

impl View for Draft {
    type V = Settings;

    closed spec fn view(&self) -> Settings {
        Settings {
            exp: watch::optional_text(self.exp),
            title: watch::optional_text(self.title),
            period: self.period,
            measure: self.measure,
            axis: self.axis,
        }
    }
}

/// The first fault stays.
proof fn lemma_fault_stays(items: Seq<Seq<char>>, n: nat)
    requires
        n <= items.len(),
        settings_of(items.take(n as int)) is Err,
    ensures
        settings_of(items) == settings_of(items.take(n as int)),
    decreases items.len(),
{
    if n == items.len() {
        assert(items.take(n as int) =~= items);
    } else {
        assert(items.drop_last().take(n as int) =~= items.take(n as int));
        lemma_fault_stays(items.drop_last(), n);
    }
}

/// Adds `key=value` to the draft.
fn add_pair(draft: Draft, key: &str, value: String) -> (r: Result<Draft, WatchError>)
    ensures
        watch::agrees(r, with_pair(draft@, key@, value@)),
{
    let mut draft = draft;
    if text::same_text(key, "exp") {
        if value.as_str().is_empty() {
            return Err(WatchError::EmptyExp);
        }
        draft.exp = Some(value);
    } else if text::same_text(key, "title") {
        draft.title = Some(value);
    } else if text::same_text(key, "period") {
        match number::parse_float32(value.as_str()) {
            Some(x) => match watch::parse_period_seconds(x, "watch period") {
                Ok(seconds) => {
                    draft.period = Some(seconds);
                },
                Err(e) => {
                    return Err(e);
                },
            },
            None => {
                return Err(WatchError::InvalidPeriod { value });
            },
        }
    } else if text::same_text(key, "measure") {
        match watch::parse_measure(Some(value.as_str())) {
            Ok(m) => {
                draft.measure = Some(m);
            },
            Err(e) => {
                return Err(e);
            },
        }
    } else if text::same_text(key, "axis") {
        match watch::parse_axis(Some(value.as_str())) {
            Ok(a) => {
                draft.axis = a;
            },
            Err(e) => {
                return Err(e);
            },
        }
    } else {
        return Err(WatchError::UnknownKey { key: key.to_owned() });
    }
    Ok(draft)
}

/// Adds an item to the draft.
fn add_item(draft: Draft, item: &str) -> (r: Result<Draft, WatchError>)
    ensures
        watch::agrees(r, with_item(draft@, item@)),
{
    let pair = text::trim(item);
    if pair.as_str().is_empty() {
        return Ok(draft);
    }
    match text::split_once_text(pair.as_str(), '=') {
        Some((raw_key, raw_value)) => {
            let key = text::lowercase(text::trim(raw_key.as_str()).as_str());
            add_pair(draft, key.as_str(), text::trim(raw_value.as_str()))
        },
        None => Err(WatchError::InvalidItem { item: pair }),
    }
}

/// The watch that a specification describes.
pub fn parse_watch_dsl(spec: &str, default_period: Float32) -> (r: Result<WatchSpec, WatchError>)
    ensures
        watch::agrees(r, specified(spec@, default_period)),
{
    let items = text::split_text(spec, ';');
    let ghost all = text::texts(items@);
    let mut draft = Draft { exp: None, title: None, period: None, measure: None, axis: None };
    let mut i: usize = 0;
    assert(all.take(0) =~= Seq::empty());
    while i < items.len()
        invariant
            i <= items@.len(),
            all == text::texts(items@),
            all == text::split_at_char(spec@, ';'),
            settings_of(all.take(i as int)) == Ok::<Settings, Fault>(draft@),
        decreases items@.len() - i,
    {
        proof {
            assert(all.take(i + 1).drop_last() =~= all.take(i as int));
            assert(all.take(i + 1).last() == items@[i as int]@);
        }
        match add_item(draft, items[i].as_str()) {
            Ok(next) => {
                draft = next;
            },
            Err(e) => {
                proof {
                    lemma_fault_stays(all, (i + 1) as nat);
                }
                return Err(e);
            },
        }
        i += 1;
    }
    assert(all.take(i as int) =~= all);
    match draft.exp {
        None => Err(WatchError::MissingExp),
        Some(exp) => {
            let seconds: Float32 = match draft.period {
                Some(x) => x,
                None => default_period,
            };
            match watch::parse_period_seconds(seconds, "watch period") {
                Err(e) => Err(e),
                Ok(seconds) => {
                    let title = watch::normalize_title(draft.title, exp.as_str());
                    let measure: Measure = match draft.measure {
                        Some(m) => m,
                        None => Measure::Float,
                    };
                    Ok(WatchSpec { title, exp, seconds, measure, axis: draft.axis })
                },
            }
        },
    }
}

/// Whatever command is set is not empty, and has no white space around it.
proof fn lemma_settings_exp(items: Seq<Seq<char>>)
    ensures
        settings_of(items) matches Ok(st) ==> (st.exp matches Some(exp) ==> exp.len() > 0
            && text::trimmed(exp) == exp),
    decreases items.len(),
{
    if items.len() > 0 {
        lemma_settings_exp(items.drop_last());
        let pair = text::trimmed(items.last());
        text::lemma_trimmed_twice(pair.skip(text::first_index(pair, '=') + 1));
    }
}

/// A specification that is accepted gives a valid watch.
pub proof fn lemma_specified_valid(spec: Seq<char>, default_period: Float32)
    ensures
        specified(spec, default_period) matches Ok(w) ==> watch::valid_watch(w),
{
    let items = text::split_at_char(spec, ';');
    lemma_settings_exp(items);
    if let Ok(st) = settings_of(items) {
        if let Some(exp) = st.exp {
            watch::lemma_title_length(st.title, exp);
        }
    }
}

/// A blank item sets nothing.
pub proof fn lemma_blank_item(st: Settings, item: Seq<char>)
    requires
        text::trimmed(item).len() == 0,
    ensures
        with_item(st, item) == Ok::<Settings, Fault>(st),
{
}

/// Of two items with the same key the later one counts.
pub proof fn lemma_later_item_counts(
    st: Settings,
    key: Seq<char>,
    first: Seq<char>,
    second: Seq<char>,
)
    requires
        with_pair(st, key, first) is Ok,
    ensures
        with_pair(with_pair(st, key, first)->Ok_0, key, second) == with_pair(st, key, second),
{
}

/// The order of items with different keys does not count.
pub proof fn lemma_items_commute(
    st: Settings,
    key: Seq<char>,
    value: Seq<char>,
    other_key: Seq<char>,
    other_value: Seq<char>,
)
    requires
        key != other_key,
        with_pair(st, key, value) is Ok,
        with_pair(st, other_key, other_value) is Ok,
    ensures
        with_pair(with_pair(st, key, value)->Ok_0, other_key, other_value) == with_pair(
            with_pair(st, other_key, other_value)->Ok_0,
            key,
            value,
        ),
{
}

/// The key of an item, where it has one.
pub open spec fn item_key(item: Seq<char>) -> Option<Seq<char>> {
    let pair = text::trimmed(item);
    let at = text::first_index(pair, '=');
    if pair.len() == 0 || at == pair.len() {
        None
    } else {
        Some(text::lowered(text::trimmed(pair.take(at))))
    }
}

/// Whether no two items have the same key.
pub open spec fn distinct_keys(items: Seq<Seq<char>>) -> bool {
    forall|i: int, j: int|
        0 <= i < j < items.len() && item_key(#[trigger] items[i]) is Some ==> item_key(items[i])
            != item_key(#[trigger] items[j])
}

/// Whether an item is accepted.
pub open spec fn acceptable(item: Seq<char>) -> bool {
    with_item(unset(), item) is Ok
}

/// What an item sets, where nothing is set before it.
pub open spec fn set_by(item: Seq<char>) -> Settings {
    with_item(unset(), item)->Ok_0
}

/// Whether `st` has everything that `part` sets.
pub open spec fn holds(st: Settings, part: Settings) -> bool {
    &&& part.exp is Some ==> st.exp == part.exp
    &&& part.title is Some ==> st.title == part.title
    &&& part.period is Some ==> st.period == part.period
    &&& part.measure is Some ==> st.measure == part.measure
    &&& part.axis is Some ==> st.axis == part.axis
}

/// Items are accepted where each is.
pub proof fn lemma_accepted(items: Seq<Seq<char>>)
    ensures
        settings_of(items) is Ok <==> forall|i: int|
            0 <= i < items.len() ==> acceptable(#[trigger] items[i]),
    decreases items.len(),
{
    if items.len() > 0 {
        let front = items.drop_last();
        lemma_accepted(front);
        if settings_of(items) is Ok {
            assert forall|i: int| 0 <= i < items.len() implies acceptable(#[trigger] items[i]) by {
                if i < front.len() {
                    assert(front[i] == items[i]);
                }
            }
        } else if settings_of(front) is Ok {
            assert(!acceptable(items[items.len() - 1]));
        } else {
            let i = choose|i: int| 0 <= i < front.len() && !acceptable(#[trigger] front[i]);
            assert(!acceptable(items[i]));
        }
    }
}

/// Where no key is repeated, what an item sets stays.
proof fn lemma_item_stays(items: Seq<Seq<char>>, i: int)
    requires
        distinct_keys(items),
        settings_of(items) is Ok,
        0 <= i < items.len(),
    ensures
        holds(settings_of(items)->Ok_0, set_by(items[i])),
    decreases items.len(),
{
    let front = items.drop_last();
    lemma_accepted(items);
    assert(acceptable(items[i]));
    if i < front.len() {
        assert(distinct_keys(front)) by {
            assert forall|p: int, q: int|
                0 <= p < q < front.len() && item_key(#[trigger] front[p]) is Some implies item_key(
                front[p],
            ) != item_key(#[trigger] front[q]) by {
                assert(front[p] == items[p] && front[q] == items[q]);
            }
        }
        assert(front[i] == items[i]);
        lemma_item_stays(front, i);
        let last = items[items.len() - 1];
        assert(item_key(items[i]) is Some ==> item_key(items[i]) != item_key(last));
    }
}

/// Whatever is set was set by an item.
proof fn lemma_set_by_items(items: Seq<Seq<char>>)
    requires
        settings_of(items) is Ok,
    ensures
        ({
            let st = settings_of(items)->Ok_0;
            &&& st.exp is Some ==> exists|i: int|
                0 <= i < items.len() && st.exp == set_by(#[trigger] items[i]).exp
            &&& st.title is Some ==> exists|i: int|
                0 <= i < items.len() && st.title == set_by(#[trigger] items[i]).title
            &&& st.period is Some ==> exists|i: int|
                0 <= i < items.len() && st.period == set_by(#[trigger] items[i]).period
            &&& st.measure is Some ==> exists|i: int|
                0 <= i < items.len() && st.measure == set_by(#[trigger] items[i]).measure
            &&& st.axis is Some ==> exists|i: int|
                0 <= i < items.len() && st.axis == set_by(#[trigger] items[i]).axis
        }),
    decreases items.len(),
{
    if items.len() > 0 {
        let front = items.drop_last();
        let n = items.len() - 1;
        lemma_set_by_items(front);
        assert forall|i: int| 0 <= i < front.len() implies set_by(#[trigger] front[i]) == set_by(
            items[i],
        ) by {}
        let st = settings_of(front)->Ok_0;
        let new = settings_of(items)->Ok_0;
        let last = set_by(items[n]);
        assert(new.exp == last.exp || new.exp == st.exp);
        assert(new.title == last.title || new.title == st.title);
        assert(new.period == last.period || new.period == st.period);
        assert(new.measure == last.measure || new.measure == st.measure);
        assert(new.axis == last.axis || new.axis == st.axis);
    }
}

/// What stands in one sequence stands in every rearrangement of it.
proof fn lemma_rearranged_contains(items: Seq<Seq<char>>, others: Seq<Seq<char>>, i: int)
    requires
        items.to_multiset() == others.to_multiset(),
        0 <= i < items.len(),
    ensures
        exists|j: int| 0 <= j < others.len() && #[trigger] others[j] == items[i],
{
    broadcast use vstd::seq_lib::group_to_multiset_ensures;

    assert(items.contains(items[i]));
    assert(items.to_multiset().count(items[i]) > 0);
    assert(others.contains(items[i]));
}

/// An item that stands twice in one sequence stands twice in every rearrangement of it.
proof fn lemma_rearranged_twice(items: Seq<Seq<char>>, others: Seq<Seq<char>>, i: int, j: int)
    requires
        items.to_multiset() == others.to_multiset(),
        0 <= i < j < items.len(),
        items[i] == items[j],
    ensures
        exists|p: int, q: int|
            0 <= p < q < others.len() && #[trigger] others[p] == items[i] && #[trigger] others[q]
                == items[i],
{
    broadcast use vstd::seq_lib::group_to_multiset_ensures;

    let x = items[i];
    assert(items.contains(x));
    assert(others.to_multiset().count(x) > 0);
    let p = choose|p: int| 0 <= p < others.len() && others[p] == x;
    let fewer = items.remove(j);
    let rest = others.remove(p);
    assert(fewer[i] == x);
    assert(fewer.contains(x));
    assert(fewer.to_multiset() == rest.to_multiset());
    assert(rest.to_multiset().count(x) > 0);
    let q = choose|q: int| 0 <= q < rest.len() && rest[q] == x;
    if q < p {
        assert(others[q] == x);
    } else {
        assert(others[q + 1] == x);
    }
}

proof fn lemma_rearranged_distinct(items: Seq<Seq<char>>, others: Seq<Seq<char>>)
    requires
        items.to_multiset() == others.to_multiset(),
        distinct_keys(items),
    ensures
        distinct_keys(others),
{
    assert forall|i: int, j: int|
        0 <= i < j < others.len() && item_key(#[trigger] others[i]) is Some implies item_key(
        others[i],
    ) != item_key(#[trigger] others[j]) by {
        if others[i] == others[j] {
            lemma_rearranged_twice(others, items, i, j);
            let (p, q) = choose|p: int, q: int|
                0 <= p < q < items.len() && #[trigger] items[p] == others[i] && #[trigger] items[q]
                    == others[i];
            assert(item_key(items[p]) != item_key(items[q]));
        } else {
            lemma_rearranged_contains(others, items, i);
            lemma_rearranged_contains(others, items, j);
            let p = choose|p: int| 0 <= p < items.len() && #[trigger] items[p] == others[i];
            let q = choose|q: int| 0 <= q < items.len() && #[trigger] items[q] == others[j];
            if p < q {
                assert(item_key(items[p]) != item_key(items[q]));
            } else if item_key(items[q]) is Some {
                assert(item_key(items[q]) != item_key(items[p]));
            }
        }
    }
}

/// Everything that a sequence of items sets is set alike by a rearrangement of it.
proof fn lemma_rearranged_holds(items: Seq<Seq<char>>, others: Seq<Seq<char>>)
    requires
        items.to_multiset() == others.to_multiset(),
        distinct_keys(others),
        settings_of(items) is Ok,
        settings_of(others) is Ok,
    ensures
        holds(settings_of(others)->Ok_0, settings_of(items)->Ok_0),
{
    lemma_set_by_items(items);
    assert forall|i: int| 0 <= i < items.len() implies holds(
        settings_of(others)->Ok_0,
        set_by(#[trigger] items[i]),
    ) by {
        lemma_rearranged_contains(items, others, i);
        let j = choose|j: int| 0 <= j < others.len() && #[trigger] others[j] == items[i];
        lemma_item_stays(others, j);
    }
}

/// The order of the items does not count where no key is repeated: in any order they set the
/// same, or are refused.
pub proof fn lemma_items_rearranged(items: Seq<Seq<char>>, others: Seq<Seq<char>>)
    requires
        items.to_multiset() == others.to_multiset(),
        distinct_keys(items),
    ensures
        settings_of(items) is Ok <==> settings_of(others) is Ok,
        settings_of(items) is Ok ==> settings_of(items) == settings_of(others),
{
    lemma_accepted(items);
    lemma_accepted(others);
    lemma_rearranged_distinct(items, others);
    if settings_of(items) is Ok {
        assert forall|j: int| 0 <= j < others.len() implies acceptable(#[trigger] others[j]) by {
            lemma_rearranged_contains(others, items, j);
        }
    }
    if settings_of(others) is Ok {
        assert forall|i: int| 0 <= i < items.len() implies acceptable(#[trigger] items[i]) by {
            lemma_rearranged_contains(items, others, i);
        }
        lemma_rearranged_holds(items, others);
        lemma_rearranged_holds(others, items);
    }
}

/// Two specifications with the same items in different order, no key of which is repeated, give
/// the same watch, or are both refused.
pub proof fn lemma_specification_rearranged(
    spec: Seq<char>,
    other: Seq<char>,
    default_period: Float32,
)
    requires
        text::split_at_char(spec, ';').to_multiset() == text::split_at_char(
            other,
            ';',
        ).to_multiset(),
        distinct_keys(text::split_at_char(spec, ';')),
    ensures
        specified(spec, default_period) is Ok <==> specified(other, default_period) is Ok,
        specified(spec, default_period) is Ok ==> specified(spec, default_period) == specified(
            other,
            default_period,
        ),
{
    lemma_items_rearranged(text::split_at_char(spec, ';'), text::split_at_char(other, ';'));
}

/// White space around an item, its key and its value does not count, nor does the case of its key.
/// The value goes up to the end, whatever `=` there are in it.
pub proof fn lemma_pair_item(
    st: Settings,
    before: Seq<char>,
    key: Seq<char>,
    behind: Seq<char>,
    ahead: Seq<char>,
    value: Seq<char>,
    after: Seq<char>,
)
    requires
        forall|i: int| 0 <= i < before.len() ==> text::white_space(#[trigger] before[i]),
        forall|i: int| 0 <= i < behind.len() ==> text::white_space(#[trigger] behind[i]),
        forall|i: int| 0 <= i < ahead.len() ==> text::white_space(#[trigger] ahead[i]),
        forall|i: int| 0 <= i < after.len() ==> text::white_space(#[trigger] after[i]),
        key.len() > 0,
        forall|i: int|
            0 <= i < key.len() ==> !text::white_space(#[trigger] key[i]) && key[i] != '=',
        value.len() > 0,
        !text::white_space(value[0]),
        !text::white_space(value.last()),
    ensures
        with_item(st, before + (key + behind + seq!['='] + ahead + value) + after) == with_pair(
            st,
            text::lowered(key),
            value,
        ),
{
    let pair = key + behind + seq!['='] + ahead + value;
    let at = key.len() + behind.len();
    assert(pair[0] == key[0]);
    assert(pair.last() == value.last());
    text::lemma_trimmed_between(before, pair, after);
    text::lemma_first_index(pair, '=');
    let k = text::first_index(pair, '=');
    assert(pair[at as int] == '=');
    if k < key.len() {
        assert(pair[k] == key[k]);
    } else if k < at {
        assert(pair[k] == behind[k - key.len()]);
        assert(!text::white_space('='));
    }
    assert(k == at);
    let none = Seq::<char>::empty();
    assert(pair.take(k) =~= none + key + behind);
    assert(!text::white_space(key[0]));
    assert(!text::white_space(key[key.len() - 1]));
    text::lemma_trimmed_between(none, key, behind);
    assert(pair.skip(k + 1) =~= ahead + value + none);
    text::lemma_trimmed_between(ahead, value, none);
}

/// An item without `=` is refused.
pub proof fn lemma_item_without_sign(st: Settings, item: Seq<char>)
    requires
        text::trimmed(item).len() > 0,
        !item.contains('='),
    ensures
        with_item(st, item) == Err::<Settings, Fault>(
            Fault::InvalidItem { item: text::trimmed(item) },
        ),
{
    let pair = text::trimmed(item);
    text::lemma_trimmed_part(item);
    text::lemma_first_index(pair, '=');
    let k = text::first_index(pair, '=');
    if k < pair.len() {
        assert(item.contains(pair[k]));
    }
}

/// What each of the five keys sets, and nothing else with it, or why it is refused.
pub proof fn lemma_keys(st: Settings, value: Seq<char>, key: Seq<char>)
    ensures
        value.len() > 0 ==> with_pair(st, "exp"@, value) == Ok::<Settings, Fault>(
            Settings {
                exp: Some(value),
                title: st.title,
                period: st.period,
                measure: st.measure,
                axis: st.axis,
            },
        ),
        value.len() == 0 ==> with_pair(st, "exp"@, value) == Err::<Settings, Fault>(
            Fault::EmptyExp,
        ),
        with_pair(st, "title"@, value) == Ok::<Settings, Fault>(
            Settings {
                exp: st.exp,
                title: Some(value),
                period: st.period,
                measure: st.measure,
                axis: st.axis,
            },
        ),
        number::read_float32(value) matches Some(x) ==> 0 < x.bits < 0x7f80_0000 ==> with_pair(
            st,
            "period"@,
            value,
        ) == Ok::<Settings, Fault>(
            Settings {
                exp: st.exp,
                title: st.title,
                period: Some(x),
                measure: st.measure,
                axis: st.axis,
            },
        ),
        number::read_float32(value) matches Some(x) ==> !(0 < x.bits < 0x7f80_0000) ==> with_pair(
            st,
            "period"@,
            value,
        ) == Err::<Settings, Fault>(Fault::NotPositive { field: "watch period"@ }),
        number::read_float32(value) is None ==> with_pair(st, "period"@, value) == Err::<
            Settings,
            Fault,
        >(Fault::InvalidPeriod { value }),
        Measure::named(value) matches Some(m) ==> with_pair(st, "measure"@, value) == Ok::<
            Settings,
            Fault,
        >(
            Settings {
                exp: st.exp,
                title: st.title,
                period: st.period,
                measure: Some(m),
                axis: st.axis,
            },
        ),
        Measure::named(value) is None ==> with_pair(st, "measure"@, value) == Err::<
            Settings,
            Fault,
        >(Fault::UnknownMeasure { name: text::lowered(text::trimmed(value)) }),
        AxisSide::named(value) matches Some(a) ==> with_pair(st, "axis"@, value) == Ok::<
            Settings,
            Fault,
        >(
            Settings {
                exp: st.exp,
                title: st.title,
                period: st.period,
                measure: st.measure,
                axis: Some(a),
            },
        ),
        AxisSide::named(value) is None ==> with_pair(st, "axis"@, value) == Err::<Settings, Fault>(
            Fault::UnknownAxis { name: text::lowered(text::trimmed(value)) },
        ),
        key != "exp"@ && key != "title"@ && key != "period"@ && key != "measure"@ && key != "axis"@
            ==> with_pair(st, key, value) == Err::<Settings, Fault>(Fault::UnknownKey { key }),
{
    reveal_strlit("exp");
    reveal_strlit("title");
    reveal_strlit("period");
    reveal_strlit("measure");
    reveal_strlit("axis");
    assert("exp"@[0] == 'e' && "title"@[0] == 't' && "period"@[0] == 'p' && "measure"@[0] == 'm'
        && "axis"@[0] == 'a');
}

/// Items are read one after the other, each added to what those before it set.
pub proof fn lemma_item_added(spec: Seq<char>, item: Seq<char>, default_period: Float32)
    requires
        !item.contains(';'),
    ensures
        settings_of(text::split_at_char(spec, ';')) matches Ok(st) ==> settings_of(
            text::split_at_char(spec.push(';') + item, ';'),
        ) == with_item(st, item),
        settings_of(text::split_at_char(spec, ';')) matches Err(e) ==> specified(
            spec.push(';') + item,
            default_period,
        ) == Err::<WatchView, Fault>(e),
        settings_of(text::split_at_char(item, ';')) == with_item(unset(), item),
{
    let items = text::split_at_char(spec, ';');
    text::lemma_split_longer(spec, ';', item);
    assert(items.push(item).drop_last() =~= items);
    assert(seq![item].drop_last() =~= Seq::empty());
    assert(settings_of(Seq::empty()) == Ok::<Settings, Fault>(unset()));
}

/// The watch that is described once the items are read: with the command, the period or else the
/// default, what is measured or else numbers, and the side, as they were set.
pub proof fn lemma_watch_described(st: Settings, default_period: Float32)
    ensures
        st.exp is None ==> watch_of(st, default_period) == Err::<WatchView, Fault>(
            Fault::MissingExp,
        ),
        st.exp matches Some(exp) ==> {
            let seconds = if st.period is Some {
                st.period->0
            } else {
                default_period
            };
            &&& !(0 < seconds.bits < 0x7f80_0000) ==> watch_of(st, default_period) == Err::<
                WatchView,
                Fault,
            >(Fault::NotPositive { field: "watch period"@ })
            &&& 0 < seconds.bits < 0x7f80_0000 ==> watch_of(st, default_period) is Ok && {
                let w = watch_of(st, default_period)->Ok_0;
                &&& w.exp == exp
                &&& w.seconds == seconds
                &&& w.title == watch::title_for(st.title, exp)
                &&& st.measure is Some ==> w.measure == st.measure->0
                &&& st.measure is None ==> w.measure == Measure::Float
                &&& w.axis == st.axis
            }
        },
        unset().exp is None,
        unset().title is None,
        unset().period is None,
        unset().measure is None,
        unset().axis is None,
{
}

/// An item with nothing behind its `=` has an empty value, and one with nothing before it an empty
/// key, which is unknown.
pub proof fn lemma_half_item(st: Settings, key: Seq<char>, white: Seq<char>, rest: Seq<char>)
    requires
        forall|i: int| 0 <= i < white.len() ==> text::white_space(#[trigger] white[i]),
        key.len() > 0,
        forall|i: int|
            0 <= i < key.len() ==> !text::white_space(#[trigger] key[i]) && key[i] != '=',
    ensures
        with_item(st, key + seq!['='] + white) == with_pair(st, text::lowered(key), Seq::empty()),
        with_item(st, white + (seq!['='] + rest)) == Err::<Settings, Fault>(
            Fault::UnknownKey { key: Seq::empty() },
        ),
{
    let none = Seq::<char>::empty();
    let n = key.len() as int;
    let pair = key + seq!['='];
    assert(!text::white_space(key[0]) && !text::white_space(key[n - 1]));
    assert(pair[0] == key[0]);
    assert(none + pair + white =~= key + seq!['='] + white);
    text::lemma_trimmed_between(none, pair, white);
    text::lemma_first_index(pair, '=');
    let k = text::first_index(pair, '=');
    assert(pair[n] == '=');
    if k < n {
        assert(pair[k] == key[k]);
    }
    assert(pair.take(n) =~= none + key + none);
    text::lemma_trimmed_between(none, key, none);
    assert(pair.skip(n + 1) =~= none);
    assert(text::trimmed(none) =~= none);
    // Nothing before it.
    let tail = text::trimmed_end(rest);
    let front = seq!['='];
    text::lemma_trimmed_end_behind(front, rest);
    text::lemma_trimmed_start_white(white, front + rest);
    let item = white + (front + rest);
    assert(text::trimmed(item) == front + tail);
    assert((front + tail)[0] == '=');
    assert(text::first_index(front + tail, '=') == 0);
    assert((front + tail).take(0) =~= none);
    assert(text::lowered(none) =~= none);
    lemma_keys(st, text::trimmed((front + tail).skip(1)), none);
    reveal_strlit("exp");
    reveal_strlit("title");
    reveal_strlit("period");
    reveal_strlit("measure");
    reveal_strlit("axis");
    assert("exp"@.len() == 3 && "title"@.len() == 5 && "period"@.len() == 6 && "measure"@.len()
        == 7 && "axis"@.len() == 4);
}

} // verus!
