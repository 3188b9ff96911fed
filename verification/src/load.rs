//! The watches that a run starts with: where they come from, and the axis that each is shown on.

use crate::config;
use crate::config::FileConfig;
use crate::dsl;
use crate::error::{Fault, WatchError};
use crate::float::Float32;
use crate::measure::{AxisSide, Measure};
use crate::text;
use crate::watch;
use crate::watch::{WatchSpec, WatchView};
use vstd::prelude::*;

verus! {

broadcast use vstd::string::group_string_axioms;

/// Where the watches are described.
#[derive(Debug)]
pub enum WatchSource {
    /// A configuration, read from standard input.
    Input,
    /// A configuration, read from a file.
    File { path: String },
    /// The specifications on the command line.
    Specs,
}

/// Whether some watch reports the measure.
pub open spec fn reports(ws: Seq<WatchView>, measure: Measure) -> bool {
    exists|i: int| 0 <= i < ws.len() && (#[trigger] ws[i]).measure == measure
}

/// Whether both measures are reported.
pub open spec fn mixed(ws: Seq<WatchView>) -> bool {
    reports(ws, Measure::Bytes) && reports(ws, Measure::Float)
}

/// The side that a watch is shown on: the one that it asks for, or else the left one, but the
/// right one for numbers that share the graph with bytes.
pub open spec fn resolved_axis(w: WatchView, mixed_measures: bool) -> AxisSide {
    match w.axis {
        Some(side) => side,
        None => if mixed_measures && w.measure == Measure::Float {
            AxisSide::Right
        } else {
            AxisSide::Left
        },
    }
}

/// The watches with the side chosen that each is shown on.
pub open spec fn resolved(ws: Seq<WatchView>) -> Seq<WatchView> {
    Seq::new(
        ws.len(),
        |i: int| WatchView { axis: Some(resolved_axis(ws[i], mixed(ws))), ..ws[i] },
    )
}

/// The watches of the specifications, or the fault of the first that is at fault.
pub open spec fn specified_all(specs: Seq<Seq<char>>, default_period: Float32) -> Result<
    Seq<WatchView>,
    Fault,
>
    decreases specs.len(),
{
    if specs.len() == 0 {
        Ok(Seq::empty())
    } else {
        match specified_all(specs.drop_last(), default_period) {
            Err(e) => Err(e),
            Ok(ws) => match dsl::specified(specs.last(), default_period) {
                Err(e) => Err(e),
                Ok(w) => Ok(ws.push(w)),
            },
        }
    }
}

/// The watches of the specifications on the command line, of which there is to be one at least.
pub open spec fn from_specs(specs: Seq<Seq<char>>, period: Option<Float32>) -> Result<
    Seq<WatchView>,
    Fault,
> {
    if specs.len() == 0 {
        Err(Fault::NoSource)
    } else {
        match watch::checked_period(
            config::first_of(period, None, Float32 { bits: watch::DEFAULT_PERIOD_SECONDS }),
            "period"@,
        ) {
            Err(e) => Err(e),
            Ok(seconds) => match specified_all(specs, seconds) {
                Err(e) => Err(e),
                Ok(ws) => Ok(resolved(ws)),
            },
        }
    }
}

/// The watches of a configuration.
pub open spec fn from_config(
    blocks: Seq<config::Block>,
    period: Option<Float32>,
    cli_period: Option<Float32>,
) -> Result<Seq<WatchView>, Fault> {
    match config::configured(blocks, period, cli_period) {
        Err(e) => Err(e),
        Ok(ws) => Ok(resolved(ws)),
    }
}

/// The watches that a run starts with: those of a configuration or those of the specifications.
/// Both together are refused, and so is neither.
pub open spec fn loaded(
    file: Option<FileConfig>,
    specs: Seq<Seq<char>>,
    cli_period: Option<Float32>,
) -> Result<Seq<WatchView>, Fault> {
    match file {
        Some(c) => if specs.len() > 0 {
            Err(Fault::TwoSources)
        } else {
            from_config(config::blocks(c.watch@), c.period, cli_period)
        },
        None => from_specs(specs, cli_period),
    }
}

/// The first fault stays.
proof fn lemma_fault_stays(specs: Seq<Seq<char>>, n: nat, default_period: Float32)
    requires
        n <= specs.len(),
        specified_all(specs.take(n as int), default_period) is Err,
    ensures
        specified_all(specs, default_period) == specified_all(
            specs.take(n as int),
            default_period,
        ),
    decreases specs.len(),
{
    if n == specs.len() {
        assert(specs.take(n as int) =~= specs);
    } else {
        assert(specs.drop_last().take(n as int) =~= specs.take(n as int));
        lemma_fault_stays(specs.drop_last(), n, default_period);
    }
}

fn reports_measure(watches: &Vec<WatchSpec>, measure: Measure) -> (yes: bool)
    ensures
        yes == reports(watch::views(watches@), measure),
{
    let mut i: usize = 0;
    while i < watches.len()
        invariant
            i <= watches@.len(),
            forall|j: int| 0 <= j < i ==> (#[trigger] watches@[j]).measure != measure,
        decreases watches@.len() - i,
    {
        if watches[i].measure == measure {
            assert(watch::views(watches@)[i as int].measure == measure);
            return true;
        }
        i += 1;
    }
    assert forall|j: int| 0 <= j < watches@.len() implies (#[trigger] watch::views(
        watches@,
    )[j]).measure != measure by {
        assert(watches@[j].measure != measure);
    }
    false
}

/// The watches with the side chosen that each is shown on.
pub fn resolve_axis_defaults(watches: Vec<WatchSpec>) -> (resolved_watches: Vec<WatchSpec>)
    ensures
        watch::views(resolved_watches@) == resolved(watch::views(watches@)),
{
    let ghost before = watch::views(watches@);
    let mixed_dimensions: bool = reports_measure(&watches, Measure::Bytes) && reports_measure(
        &watches,
        Measure::Float,
    );
    let mut watches: Vec<WatchSpec> = watches;
    let n: usize = watches.len();
    let mut i: usize = 0;
    while i < n
        invariant
            i <= n,
            n == watches@.len(),
            n == before.len(),
            mixed_dimensions == mixed(before),
            forall|j: int| 0 <= j < i ==> (#[trigger] watches@[j])@ == resolved(before)[j],
            forall|j: int| i <= j < n ==> (#[trigger] watches@[j])@ == before[j],
        decreases n - i,
    {
        assert(watches@[i as int]@ == before[i as int]);
        if watches[i].axis.is_none() {
            let side = if mixed_dimensions {
                match watches[i].measure {
                    Measure::Bytes => AxisSide::Left,
                    Measure::Float => AxisSide::Right,
                }
            } else {
                AxisSide::Left
            };
            watches[i].axis = Some(side);
        }
        i += 1;
    }
    assert(watch::views(watches@) =~= resolved(before));
    watches
}

/// Where the watches are described. A configuration and specifications exclude each other, and
/// one of the two is needed.
pub fn watch_source(file: Option<String>, specs: &Vec<String>) -> (r: Result<
    WatchSource,
    WatchError,
>)
    ensures
        match r {
            Ok(WatchSource::Input) => watch::optional_text(file) == Some("-"@) && specs@.len()
                == 0,
            Ok(WatchSource::File { path }) => watch::optional_text(file) == Some(path@) && path@
                != "-"@ && specs@.len() == 0,
            Ok(WatchSource::Specs) => file is None && specs@.len() > 0,
            Err(e) => if file is Some {
                e@ == Fault::TwoSources && specs@.len() > 0
            } else {
                e@ == Fault::NoSource && specs@.len() == 0
            },
        },
{
    match file {
        Some(path) => if specs.len() > 0 {
            Err(WatchError::TwoSources)
        } else if text::same_text(path.as_str(), "-") {
            Ok(WatchSource::Input)
        } else {
            Ok(WatchSource::File { path })
        },
        None => if specs.len() > 0 {
            Ok(WatchSource::Specs)
        } else {
            Err(WatchError::NoSource)
        },
    }
}

/// The watches of a configuration, with the side chosen that each is shown on.
pub fn load_config_watches(file: FileConfig, cli_period: Option<Float32>) -> (r: Result<
    Vec<WatchSpec>,
    WatchError,
>)
    ensures
        config::agree_all(r, from_config(config::blocks(file.watch@), file.period, cli_period)),
{
    match config::parse_toml_config(file, cli_period) {
        Ok(watches) => Ok(resolve_axis_defaults(watches)),
        Err(e) => Err(e),
    }
}

/// The watches that a run starts with, with the side chosen that each is shown on: those of a
/// configuration that was read, or those of the specifications on the command line.
pub fn load_watch_specs(
    file: Option<FileConfig>,
    specs: &Vec<String>,
    cli_period: Option<Float32>,
) -> (r: Result<Vec<WatchSpec>, WatchError>)
    ensures
        config::agree_all(r, loaded(file, text::texts(specs@), cli_period)),
{
    match file {
        Some(c) => if specs.len() > 0 {
            Err(WatchError::TwoSources)
        } else {
            load_config_watches(c, cli_period)
        },
        None => load_command_watches(specs, cli_period),
    }
}

/// The watches of the specifications on the command line, with the side chosen that each is shown
/// on.
pub fn load_command_watches(specs: &Vec<String>, cli_period: Option<Float32>) -> (r: Result<
    Vec<WatchSpec>,
    WatchError,
>)
    ensures
        config::agree_all(r, from_specs(text::texts(specs@), cli_period)),
{
    if specs.len() == 0 {
        return Err(WatchError::NoSource);
    }
    let ghost all = text::texts(specs@);
    let wanted: Float32 = match cli_period {
        Some(x) => x,
        None => Float32 { bits: watch::DEFAULT_PERIOD_SECONDS },
    };
    let default_period: Float32 = match watch::parse_period_seconds(wanted, "period") {
        Ok(x) => x,
        Err(e) => {
            return Err(e);
        },
    };
    let mut found: Vec<WatchSpec> = Vec::new();
    let mut i: usize = 0;
    proof {
        assert(all.take(0) =~= Seq::empty());
        assert(watch::views(found@) =~= Seq::empty());
    }
    while i < specs.len()
        invariant
            i <= specs@.len(),
            all == text::texts(specs@),
            from_specs(all, cli_period) == (match specified_all(all, default_period) {
                Err(e) => Err(e),
                Ok(ws) => Ok(resolved(ws)),
            }),
            specified_all(all.take(i as int), default_period) == Ok::<Seq<WatchView>, Fault>(
                watch::views(found@),
            ),
        decreases specs@.len() - i,
    {
        proof {
            assert(all[i as int] == specs@[i as int]@);
            assert(all.take(i + 1).drop_last() =~= all.take(i as int));
        }
        match dsl::parse_watch_dsl(specs[i].as_str(), default_period) {
            Ok(w) => {
                let ghost known = watch::views(found@);
                let ghost view = w@;
                found.push(w);
                assert(watch::views(found@) =~= known.push(view));
            },
            Err(e) => {
                proof {
                    lemma_fault_stays(all, (i + 1) as nat, default_period);
                }
                return Err(e);
            },
        }
        i += 1;
    }
    assert(all.take(i as int) =~= all);
    Ok(resolve_axis_defaults(found))
}

/// Every watch gets a side. A side that was asked for stays; where none was, bytes go to the left
/// and numbers that share the graph with bytes to the right, and everything goes to the left
/// where only one thing is measured. Nothing else changes.
pub proof fn lemma_resolved(ws: Seq<WatchView>, i: int)
    requires
        0 <= i < ws.len(),
    ensures
        resolved(ws).len() == ws.len(),
        resolved(ws)[i].axis is Some,
        ws[i].axis is Some ==> resolved(ws)[i].axis == ws[i].axis,
        ws[i].axis is None && ws[i].measure == Measure::Bytes ==> resolved(ws)[i].axis == Some(
            AxisSide::Left,
        ),
        ws[i].axis is None && ws[i].measure == Measure::Float && reports(ws, Measure::Bytes)
            ==> resolved(ws)[i].axis == Some(AxisSide::Right),
        ws[i].axis is None && !reports(ws, Measure::Bytes) ==> resolved(ws)[i].axis == Some(
            AxisSide::Left,
        ),
        resolved(ws)[i].title == ws[i].title,
        resolved(ws)[i].exp == ws[i].exp,
        resolved(ws)[i].seconds == ws[i].seconds,
        resolved(ws)[i].measure == ws[i].measure,
{
    if ws[i].measure == Measure::Float {
        assert(reports(ws, Measure::Float));
    }
}

/// Choosing sides a second time changes nothing.
pub proof fn lemma_resolved_twice(ws: Seq<WatchView>)
    ensures
        resolved(resolved(ws)) == resolved(ws),
{
    assert(resolved(resolved(ws)) =~= resolved(ws));
}

/// Specifications that are accepted give one valid watch each.
proof fn lemma_specs_valid(specs: Seq<Seq<char>>, default_period: Float32)
    ensures
        specified_all(specs, default_period) matches Ok(ws) ==> ws.len() == specs.len() && forall|
            i: int,
        |
            0 <= i < ws.len() ==> watch::valid_watch(#[trigger] ws[i]),
    decreases specs.len(),
{
    if specs.len() > 0 {
        lemma_specs_valid(specs.drop_last(), default_period);
        dsl::lemma_specified_valid(specs.last(), default_period);
    }
}

/// Whether the watches are those that a run can start with: each is valid and has a side.
pub open spec fn ready(ws: Seq<WatchView>) -> bool {
    forall|i: int|
        0 <= i < ws.len() ==> watch::valid_watch(#[trigger] ws[i]) && ws[i].axis is Some
}

/// What is loaded from specifications is one watch for each, and a run can start with them.
pub proof fn lemma_loaded_specs_ready(specs: Seq<Seq<char>>, period: Option<Float32>)
    ensures
        from_specs(specs, period) matches Ok(ws) ==> ws.len() == specs.len() && ws.len() > 0
            && ready(ws),
{
    let seconds = config::first_of(
        period,
        None,
        Float32 { bits: watch::DEFAULT_PERIOD_SECONDS },
    );
    lemma_specs_valid(specs, seconds);
}

/// What is loaded from a configuration is one watch for each block, and a run can start with
/// them.
pub proof fn lemma_loaded_config_ready(
    blocks: Seq<config::Block>,
    period: Option<Float32>,
    cli_period: Option<Float32>,
)
    ensures
        from_config(blocks, period, cli_period) matches Ok(ws) ==> ws.len() == blocks.len()
            && ws.len() > 0 && ready(ws),
{
    let seconds = config::first_of(
        cli_period,
        period,
        Float32 { bits: watch::DEFAULT_PERIOD_SECONDS },
    );
    config::lemma_blocks_valid(blocks, seconds);
}

/// Whatever is loaded, there is a watch, and a run can start.
pub proof fn lemma_loaded_ready(
    file: Option<FileConfig>,
    specs: Seq<Seq<char>>,
    cli_period: Option<Float32>,
)
    ensures
        loaded(file, specs, cli_period) matches Ok(ws) ==> ws.len() > 0 && ready(ws),
{
    lemma_loaded_specs_ready(specs, cli_period);
    if let Some(c) = file {
        lemma_loaded_config_ready(config::blocks(c.watch@), c.period, cli_period);
    }
}

/// A block and the items of a specification that set the same give the same watch.
pub proof fn lemma_styles_agree(b: config::Block, index: nat, default_period: Float32)
    requires
        b.exp is Some,
        config::block_watch(b, index, default_period) is Ok,
    ensures
        dsl::watch_of(
            dsl::Settings {
                exp: Some(text::trimmed(b.exp->Some_0)),
                title: b.title,
                period: b.period,
                measure: match b.measure {
                    Some(m) => Measure::named(m),
                    None => None,
                },
                axis: match b.axis {
                    Some(a) => AxisSide::named(a),
                    None => None,
                },
            },
            default_period,
        ) == config::block_watch(b, index, default_period),
{
}

/// What `exp=` and a command set.
proof fn lemma_exp_item(command: Seq<char>)
    ensures
        ({
            let value = text::trimmed(command);
            dsl::with_item(dsl::unset(), "exp="@ + command) == if value.len() == 0 {
                Err(Fault::EmptyExp)
            } else {
                Ok(dsl::Settings { exp: Some(value), ..dsl::unset() })
            }
        }),
{
    reveal_strlit("exp=");
    reveal_strlit("exp");
    let front = "exp="@;
    let item = front + command;
    let tail = text::trimmed_end(command);
    let pair = front + tail;
    text::lemma_trimmed_end_behind(front, command);
    assert(text::trimmed_start(item) == item);
    assert(text::trimmed(item) == pair);
    let a = pair.drop_first();
    let b = a.drop_first();
    let c = b.drop_first();
    assert(c[0] == '=');
    assert(text::first_index(c, '=') == 0);
    assert(text::first_index(b, '=') == 1);
    assert(text::first_index(a, '=') == 2);
    assert(text::first_index(pair, '=') == 3);
    assert(pair.take(3) =~= "exp"@);
    assert(text::trimmed("exp"@) == "exp"@);
    assert(text::lowered("exp"@) =~= "exp"@);
    assert(pair.skip(4) =~= tail);
    text::lemma_trimmed_of_end(command);
}

/// A block with nothing but a command and a specification with nothing but that command, which
/// has no `;` in it, give the same watch, or are both refused.
pub proof fn lemma_commands_agree(command: Seq<char>, index: nat, default_period: Float32)
    requires
        !command.contains(';'),
    ensures
        ({
            let block = config::Block {
                exp: Some(command),
                title: None,
                period: None,
                measure: None,
                axis: None,
            };
            let written = dsl::specified("exp="@ + command, default_period);
            let configured = config::block_watch(block, index, default_period);
            &&& written is Ok <==> configured is Ok
            &&& written is Ok ==> written == configured
            &&& written is Ok <==> text::trimmed(command).len() > 0
                && default_period.positive_finite()
        }),
{
    reveal_strlit("exp=");
    let spec = "exp="@ + command;
    let cut = text::cut_at(';');
    assert forall|i: int| 0 <= i < spec.len() implies !cut(#[trigger] spec[i]) by {
        if i >= 4 {
            assert(command.contains(command[i - 4]));
        }
    }
    text::lemma_one_piece(spec, cut);
    let items = text::split_at_char(spec, ';');
    assert(items == seq![spec]);
    assert(items.drop_last() =~= Seq::empty());
    assert(dsl::settings_of(items.drop_last()) == Ok::<dsl::Settings, Fault>(dsl::unset()));
    lemma_exp_item(command);
}

/// The specifications are read one by one: each gives the watch in its place, or the first that
/// is at fault gives the fault.
pub proof fn lemma_specs_one_by_one(specs: Seq<Seq<char>>, default_period: Float32)
    ensures
        match specified_all(specs, default_period) {
            Ok(ws) => ws.len() == specs.len() && forall|i: int|
                0 <= i < specs.len() ==> dsl::specified(#[trigger] specs[i], default_period)
                    == Ok::<WatchView, Fault>(ws[i]),
            Err(e) => exists|i: int|
                0 <= i < specs.len() && dsl::specified(#[trigger] specs[i], default_period) == Err::<
                    WatchView,
                    Fault,
                >(e) && forall|j: int|
                    0 <= j < i ==> dsl::specified(#[trigger] specs[j], default_period) is Ok,
        },
    decreases specs.len(),
{
    if specs.len() > 0 {
        let front = specs.drop_last();
        let n = specs.len() - 1;
        lemma_specs_one_by_one(front, default_period);
        assert forall|i: int| 0 <= i < n implies front[i] == #[trigger] specs[i] by {}
        match specified_all(front, default_period) {
            Ok(ws) => {
                assert forall|i: int| 0 <= i < n implies dsl::specified(
                    #[trigger] specs[i],
                    default_period,
                ) == Ok::<WatchView, Fault>(ws[i]) by {
                    assert(dsl::specified(front[i], default_period) == Ok::<WatchView, Fault>(
                        ws[i],
                    ));
                }
                assert(specs[n] == specs.last());
            },
            Err(e) => {
                let i = choose|i: int|
                    0 <= i < front.len() && dsl::specified(#[trigger] front[i], default_period)
                        == Err::<WatchView, Fault>(e) && forall|j: int|
                        0 <= j < i ==> dsl::specified(#[trigger] front[j], default_period) is Ok;
                assert(specs[i] == front[i]);
                assert forall|j: int| 0 <= j < i implies dsl::specified(
                    #[trigger] specs[j],
                    default_period,
                ) is Ok by {
                    assert(dsl::specified(front[j], default_period) is Ok);
                }
            },
        }
    }
}

/// Both a configuration and specifications are refused, and neither is; a configuration gives its
/// watches, and specifications give theirs, each with a side chosen.
pub proof fn lemma_loaded(
    file: Option<FileConfig>,
    specs: Seq<Seq<char>>,
    cli_period: Option<Float32>,
)
    ensures
        ({
            let r = loaded(file, specs, cli_period);
            let seconds = if cli_period is Some {
                cli_period->0
            } else {
                Float32 { bits: 0x3f80_0000 }
            };
            &&& file is Some && specs.len() > 0 ==> r == Err::<Seq<WatchView>, Fault>(
                Fault::TwoSources,
            )
            &&& file is None && specs.len() == 0 ==> r == Err::<Seq<WatchView>, Fault>(
                Fault::NoSource,
            )
            &&& file is None && specs.len() > 0 && !(0 < seconds.bits < 0x7f80_0000) ==> r == Err::<
                Seq<WatchView>,
                Fault,
            >(Fault::NotPositive { field: "period"@ })
            &&& file is None && specs.len() > 0 && 0 < seconds.bits < 0x7f80_0000 ==> match (
            specified_all(specs, seconds)) {
                Ok(ws) => r == Ok::<Seq<WatchView>, Fault>(resolved(ws)),
                Err(e) => r == Err::<Seq<WatchView>, Fault>(e),
            }
            &&& file is Some && specs.len() == 0 ==> match config::configured(
                config::blocks(file->0.watch@),
                file->0.period,
                cli_period,
            ) {
                Ok(ws) => r == Ok::<Seq<WatchView>, Fault>(resolved(ws)),
                Err(e) => r == Err::<Seq<WatchView>, Fault>(e),
            }
        }),
{
}

/// Numbers that ask for no side go to the right where another watch measures bytes, and to the
/// left where none does.
pub proof fn lemma_numbers_beside_bytes(ws: Seq<WatchView>, i: int, j: int)
    requires
        0 <= i < ws.len(),
        0 <= j < ws.len(),
        ws[i].axis is None,
        ws[i].measure == Measure::Float,
    ensures
        ws[j].measure == Measure::Bytes ==> resolved(ws)[i].axis == Some(AxisSide::Right),
        (forall|k: int| 0 <= k < ws.len() ==> (#[trigger] ws[k]).measure == Measure::Float)
            ==> resolved(ws)[i].axis == Some(AxisSide::Left),
{
    lemma_resolved(ws, i);
    if ws[j].measure == Measure::Bytes {
        assert(reports(ws, Measure::Bytes));
    }
}

} // verus!
