//! Watches from the blocks of a configuration.

use crate::decimal;
use crate::error;
use crate::error::{Fault, WatchError};
use crate::float::Float32;
use crate::measure::{AxisSide, Measure};
use crate::text;
use crate::watch;
use crate::watch::{WatchSpec, WatchView};
use vstd::prelude::*;

verus! {

broadcast use vstd::string::group_string_axioms;

/// One block of a configuration, as it is written.
#[derive(Debug)]
pub struct FileWatch {
    pub exp: Option<String>,
    pub title: Option<String>,
    pub period: Option<Float32>,
    pub measure: Option<String>,
    pub axis: Option<String>,
}

/// A configuration, as it is written.
#[derive(Debug)]
pub struct FileConfig {
    /// The seconds between two runs for the blocks that do not say.
    pub period: Option<Float32>,
    /// The blocks.
    pub watch: Vec<FileWatch>,
}

/// A block with the characters of its texts.
pub struct Block {
    pub exp: Option<Seq<char>>,
    pub title: Option<Seq<char>>,
    pub period: Option<Float32>,
    pub measure: Option<Seq<char>>,
    pub axis: Option<Seq<char>>,
}

impl View for FileWatch {
    type V = Block;

    open spec fn view(&self) -> Block {
        Block {
            exp: watch::optional_text(self.exp),
            title: watch::optional_text(self.title),
            period: self.period,
            measure: watch::optional_text(self.measure),
            axis: watch::optional_text(self.axis),
        }
    }
}

/// The blocks with the characters of their texts.
pub open spec fn blocks(watches: Seq<FileWatch>) -> Seq<Block> {
    watches.map_values(|w: FileWatch| w@)
}

/// The first of two optional numbers that is there, or else a third number.
pub open spec fn first_of(
    first: Option<Float32>,
    second: Option<Float32>,
    third: Float32,
) -> Float32 {
    match first {
        Some(x) => x,
        None => match second {
            Some(x) => x,
            None => third,
        },
    }
}

/// The watch that the block with the given index describes.
pub open spec fn block_watch(b: Block, index: nat, default_period: Float32) -> Result<
    WatchView,
    Fault,
> {
    let exp = match b.exp {
        Some(t) => text::trimmed(t),
        None => Seq::empty(),
    };
    let seconds = first_of(b.period, None, default_period);
    if exp.len() == 0 {
        Err(Fault::MissingField { index })
    } else if !seconds.positive_finite() {
        Err(Fault::NotPositive { field: error::block_name(index) + ".period"@ })
    } else {
        match watch::chosen_measure(b.measure) {
            Err(name) => Err(Fault::InvalidMeasure { index, name }),
            Ok(measure) => match watch::chosen_axis(b.axis) {
                Err(name) => Err(Fault::InvalidAxis { index, name }),
                Ok(axis) => Ok(
                    WatchView {
                        title: watch::title_for(b.title, exp),
                        exp,
                        seconds,
                        measure,
                        axis,
                    },
                ),
            },
        }
    }
}

/// The watches that the blocks describe, or the fault of the first block that is at fault.
pub open spec fn block_watches(bs: Seq<Block>, default_period: Float32) -> Result<
    Seq<WatchView>,
    Fault,
>
    decreases bs.len(),
{
    if bs.len() == 0 {
        Ok(Seq::empty())
    } else {
        match block_watches(bs.drop_last(), default_period) {
            Err(e) => Err(e),
            Ok(ws) => match block_watch(bs.last(), (bs.len() - 1) as nat, default_period) {
                Err(e) => Err(e),
                Ok(w) => Ok(ws.push(w)),
            },
        }
    }
}

/// The watches that a configuration describes. A period from the command line goes before that
/// of the configuration.
pub open spec fn configured(
    bs: Seq<Block>,
    period: Option<Float32>,
    cli_period: Option<Float32>,
) -> Result<Seq<WatchView>, Fault> {
    if bs.len() == 0 {
        Err(Fault::NoBlocks)
    } else {
        match watch::checked_period(
            first_of(
                cli_period,
                period,
                Float32 { bits: watch::DEFAULT_PERIOD_SECONDS },
            ),
            "period"@,
        ) {
            Err(e) => Err(e),
            Ok(seconds) => block_watches(bs, seconds),
        }
    }
}

/// The first fault stays.
proof fn lemma_fault_stays(bs: Seq<Block>, n: nat, default_period: Float32)
    requires
        n <= bs.len(),
        block_watches(bs.take(n as int), default_period) is Err,
    ensures
        block_watches(bs, default_period) == block_watches(bs.take(n as int), default_period),
    decreases bs.len(),
{
    if n == bs.len() {
        assert(bs.take(n as int) =~= bs);
    } else {
        assert(bs.drop_last().take(n as int) =~= bs.take(n as int));
        lemma_fault_stays(bs.drop_last(), n, default_period);
    }
}

fn as_text(s: &Option<String>) -> (t: Option<&str>)
    ensures
        t is Some <==> s is Some,
        t matches Some(x) ==> Some(x@) == watch::optional_text(*s),
{
    match s {
        Some(x) => Some(x.as_str()),
        None => None,
    }
}

/// The watch that the block with the given index describes.
pub fn parse_file_watch(w: FileWatch, idx: usize, default_period: Float32) -> (r: Result<
    WatchSpec,
    WatchError,
>)
    ensures
        watch::agrees(r, block_watch(w@, idx as nat, default_period)),
{
    let exp = match &w.exp {
        Some(t) => text::trim(t.as_str()),
        None => String::new(),
    };
    if exp.as_str().is_empty() {
        return Err(WatchError::MissingField { index: idx });
    }
    let wanted: Float32 = match w.period {
        Some(x) => x,
        None => default_period,
    };
    let field = error::period_field(idx);
    let seconds: Float32 = match watch::parse_period_seconds(wanted, field.as_str()) {
        Ok(x) => x,
        Err(e) => {
            return Err(e);
        },
    };
    let measure = match watch::parse_measure(as_text(&w.measure)) {
        Ok(m) => m,
        Err(WatchError::UnknownMeasure { name }) => {
            return Err(WatchError::InvalidMeasure { index: idx, name });
        },
        Err(e) => {
            return Err(e);
        },
    };
    let axis = match watch::parse_axis(as_text(&w.axis)) {
        Ok(a) => a,
        Err(WatchError::UnknownAxis { name }) => {
            return Err(WatchError::InvalidAxis { index: idx, name });
        },
        Err(e) => {
            return Err(e);
        },
    };
    let title = watch::normalize_title(w.title, exp.as_str());
    Ok(WatchSpec { title, exp, seconds, measure, axis })
}

/// Whether the watches, or the error, are those that are described.
pub open spec fn agree_all(
    r: Result<Vec<WatchSpec>, WatchError>,
    model: Result<Seq<WatchView>, Fault>,
) -> bool {
    match r {
        Ok(ws) => model == Ok::<Seq<WatchView>, Fault>(watch::views(ws@)),
        Err(e) => model == Err::<Seq<WatchView>, Fault>(e@),
    }
}

/// The watches that a configuration describes.
pub fn parse_toml_config(config: FileConfig, cli_period: Option<Float32>) -> (r: Result<
    Vec<WatchSpec>,
    WatchError,
>)
    ensures
        agree_all(r, configured(blocks(config.watch@), config.period, cli_period)),
{
    let ghost all = blocks(config.watch@);
    let ghost expected = configured(all, config.period, cli_period);
    if config.watch.len() == 0 {
        return Err(WatchError::NoBlocks);
    }
    let wanted: Float32 = match cli_period {
        Some(x) => x,
        None => match config.period {
            Some(x) => x,
            None => Float32 { bits: watch::DEFAULT_PERIOD_SECONDS },
        },
    };
    let global_period: Float32 = match watch::parse_period_seconds(wanted, "period") {
        Ok(x) => x,
        Err(e) => {
            return Err(e);
        },
    };
    let mut rest: Vec<FileWatch> = config.watch;
    let mut found: Vec<WatchSpec> = Vec::new();
    let mut i: usize = 0;
    let n: usize = rest.len();
    proof {
        assert(all.skip(0) =~= all);
        assert(all.take(0) =~= Seq::empty());
        assert(watch::views(found@) =~= Seq::empty());
    }
    while i < n
        invariant
            i <= n,
            all.len() == n,
            expected == configured(blocks(config.watch@), config.period, cli_period),
            expected == block_watches(all, global_period),
            blocks(rest@) == all.skip(i as int),
            block_watches(all.take(i as int), global_period) == Ok::<Seq<WatchView>, Fault>(
                watch::views(found@),
            ),
        decreases n - i,
    {
        assert(rest@.len() == blocks(rest@).len());
        let ghost before = rest@;
        let block: FileWatch = rest.remove(0);
        proof {
            assert(blocks(before)[0] == all[i as int]);
            assert(all.take(i + 1).drop_last() =~= all.take(i as int));
            assert(blocks(rest@) =~= all.skip(i + 1)) by {
                assert forall|j: int| 0 <= j < rest@.len() implies blocks(rest@)[j] == all.skip(
                    i + 1,
                )[j] by {
                    assert(blocks(before)[j + 1] == all.skip(i as int)[j + 1]);
                }
            }
        }
        match parse_file_watch(block, i, global_period) {
            Ok(w) => {
                let ghost known = watch::views(found@);
                let ghost view = w@;
                found.push(w);
                assert(watch::views(found@) =~= known.push(view));
            },
            Err(e) => {
                proof {
                    lemma_fault_stays(all, (i + 1) as nat, global_period);
                }
                return Err(e);
            },
        }
        i += 1;
    }
    assert(all.take(n as int) =~= all);
    Ok(found)
}

/// A block that is accepted gives a valid watch.
pub proof fn lemma_block_valid(b: Block, index: nat, default_period: Float32)
    ensures
        block_watch(b, index, default_period) matches Ok(w) ==> watch::valid_watch(w),
{
    if let Some(t) = b.exp {
        text::lemma_trimmed_twice(t);
        watch::lemma_title_length(b.title, text::trimmed(t));
    }
}

/// Blocks that are accepted give one valid watch each.
pub proof fn lemma_blocks_valid(bs: Seq<Block>, default_period: Float32)
    ensures
        block_watches(bs, default_period) matches Ok(ws) ==> ws.len() == bs.len() && forall|
            i: int,
        |
            0 <= i < ws.len() ==> watch::valid_watch(#[trigger] ws[i]),
    decreases bs.len(),
{
    if bs.len() > 0 {
        lemma_blocks_valid(bs.drop_last(), default_period);
        lemma_block_valid(bs.last(), (bs.len() - 1) as nat, default_period);
    }
}

/// The period of a block goes before the period for all.
pub proof fn lemma_own_period_counts(b: Block, index: nat, p: Float32, q: Float32)
    requires
        b.period is Some,
    ensures
        block_watch(b, index, p) == block_watch(b, index, q),
{
}

/// A period from the command line goes before that of the configuration.
pub proof fn lemma_cli_period_counts(
    bs: Seq<Block>,
    p: Option<Float32>,
    q: Option<Float32>,
    cli_period: Float32,
)
    ensures
        configured(bs, p, Some(cli_period)) == configured(bs, q, Some(cli_period)),
{
}

/// The blocks are read one by one: each gives the watch in its place, or the first that is at
/// fault gives the fault.
pub proof fn lemma_blocks_one_by_one(bs: Seq<Block>, default_period: Float32)
    ensures
        match block_watches(bs, default_period) {
            Ok(ws) => ws.len() == bs.len() && forall|i: int|
                0 <= i < bs.len() ==> #[trigger] block_watch(bs[i], i as nat, default_period)
                    == Ok::<WatchView, Fault>(ws[i]),
            Err(e) => exists|i: int|
                0 <= i < bs.len() && #[trigger] block_watch(bs[i], i as nat, default_period)
                    == Err::<WatchView, Fault>(e) && forall|j: int|
                    0 <= j < i ==> (#[trigger] block_watch(
                        bs[j],
                        j as nat,
                        default_period,
                    )) is Ok,
        },
    decreases bs.len(),
{
    if bs.len() > 0 {
        let front = bs.drop_last();
        let n = bs.len() - 1;
        lemma_blocks_one_by_one(front, default_period);
        assert forall|i: int| 0 <= i < n implies front[i] == bs[i] by {}
        match block_watches(front, default_period) {
            Ok(ws) => {
                assert forall|i: int| 0 <= i < n implies #[trigger] block_watch(
                    bs[i],
                    i as nat,
                    default_period,
                ) == Ok::<WatchView, Fault>(ws[i]) by {
                    assert(block_watch(front[i], i as nat, default_period) == Ok::<
                        WatchView,
                        Fault,
                    >(ws[i]));
                }
                assert(block_watch(bs[n], n as nat, default_period) == block_watch(
                    bs.last(),
                    n as nat,
                    default_period,
                ));
            },
            Err(e) => {
                let i = choose|i: int|
                    0 <= i < front.len() && #[trigger] block_watch(
                        front[i],
                        i as nat,
                        default_period,
                    ) == Err::<WatchView, Fault>(e) && forall|j: int|
                        0 <= j < i ==> (#[trigger] block_watch(
                            front[j],
                            j as nat,
                            default_period,
                        )) is Ok;
                assert(block_watch(bs[i], i as nat, default_period) == Err::<WatchView, Fault>(e));
                assert forall|j: int| 0 <= j < i implies (#[trigger] block_watch(
                    bs[j],
                    j as nat,
                    default_period,
                )) is Ok by {
                    assert(block_watch(front[j], j as nat, default_period) is Ok);
                }
            },
        }
    }
}

/// Which block it is does not count for the watch that it gives.
pub proof fn lemma_index_ignored(b: Block, i: nat, j: nat, default_period: Float32)
    ensures
        block_watch(b, i, default_period) is Ok <==> block_watch(b, j, default_period) is Ok,
        block_watch(b, i, default_period) is Ok ==> block_watch(b, i, default_period)
            == block_watch(b, j, default_period),
{
}

/// The watch of a block has its command, without white space around it, its period or else the
/// default, and the title, measure and side that it names; and a block is refused for the first of
/// these that is at fault.
pub proof fn lemma_block_fields(b: Block, index: nat, default_period: Float32)
    ensures
        ({
            let r = block_watch(b, index, default_period);
            let blank = b.exp is None || text::trimmed(b.exp->0).len() == 0;
            let exp = text::trimmed(b.exp->0);
            let seconds = if b.period is Some {
                b.period->0
            } else {
                default_period
            };
            let positive = 0 < seconds.bits < 0x7f80_0000;
            let measured = b.measure is None || Measure::named(b.measure->0) is Some;
            let placed = b.axis is None || AxisSide::named(b.axis->0) is Some;
            &&& blank ==> r == Err::<WatchView, Fault>(Fault::MissingField { index })
            &&& !blank && !positive ==> r == Err::<WatchView, Fault>(
                Fault::NotPositive { field: "watch["@ + decimal::digits(index) + "]"@ + ".period"@ },
            )
            &&& !blank && positive && !measured ==> r == Err::<WatchView, Fault>(
                Fault::InvalidMeasure { index, name: text::lowered(text::trimmed(b.measure->0)) },
            )
            &&& !blank && positive && measured && !placed ==> r == Err::<WatchView, Fault>(
                Fault::InvalidAxis { index, name: text::lowered(text::trimmed(b.axis->0)) },
            )
            &&& !blank && positive && measured && placed ==> r is Ok && {
                let w = r->Ok_0;
                &&& w.exp == exp
                &&& w.seconds == seconds
                &&& w.title == watch::title_for(b.title, exp)
                &&& b.measure is None ==> w.measure == Measure::Float
                &&& b.measure is Some ==> Some(w.measure) == Measure::named(b.measure->0)
                &&& b.axis is None ==> w.axis is None
                &&& b.axis is Some ==> w.axis == AxisSide::named(b.axis->0)
            }
        }),
{
}

/// A configuration without a block is refused. The period for the blocks that do not say is that
/// of the command line, or else that of the configuration, or else one second, and it is refused
/// where it is not positive.
pub proof fn lemma_configured(
    bs: Seq<Block>,
    period: Option<Float32>,
    cli_period: Option<Float32>,
)
    ensures
        bs.len() == 0 ==> configured(bs, period, cli_period) == Err::<Seq<WatchView>, Fault>(
            Fault::NoBlocks,
        ),
        bs.len() > 0 ==> {
            let seconds = if cli_period is Some {
                cli_period->0
            } else if period is Some {
                period->0
            } else {
                Float32 { bits: 0x3f80_0000 }
            };
            &&& 0 < seconds.bits < 0x7f80_0000 ==> configured(bs, period, cli_period)
                == block_watches(bs, seconds)
            &&& !(0 < seconds.bits < 0x7f80_0000) ==> configured(bs, period, cli_period) == Err::<
                Seq<WatchView>,
                Fault,
            >(Fault::NotPositive { field: "period"@ })
        },
{
}

/// Watches that are as described are accepted or refused as described, one for each that is
/// described, in their order.
pub proof fn lemma_agree_all(
    r: Result<Vec<WatchSpec>, WatchError>,
    model: Result<Seq<WatchView>, Fault>,
)
    requires
        agree_all(r, model),
    ensures
        r is Ok <==> model is Ok,
        r matches Ok(ws) ==> ws@.len() == model->Ok_0.len() && forall|i: int|
            0 <= i < ws@.len() ==> {
                let w = #[trigger] model->Ok_0[i];
                &&& ws@[i].title@ == w.title
                &&& ws@[i].exp@ == w.exp
                &&& ws@[i].seconds == w.seconds
                &&& ws@[i].measure == w.measure
                &&& ws@[i].axis == w.axis
            },
        r matches Err(e) ==> e@ == model->Err_0,
{
}

/// A block and its characters have the same texts and the same period, and blocks have theirs in
/// their order.
pub proof fn lemma_block_view(watches: Seq<FileWatch>, i: int)
    requires
        0 <= i < watches.len(),
    ensures
        blocks(watches).len() == watches.len(),
        ({
            let w = watches[i];
            let b = blocks(watches)[i];
            &&& w.exp matches Some(t) ==> b.exp == Some(t@)
            &&& w.exp is None ==> b.exp is None
            &&& w.title matches Some(t) ==> b.title == Some(t@)
            &&& w.title is None ==> b.title is None
            &&& b.period == w.period
            &&& w.measure matches Some(t) ==> b.measure == Some(t@)
            &&& w.measure is None ==> b.measure is None
            &&& w.axis matches Some(t) ==> b.axis == Some(t@)
            &&& w.axis is None ==> b.axis is None
        }),
{
}

} // verus!
