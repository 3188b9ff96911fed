//! A run: what happens in it, and what is done about it.

use crate::chart::App;
use crate::clock;
use crate::command::Update;
use crate::float::Float64;
use crate::measure::AxisSide;
use crate::plot_data;
use crate::plot_data::PlotData;
use crate::watch::WatchSpec;
use ratatui::style::Style;
use vstd::prelude::*;

verus! {

/// What happens in a run.
#[derive(Debug, Clone, Copy, PartialEq, Eq, Structural)]
pub enum Event {
    /// The watch with an index has run its command.
    Update(usize, Update),
    /// The run is to end.
    Terminate,
    /// It is time to draw.
    Render,
}

/// What is to be done.
#[derive(Debug, Clone, Copy, PartialEq, Eq, Structural)]
pub enum Action {
    /// Wait for what happens next.
    Wait,
    /// Draw the graph.
    Draw,
    /// End the run.
    Stop,
}

/// A key.
#[derive(Debug, Clone, Copy, PartialEq, Eq, Structural)]
pub enum Key {
    /// The key of a character.
    Char(char),
    /// The escape key.
    Escape,
    /// Any other key.
    Other,
}

/// Whether a key ends the run: `q` and escape do, and `c` while control is held and nothing else.
pub open spec fn ends_run(key: Key, only_control: bool) -> bool {
    key == Key::Char('q') || key == Key::Escape || (key == Key::Char('c') && only_control)
}

/// Whether a key ends the run.
pub fn quits(key: Key, only_control: bool) -> (yes: bool)
    ensures
        yes == ends_run(key, only_control),
        key == Key::Char('q') ==> yes,
        key == Key::Escape ==> yes,
        key == Key::Char('c') ==> yes == only_control,
        key == Key::Other ==> !yes,
        key matches Key::Char(c) ==> c != 'q' && c != 'c' ==> !yes,
{
    match key {
        Key::Char(c) => c == 'q' || (c == 'c' && only_control),
        Key::Escape => true,
        Key::Other => false,
    }
}

/// The number that an outcome holds.
pub open spec fn reported_item(update: Update) -> Option<Float64> {
    match update {
        Update::Value(value) => Some(value),
        Update::Missing => None,
    }
}

/// Whether what happens can be dealt with at the given millisecond: it concerns a watch that is
/// there, and the calendar has the time up to which its points are kept.
pub open spec fn acceptable(app: App, event: Event, now: i64) -> bool {
    match event {
        Event::Update(watch, _) => {
            &&& watch < app.data@.len()
            &&& clock::millis_in_calendar(now as int)
            &&& clock::millis_in_calendar(now - app.data@[watch as int].buffer)
        },
        _ => true,
    }
}

impl App {
    /// Whether what happens can be dealt with at the given millisecond.
    pub fn accepts(&self, event: &Event, now: i64) -> (yes: bool)
        ensures
            yes == acceptable(*self, *event, now),
            *event == Event::Render || *event == Event::Terminate ==> yes,
            *event matches Event::Update(watch, _) ==> yes == (watch < self.data@.len()
                && clock::millis_in_calendar(now as int) && clock::millis_in_calendar(
                now - self.data@[watch as int].buffer,
            )),
    {
        match *event {
            Event::Update(watch, _) => watch < self.data.len() && clock::has_millis(now as i128)
                && clock::has_millis(now as i128 - self.data[watch].buffer as i128),
            _ => true,
        }
    }

    /// Deals with what happened, and says what is to be done.
    pub fn handle(&mut self, event: Event, now: i64) -> (action: Action)
        requires
            acceptable(*old(self), event, now),
        ensures
            match event {
                Event::Update(watch, update) => {
                    &&& action == Action::Wait
                    &&& final(self).data@.len() == old(self).data@.len()
                    &&& forall|i: int|
                        0 <= i < old(self).data@.len() && i != watch ==> final(self).data@[i]
                            == old(self).data@[i]
                    &&& plot_data::updated(
                        old(self).data@[watch as int],
                        final(self).data@[watch as int],
                        now,
                        reported_item(update),
                    )
                    &&& final(self).data@[watch as int].data@.len() > 0
                    &&& final(self).data@[watch as int].data@.last().0 == plot_data::seconds_of(
                        now as int,
                    )
                    &&& update matches Update::Value(value)
                        ==> final(self).data@[watch as int].data@.last().1 == value
                    &&& update is Missing
                        ==> final(self).data@[watch as int].data@.last().1.nan()
                    &&& final(self).display_interval == old(self).display_interval
                    &&& final(self).started == old(self).started
                },
                Event::Render => action == Action::Draw && *final(self) == *old(self),
                Event::Terminate => action == Action::Stop && *final(self) == *old(self),
            },
    {
        match event {
            Event::Update(watch, Update::Value(value)) => {
                self.update(watch, now, Some(value));
                Action::Wait
            },
            Event::Update(watch, Update::Missing) => {
                self.update(watch, now, None);
                Action::Wait
            },
            Event::Render => Action::Draw,
            Event::Terminate => Action::Stop,
        }
    }
}

/// Whether the plot is that of a watch which has not reported anything.
pub open spec fn starts(
    plot: PlotData,
    watch: WatchSpec,
    style: Style,
    buffer: u64,
    simple_graphics: bool,
) -> bool {
    &&& plot.display@ == watch.title@
    &&& plot.data@.len() == 0
    &&& plot.style == style
    &&& plot.measure == watch.measure
    &&& Some(plot.axis) == watch.axis
    &&& plot.buffer == 1000 * plot_data::signed_seconds(buffer)
    &&& plot.simple_graphics == simple_graphics
}

/// The plots of the watches, as many as there are styles for.
pub fn plots_for(
    watches: &Vec<WatchSpec>,
    styles: &Vec<Style>,
    buffer: u64,
    simple_graphics: bool,
) -> (plots: Vec<PlotData>)
    requires
        -clock::MAX_SECONDS <= plot_data::signed_seconds(buffer) <= clock::MAX_SECONDS,
        forall|i: int| 0 <= i < watches@.len() ==> (#[trigger] watches@[i]).axis is Some,
    ensures
        plots@.len() == if watches@.len() <= styles@.len() {
            watches@.len()
        } else {
            styles@.len()
        },
        forall|i: int|
            0 <= i < plots@.len() ==> starts(
                #[trigger] plots@[i],
                watches@[i],
                styles@[i],
                buffer,
                simple_graphics,
            ),
        forall|i: int|
            0 <= i < plots@.len() ==> {
                &&& (#[trigger] plots@[i]).display@ == watches@[i].title@
                &&& plots@[i].data@.len() == 0
                &&& plots@[i].style == styles@[i]
                &&& plots@[i].measure == watches@[i].measure
                &&& Some(plots@[i].axis) == watches@[i].axis
                &&& buffer <= i64::MAX ==> plots@[i].buffer == 1000 * buffer
                &&& plots@[i].simple_graphics == simple_graphics
            },
{
    let mut plots: Vec<PlotData> = Vec::new();
    let mut i: usize = 0;
    while i < watches.len() && i < styles.len()
        invariant
            i <= watches@.len(),
            i <= styles@.len(),
            -clock::MAX_SECONDS <= plot_data::signed_seconds(buffer) <= clock::MAX_SECONDS,
            forall|j: int| 0 <= j < watches@.len() ==> (#[trigger] watches@[j]).axis is Some,
            plots@.len() == i,
            forall|j: int|
                0 <= j < i ==> starts(
                    #[trigger] plots@[j],
                    watches@[j],
                    styles@[j],
                    buffer,
                    simple_graphics,
                ),
        decreases watches@.len() - i,
    {
        let watch = &watches[i];
        let axis: AxisSide = match watch.axis {
            Some(side) => side,
            None => AxisSide::Left,
        };
        plots.push(
            PlotData::new(
                watch.title.clone(),
                buffer,
                styles[i],
                simple_graphics,
                watch.measure,
                axis,
            ),
        );
        i += 1;
    }
    plots
}

/// A command that reports nothing leaves a gap.
pub proof fn lemma_missing_is_gap()
    ensures
        plot_data::drawn(reported_item(Update::Missing)).nan(),
{
}

} // verus!
