//! The parts of the screen: how it is divided, and where the second axis is drawn.

use ratatui::layout::Constraint::{Length, Min, Percentage};
use ratatui::layout::Direction::{Horizontal, Vertical};
use ratatui::layout::{Flex, Layout, Rect};
use vstd::prelude::*;

verus! {

/// How many cells wide the second axis is.
pub const SECOND_AXIS_WIDTH: u16 = 13;

/// How many columns the header of a watch has.
pub const HEADER_COLUMNS: usize = 8;

/// Cells of the screen: the column and the row of the first, and how many there are.
#[derive(Debug, Clone, Copy, PartialEq, Eq, Structural)]
pub struct Area {
    pub x: u16,
    pub y: u16,
    pub width: u16,
    pub height: u16,
}

/// Which way an area is divided.
#[derive(Debug, Clone, Copy, PartialEq, Eq, Structural)]
pub enum Way {
    /// Side by side.
    Across,
    /// One below the other.
    Down,
}

/// What becomes of the cells that no part asks for.
#[derive(Debug, Clone, Copy, PartialEq, Eq, Structural)]
pub enum Slack {
    /// They stay free.
    Free,
    /// The last part takes them.
    Last,
}

/// How much of an area a part asks for.
#[derive(Debug, Clone, Copy, PartialEq, Eq, Structural)]
pub enum Share {
    /// So many cells.
    Cells(u16),
    /// So many hundredths.
    Percent(u16),
    /// So many cells or more.
    AtLeast(u16),
}

/// The cells left and right, and those above and below, that are not divided.
#[derive(Debug, Clone, Copy, PartialEq, Eq, Structural)]
pub struct Margins {
    pub horizontal: u16,
    pub vertical: u16,
}

/// The lesser of two numbers.
pub open spec fn lesser(a: int, b: int) -> int {
    if a <= b {
        a
    } else {
        b
    }
}

/// An area with its far sides brought onto the screen.
pub open spec fn clipped(x: u16, y: u16, width: u16, height: u16) -> Area {
    Area {
        x,
        y,
        width: lesser(width as int, u16::MAX - x) as u16,
        height: lesser(height as int, u16::MAX - y) as u16,
    }
}

/// An area without its margins; nothing where they leave nothing.
pub open spec fn inside(area: Area, margins: Margins) -> Area {
    let across = lesser(2 * margins.horizontal, u16::MAX as int);
    let down = lesser(2 * margins.vertical, u16::MAX as int);
    if area.width < across || area.height < down {
        Area { x: 0, y: 0, width: 0, height: 0 }
    } else {
        Area {
            x: lesser(area.x + margins.horizontal, u16::MAX as int) as u16,
            y: lesser(area.y + margins.vertical, u16::MAX as int) as u16,
            width: (area.width - across) as u16,
            height: (area.height - down) as u16,
        }
    }
}

/// Whether the parts divide the area that way: they have its other side.
pub open spec fn divides(parts: Seq<Area>, area: Area, way: Way) -> bool {
    forall|i: int|
        0 <= i < parts.len() ==> match way {
            Way::Across => (#[trigger] parts[i]).y == area.y && parts[i].height == area.height,
            Way::Down => parts[i].x == area.x && parts[i].width == area.width,
        }
}

/// The cells from a column and a row on.
fn area_of(x: u16, y: u16, width: u16, height: u16) -> (area: Area)
    ensures
        area == (Area { x, y, width, height }),
{
    Area { x, y, width, height }
}

/// `ratatui::layout::Rect::new`: the rectangle, with its width and height brought down to what
/// keeps its far sides within the coordinates.
#[verifier::external_body]
fn rectangle(x: u16, y: u16, width: u16, height: u16) -> (area: Area)
    ensures
        area == clipped(x, y, width, height),
{
    let rect = Rect::new(x, y, width, height);
    area_of(rect.x, rect.y, rect.width, rect.height)
}

/// Whether `ratatui::layout::Layout::split` may give the parts for the area, with the direction,
/// flex, margins and constraints that the other arguments stand for.
pub uninterp spec fn split_outcome(
    area: Area,
    way: Way,
    slack: Slack,
    margins: Margins,
    shares: Seq<Share>,
    parts: Seq<Area>,
) -> bool;

/// `ratatui::layout::Layout::split`: one part for each share, and each part has the other side
/// of the area without its margins. Where each part begins and how far it goes is found by a
/// solver of linear constraints that walks hash maps: two runs may differ, and it is left unsaid.
#[verifier::external_body]
fn split(area: Area, way: Way, slack: Slack, margins: Margins, shares: &Vec<Share>) -> (parts: Vec<
    Area,
>)
    ensures
        split_outcome(area, way, slack, margins, shares@, parts@),
        parts@.len() == shares@.len(),
        divides(parts@, inside(area, margins), way),
{
    let Area { x, y, width, height } = area;
    let constraints = shares.iter().map(|share| match share {
        Share::Cells(n) => Length(*n),
        Share::Percent(n) => Percentage(*n),
        Share::AtLeast(n) => Min(*n),
    });
    Layout::new(match way { Way::Across => Horizontal, Way::Down => Vertical }, constraints)
        .flex(match slack { Slack::Free => Flex::Start, Slack::Last => Flex::Legacy })
        .horizontal_margin(margins.horizontal)
        .vertical_margin(margins.vertical)
        .split(Rect { x, y, width, height })
        .iter()
        .map(|r| area_of(r.x, r.y, r.width, r.height))
        .collect()
}

/// No margins.
pub open spec fn no_margins() -> Margins {
    Margins { horizontal: 0, vertical: 0 }
}

/// The shares of the screen: one row for each watch, and the rest for the graph.
pub open spec fn row_shares(watches: nat) -> Seq<Share> {
    Seq::new(watches, |i: int| Share::Cells(1)).push(Share::Percent(10))
}

/// The shares of a header: the name, and seven statistics.
pub open spec fn header_shares() -> Seq<Share> {
    seq![
        Share::Percent(30),
        Share::Percent(10),
        Share::Percent(10),
        Share::Percent(10),
        Share::Percent(10),
        Share::Percent(10),
        Share::Percent(10),
        Share::Percent(10),
    ]
}

/// The shares of the screen.
pub fn rows_for(watches: usize) -> (shares: Vec<Share>)
    ensures
        shares@ == row_shares(watches as nat),
        shares@.len() == watches + 1,
        forall|i: int| 0 <= i < watches ==> #[trigger] shares@[i] == Share::Cells(1),
        shares@[watches as int] == Share::Percent(10),
{
    let mut shares: Vec<Share> = Vec::new();
    let mut i: usize = 0;
    while i < watches
        invariant
            i <= watches,
            shares@ == Seq::new(i as nat, |j: int| Share::Cells(1)),
        decreases watches - i,
    {
        shares.push(Share::Cells(1));
        i += 1;
        assert(shares@ =~= Seq::new(i as nat, |j: int| Share::Cells(1)));
    }
    shares.push(Share::Percent(10));
    shares
}

/// The shares of a header.
pub fn header_columns() -> (shares: Vec<Share>)
    ensures
        shares@ == header_shares(),
        shares@.len() == 8,
        shares@[0] == Share::Percent(30),
        forall|i: int| 1 <= i < 8 ==> #[trigger] shares@[i] == Share::Percent(10),
{
    let mut shares: Vec<Share> = Vec::new();
    shares.push(Share::Percent(30));
    let mut i: usize = 1;
    while i < HEADER_COLUMNS
        invariant
            1 <= i <= HEADER_COLUMNS,
            shares@.len() == i,
            shares@[0] == Share::Percent(30),
            forall|j: int| 1 <= j < i ==> shares@[j] == Share::Percent(10),
        decreases HEADER_COLUMNS - i,
    {
        shares.push(Share::Percent(10));
        i += 1;
    }
    assert(shares@ =~= header_shares());
    shares
}

/// The areas of the headers of some watches and, last, of the graph.
pub fn screen_rows(area: Area, watches: usize, margins: Margins) -> (parts: Vec<Area>)
    requires
        watches < usize::MAX,
    ensures
        split_outcome(
            area,
            Way::Down,
            Slack::Last,
            margins,
            row_shares(watches as nat),
            parts@,
        ),
        parts@.len() == watches + 1,
        divides(parts@, inside(area, margins), Way::Down),
{
    let shares = rows_for(watches);
    split(area, Way::Down, Slack::Last, margins, &shares)
}

/// The areas of the parts of a header.
pub fn header_cells(row: Area) -> (parts: Vec<Area>)
    ensures
        split_outcome(row, Way::Across, Slack::Free, no_margins(), header_shares(), parts@),
        parts@.len() == HEADER_COLUMNS,
        divides(parts@, row, Way::Across),
{
    let shares = header_columns();
    split(row, Way::Across, Slack::Free, Margins { horizontal: 0, vertical: 0 }, &shares)
}

/// The area of the graph, and that of a second axis on its right where there is one.
pub fn split_chart_area_for_second_axis(chart: Area, dual_axis: bool) -> (parts: (
    Area,
    Option<Area>,
))
    ensures
        !dual_axis ==> parts == (chart, None::<Area>),
        dual_axis ==> parts.1 is Some && split_outcome(
            chart,
            Way::Across,
            Slack::Free,
            no_margins(),
            seq![Share::AtLeast(1), Share::Cells(SECOND_AXIS_WIDTH)],
            seq![parts.0, parts.1->Some_0],
        ),
        dual_axis ==> parts.1 is Some && split_outcome(
            chart,
            Way::Across,
            Slack::Free,
            (Margins { horizontal: 0, vertical: 0 }),
            seq![Share::AtLeast(1), Share::Cells(13)],
            seq![parts.0, parts.1->Some_0],
        ),
        dual_axis ==> parts.0.y == chart.y && parts.0.height == chart.height
            && parts.1->Some_0.y == chart.y && parts.1->Some_0.height == chart.height,
{
    if !dual_axis {
        return (chart, None);
    }
    let mut shares: Vec<Share> = Vec::new();
    shares.push(Share::AtLeast(1));
    shares.push(Share::Cells(SECOND_AXIS_WIDTH));
    let margins = Margins { horizontal: 0, vertical: 0 };
    let parts = split(chart, Way::Across, Slack::Free, margins, &shares);
    proof {
        assert(shares@ =~= seq![Share::AtLeast(1), Share::Cells(SECOND_AXIS_WIDTH)]);
        assert(parts@ =~= seq![parts@[0], parts@[1]]);
    }
    (parts[0], Some(parts[1]))
}

/// Where the second axis is drawn.
#[derive(Debug)]
pub struct SideAxis {
    /// The line of the axis, on the left of this area.
    pub line: Area,
    /// The title.
    pub title: Area,
    /// The labels, from the lowest to the highest.
    pub labels: Vec<Area>,
}

/// The rows between the top of the graph and the time axis below it.
pub open spec fn graph_height(chart: Area) -> int {
    if chart.height >= 3 {
        chart.height - 2
    } else {
        1
    }
}

/// The row of a label: the first at the bottom, the last at the top, and the others between them
/// at even distances.
pub open spec fn label_row(chart: Area, count: int, i: int) -> int {
    chart.y + (graph_height(chart) - 1) - (i * (graph_height(chart) - 1)) / (count - 1)
}

/// The cells of a line of text on the second axis.
pub open spec fn side_line(axis: Area, y: u16) -> Area {
    clipped(
        (axis.x + 1) as u16,
        y,
        if axis.width > 0 {
            (axis.width - 1) as u16
        } else {
            0
        },
        lesser(1, axis.height as int) as u16,
    )
}

/// Whether the coordinates of the second axis can be counted.
pub open spec fn side_axis_fits(chart: Area, axis: Area, count: int) -> bool {
    &&& axis.x < u16::MAX
    &&& 2 <= count <= u16::MAX
    &&& (count - 1) * (graph_height(chart) - 1) <= u16::MAX
    &&& chart.y + graph_height(chart) - 1 <= u16::MAX
}

proof fn lemma_label_row(chart: Area, count: int, i: int)
    requires
        2 <= count,
        0 <= i < count,
    ensures
        0 <= (i * (graph_height(chart) - 1)) / (count - 1) <= graph_height(chart) - 1,
        0 <= i * (graph_height(chart) - 1) <= (count - 1) * (graph_height(chart) - 1),
{
    let h = graph_height(chart) - 1;
    assert(0 <= i * h <= (count - 1) * h) by (nonlinear_arith)
        requires
            0 <= i <= count - 1,
            h >= 0,
    ;
    assert(0 <= (i * h) / (count - 1) <= h) by (nonlinear_arith)
        requires
            0 <= i * h <= (count - 1) * h,
            count - 1 >= 1,
            h >= 0,
    ;
}

/// Whether the coordinates of the second axis can be counted.
pub fn fits_side_axis(chart: Area, axis: Area, count: usize) -> (yes: bool)
    ensures
        yes == side_axis_fits(chart, axis, count as int),
        chart.height >= 3 ==> yes == (axis.x < 65535 && 2 <= count <= 65535 && (count - 1) * (
        chart.height - 3) <= 65535 && chart.y + chart.height - 3 <= 65535),
        chart.height < 3 ==> yes == (axis.x < 65535 && 2 <= count <= 65535),
{
    assert((count - 1) * 0 == 0) by (nonlinear_arith);
    let top: u64 = if chart.height >= 3 {
        chart.height as u64 - 3
    } else {
        0
    };
    if axis.x == u16::MAX || count < 2 || count > u16::MAX as usize {
        return false;
    }
    let steps: u64 = count as u64 - 1;
    assert(steps * top <= 0xffff * 0xffff) by (nonlinear_arith)
        requires
            steps <= 0xffff,
            top <= 0xffff,
    ;
    steps * top <= u16::MAX as u64 && chart.y as u64 + top <= u16::MAX as u64
}

/// Where the second axis is drawn, with so many labels.
pub fn side_axis(chart: Area, axis: Area, count: usize) -> (side: SideAxis)
    requires
        side_axis_fits(chart, axis, count as int),
    ensures
        side.line == clipped(axis.x, chart.y, axis.width, graph_height(chart) as u16),
        side.title == side_line(axis, axis.y),
        side.labels@.len() == count,
        forall|i: int|
            0 <= i < count ==> #[trigger] side.labels@[i] == side_line(
                axis,
                label_row(chart, count as int, i) as u16,
            ),
{
    let height: u16 = if chart.height >= 3 {
        chart.height - 2
    } else {
        1
    };
    let width: u16 = if axis.width > 0 {
        axis.width - 1
    } else {
        0
    };
    let one: u16 = if axis.height > 0 {
        1
    } else {
        0
    };
    let line = rectangle(axis.x, chart.y, axis.width, height);
    let title = rectangle(axis.x + 1, axis.y, width, one);
    let steps: u16 = count as u16 - 1;
    let mut labels: Vec<Area> = Vec::new();
    let mut i: usize = 0;
    while i < count
        invariant
            i <= count,
            side_axis_fits(chart, axis, count as int),
            height == graph_height(chart),
            width == (if axis.width > 0 {
                axis.width - 1
            } else {
                0
            }),
            one == lesser(1, axis.height as int),
            steps == count - 1,
            labels@.len() == i,
            forall|j: int|
                0 <= j < i ==> #[trigger] labels@[j] == side_line(
                    axis,
                    label_row(chart, count as int, j) as u16,
                ),
        decreases count - i,
    {
        proof {
            lemma_label_row(chart, count as int, i as int);
        }
        let dy: u16 = i as u16 * (height - 1) / steps;
        let y: u16 = chart.y + (height - 1) - dy;
        labels.push(rectangle(axis.x + 1, y, width, one));
        i += 1;
    }
    SideAxis { line, title, labels }
}

/// The lowest label stands at the bottom of the graph and the highest at its top, and no label
/// stands below a lower one or outside the graph.
pub proof fn lemma_label_rows(chart: Area, count: int, i: int, j: int)
    requires
        count >= 2,
        0 <= i <= j < count,
    ensures
        label_row(chart, count, 0) == chart.y + graph_height(chart) - 1,
        label_row(chart, count, count - 1) == chart.y,
        chart.y <= label_row(chart, count, j) <= label_row(chart, count, i) <= chart.y
            + graph_height(chart) - 1,
{
    let h = graph_height(chart) - 1;
    lemma_label_row(chart, count, i);
    lemma_label_row(chart, count, j);
    assert(0 * h == 0) by (nonlinear_arith);
    assert(0int / (count - 1) == 0) by (nonlinear_arith)
        requires
            count >= 2,
    ;
    vstd::arithmetic::div_mod::lemma_div_multiples_vanish(h, count - 1);
    assert(i * h <= j * h) by (nonlinear_arith)
        requires
            i <= j,
            h >= 0,
    ;
    vstd::arithmetic::div_mod::lemma_div_is_ordered(i * h, j * h, count - 1);
}

/// The labels stand at even distances: each is away from its share of the way up, of the rows
/// between the top of the graph and the time axis two rows above the end of its area, by less than
/// a row.
pub proof fn lemma_label_rows_even(chart: Area, count: int, i: int)
    requires
        count >= 2,
        0 <= i < count,
        chart.height >= 3,
    ensures
        ({
            let bottom = chart.y + chart.height - 3;
            let up = bottom - label_row(chart, count, i);
            0 <= i * (chart.height - 3) - up * (count - 1) < count - 1
        }),
        graph_height(chart) == chart.height - 2,
{
    let h = chart.height - 3;
    let up = (i * h) / (count - 1);
    vstd::arithmetic::div_mod::lemma_fundamental_div_mod(i * h, count - 1);
    assert(up * (count - 1) == (count - 1) * up) by (nonlinear_arith);
}

/// A graph without three rows has its labels in its first.
pub proof fn lemma_label_rows_low(chart: Area, count: int, i: int)
    requires
        count >= 2,
        0 <= i < count,
        chart.height < 3,
    ensures
        graph_height(chart) == 1,
        label_row(chart, count, i) == chart.y,
{
    assert(i * 0 == 0) by (nonlinear_arith);
    assert(0int / (count - 1) == 0) by (nonlinear_arith)
        requires
            count >= 2,
    ;
}

/// A line of the second axis begins one cell behind the axis line, goes up to its end, and has one
/// row.
pub proof fn lemma_side_line(axis: Area, y: u16)
    requires
        axis.width > 0,
        axis.height > 0,
        axis.x + axis.width <= u16::MAX,
        y < u16::MAX,
    ensures
        side_line(axis, y).x == axis.x + 1,
        side_line(axis, y).x + side_line(axis, y).width == axis.x + axis.width,
        side_line(axis, y).y == y,
        side_line(axis, y).height == 1,
{
}

/// What lies inside of margins that leave something is away from each side by its margin.
pub proof fn lemma_inside(area: Area, margins: Margins)
    requires
        2 * margins.horizontal <= area.width,
        2 * margins.vertical <= area.height,
        area.x + area.width <= u16::MAX,
        area.y + area.height <= u16::MAX,
    ensures
        ({
            let part = inside(area, margins);
            &&& part.x == area.x + margins.horizontal
            &&& part.y == area.y + margins.vertical
            &&& part.x + part.width + margins.horizontal == area.x + area.width
            &&& part.y + part.height + margins.vertical == area.y + area.height
        }),
{
}

/// Parts that divide an area have its other side.
pub proof fn lemma_divides(parts: Seq<Area>, area: Area, i: int)
    requires
        0 <= i < parts.len(),
    ensures
        divides(parts, area, Way::Across) ==> parts[i].y == area.y && parts[i].height == area.height,
        divides(parts, area, Way::Down) ==> parts[i].x == area.x && parts[i].width == area.width,
{
}

/// Without margins all of an area lies inside.
pub proof fn lemma_no_margins(area: Area)
    ensures
        no_margins().horizontal == 0,
        no_margins().vertical == 0,
        inside(area, no_margins()) == area,
{
}

/// An area that is on the screen stays as it is, and one that goes beyond it ends where it ends.
pub proof fn lemma_clipped(x: u16, y: u16, width: u16, height: u16)
    ensures
        clipped(x, y, width, height).x == x,
        clipped(x, y, width, height).y == y,
        x + width <= u16::MAX ==> clipped(x, y, width, height).width == width,
        y + height <= u16::MAX ==> clipped(x, y, width, height).height == height,
        x + width > u16::MAX ==> x + clipped(x, y, width, height).width == u16::MAX,
        y + height > u16::MAX ==> y + clipped(x, y, width, height).height == u16::MAX,
{
}

/// An axis without a cell across or down has lines without one.
pub proof fn lemma_side_line_empty(axis: Area, y: u16)
    ensures
        axis.width == 0 ==> side_line(axis, y).width == 0,
        axis.height == 0 ==> side_line(axis, y).height == 0,
{
}

} // verus!
