use gwatch::chart::{
    axis_title, remap_series_to_bounds, remap_value_between_bounds, App, Bounds,
};
use gwatch::clock::{clock_label, midpoint, moment_at, span_millis, Moment};
use gwatch::float::Float64;
use gwatch::measure::{AxisSide, Measure};
use gwatch::plot_data::PlotData;
use gwatch::screen::{
    fits_side_axis, header_cells, screen_rows, side_axis, split_chart_area_for_second_axis, Area,
    Margins,
};
use ratatui::style::Style;

fn packed(x: f64) -> Float64 {
    Float64 { bits: x.to_bits() }
}

fn unpacked(x: Float64) -> f64 {
    f64::from_bits(x.bits)
}

fn ends(low: f64, high: f64) -> Bounds {
    Bounds { low: packed(low), high: packed(high) }
}

fn pair(b: Bounds) -> [f64; 2] {
    [unpacked(b.low), unpacked(b.high)]
}

fn watched(axis: AxisSide, measure: Measure, values: &[f64]) -> PlotData {
    let mut p = PlotData::new("w".to_string(), 30, Style::default(), false, measure, axis);
    for (i, v) in values.iter().enumerate() {
        p.data.push((packed(i as f64), packed(*v)));
    }
    p
}

fn graph(plots: Vec<PlotData>) -> App {
    App::new(plots, 30, 0)
}

fn expected_bounds(min: f64, max: f64) -> [f64; 2] {
    if (max - min).abs() < f64::EPSILON {
        let pad = if min.abs() < 1.0 { 1.0 } else { min.abs() * 0.1 };
        return [min - pad, max + pad];
    }
    let pad = (max - min) * 0.1;
    [min - pad, max + pad]
}

fn expected_remap(value: f64, src: [f64; 2], dst: [f64; 2]) -> f64 {
    let src_span = src[1] - src[0];
    if src_span.abs() < f64::EPSILON {
        return (dst[0] + dst[1]) / 2.0;
    }
    let ratio = (value - src[0]) / src_span;
    dst[0] + ratio * (dst[1] - dst[0])
}

#[test]
fn remap_value_between_axis_bounds() {
    let src = ends(0.0, 100.0);
    let dst = ends(10.0, 20.0);
    assert_eq!(unpacked(remap_value_between_bounds(packed(0.0), src, dst)), 10.0);
    assert_eq!(unpacked(remap_value_between_bounds(packed(50.0), src, dst)), 15.0);
    assert_eq!(unpacked(remap_value_between_bounds(packed(100.0), src, dst)), 20.0);
}

#[test]
fn remap_series_keeps_nans_as_gaps() {
    let series = vec![
        (packed(1.0), packed(0.0)),
        (packed(2.0), packed(f64::NAN)),
        (packed(3.0), packed(100.0)),
    ];
    let remapped = remap_series_to_bounds(&series, ends(0.0, 100.0), ends(10.0, 20.0));
    assert_eq!(unpacked(remapped[0].1), 10.0);
    assert!(remapped[1].1.is_nan());
    assert_eq!(unpacked(remapped[2].1), 20.0);
    assert_eq!(unpacked(remapped[1].0), 2.0);
}

#[test]
fn remapping_is_that_of_the_machine_and_keeps_the_order() {
    let src = [-3.5, 12.25];
    let dst = [1000.0, 1e6];
    let mut before = f64::NEG_INFINITY;
    for step in 0..=64 {
        let value = src[0] + (src[1] - src[0]) * step as f64 / 64.0;
        let found = unpacked(remap_value_between_bounds(
            packed(value),
            ends(src[0], src[1]),
            ends(dst[0], dst[1]),
        ));
        assert_eq!(found, expected_remap(value, src, dst));
        assert!(found >= before && found >= dst[0] && found <= dst[1]);
        before = found;
    }
    // An axis without an extent is moved to the middle.
    assert_eq!(
        unpacked(remap_value_between_bounds(packed(7.0), ends(7.0, 7.0), ends(2.0, 5.0))),
        3.5
    );
    assert!(remap_value_between_bounds(packed(f64::NAN), ends(7.0, 7.0), ends(2.0, 5.0)).is_nan());
}

#[test]
fn bounds_leave_room_around_the_values() {
    let cases = [
        (0.0, 0.0), (0.5, 0.5), (-0.5, -0.5), (1.0, 1.0), (250.0, 250.0), (-8.0, -8.0),
        (0.0, 1.0), (1.0, 2.0), (-3.0, 7.5), (1e-20, 2e-20), (1e300, 1.7e308), (0.1, 0.3),
        (1.0, 1.0 + f64::EPSILON),
    ];
    for (min, max) in cases {
        let found = pair(App::normalize_y_bounds(packed(min), packed(max)));
        assert_eq!(found, expected_bounds(min, max));
        assert!(found[0] <= min && max <= found[1]);
        // The ends can be told apart.
        assert!(found[1] - found[0] >= f64::EPSILON);
    }
    assert_eq!(pair(App::normalize_y_bounds(packed(0.0), packed(100.0))), [-10.0, 110.0]);
}

#[test]
fn each_axis_has_its_own_bounds() {
    let nan = f64::NAN;
    let app = graph(vec![
        watched(AxisSide::Left, Measure::Bytes, &[10.0, nan, 30.0]),
        watched(AxisSide::Right, Measure::Float, &[nan]),
        watched(AxisSide::Left, Measure::Float, &[-5.0]),
    ]);
    assert!(app.has_axis(AxisSide::Left));
    let left = pair(app.y_axis_bounds_for(AxisSide::Left).unwrap());
    assert_eq!(left, expected_bounds(-5.0, 30.0));
    let right = pair(app.y_axis_bounds_for(AxisSide::Right).unwrap());
    assert_eq!(right, expected_bounds(0.0, 1.0));
    assert_eq!(app.axis_measure_hint(AxisSide::Left), None);
    assert_eq!(app.axis_measure_hint(AxisSide::Right), Some(Measure::Float));

    let one = graph(vec![watched(AxisSide::Right, Measure::Bytes, &[4.0])]);
    assert!(!one.has_axis(AxisSide::Left));
    assert!(one.y_axis_bounds_for(AxisSide::Left).is_none());
    assert_eq!(pair(one.y_axis_bounds_for(AxisSide::Right).unwrap()), [3.6, 4.4]);
    assert_eq!(one.axis_measure_hint(AxisSide::Left), None);
    assert_eq!(one.axis_measure_hint(AxisSide::Right), Some(Measure::Bytes));
    assert_eq!(axis_title(Some(Measure::Bytes)), "bytes");
    assert_eq!(axis_title(Some(Measure::Float)), "float");
    assert_eq!(axis_title(None), "mixed");
}

#[test]
fn the_graph_moves_the_second_axis_onto_the_first() {
    let app = graph(vec![
        watched(AxisSide::Right, Measure::Float, &[0.0, 50.0, 100.0]),
        watched(AxisSide::Left, Measure::Bytes, &[1.0, 2.0]),
    ]);
    let plan = app.chart_plan();
    assert_eq!(plan.axis, AxisSide::Left);
    assert!(plan.dual_axis);
    assert_eq!(plan.measure, Some(Measure::Bytes));
    assert_eq!(plan.second_measure, Some(Measure::Float));
    assert_eq!(pair(plan.bounds), expected_bounds(1.0, 2.0));
    let second = pair(plan.second_bounds.unwrap());
    assert_eq!(second, [-10.0, 110.0]);
    let lines = app.datasets(&plan);
    assert_eq!(lines.len(), 2);
    for (i, value) in [0.0, 50.0, 100.0].iter().enumerate() {
        let y = unpacked(lines[0].data[i].1);
        assert_eq!(y, expected_remap(*value, second, expected_bounds(1.0, 2.0)));
        assert!(y >= 0.9 && y <= 2.1);
    }
    assert_eq!(lines[1].data, &app.data[1].data);

    let right = graph(vec![watched(AxisSide::Right, Measure::Float, &[3.0])]);
    let plan = right.chart_plan();
    assert_eq!(plan.axis, AxisSide::Right);
    assert!(!plan.dual_axis && plan.second_bounds.is_none() && plan.moved[0].is_none());

    let nothing = graph(vec![]);
    let plan = nothing.chart_plan();
    assert_eq!(plan.axis, AxisSide::Right);
    assert_eq!(pair(plan.bounds), [0.0, 1.0]);
    assert!(nothing.datasets(&plan).is_empty());
}

#[test]
fn labels_go_from_one_end_to_the_other() {
    assert_eq!(
        App::y_axis_label_strings(None, ends(0.0, 6.0)),
        vec!["0.00", "1.00", "2.00", "3.00", "4.00", "5.00", "6.00"]
    );
    assert_eq!(
        App::y_axis_label_strings(Some(Measure::Bytes), ends(0.0, 6144.0)),
        vec!["0.00 B", "1.00 KiB", "2.00 KiB", "3.00 KiB", "4.00 KiB", "5.00 KiB", "6.00 KiB"]
    );
    let (min, max) = (-12.3f64, 987.6f64);
    let increment = (max - min) / 6.0;
    let labels = App::y_axis_label_strings(Some(Measure::Float), ends(min, max));
    for (i, label) in labels.iter().enumerate() {
        assert_eq!(*label, Measure::Float.format_value(packed(min + increment * i as f64)));
    }
}

#[test]
fn the_time_axis_fills_and_then_moves() {
    let app = App::new(vec![], 30, 1_700_000_000_000);
    assert_eq!(app.display_interval, 30_000);
    assert_eq!(pair(app.x_axis_bounds(1_700_000_000_000)), [1_700_000_000.0, 1_700_000_030.0]);
    assert_eq!(pair(app.x_axis_bounds(1_700_000_029_999)), [1_700_000_000.0, 1_700_000_030.0]);
    assert_eq!(pair(app.x_axis_bounds(1_700_000_030_000)), [1_700_000_000.0, 1_700_000_030.0]);
    assert_eq!(pair(app.x_axis_bounds(1_700_000_042_500)), [1_700_000_012.5, 1_700_000_042.5]);
}

#[test]
fn times_of_day_are_those_of_the_calendar() {
    let now = Moment { secs: 5, nanos: 6 };
    let marks = App::x_axis_marks(ends(1_700_000_000.9, 1_700_000_031.2), now);
    assert_eq!(
        marks,
        vec![
            Moment { secs: 1_700_000_000, nanos: 0 },
            Moment { secs: 1_700_000_015, nanos: 500_000_000 },
            Moment { secs: 1_700_000_031, nanos: 0 },
        ]
    );
    assert_eq!(
        App::x_axis_labels(&marks, &vec![0, 3600, -7200]),
        vec!["22:13:20", "23:13:35.500", "20:13:51"]
    );
    for (secs, nanos, offset) in [
        (0i64, 0u32, 0i32),
        (-1, 0, 0),
        (86_399, 1_000, 1),
        (1_234_567_890, 123_456_789, -86_399),
        (-8_334_601_228_800, 120_000_000, 86_399),
        (8_210_266_876_799, 999_999_999, -1),
    ] {
        let moment = Moment { secs, nanos };
        let day = (secs + offset as i64).rem_euclid(86_400) as u32;
        let time = chrono::NaiveTime::from_num_seconds_from_midnight_opt(day, nanos).unwrap();
        assert_eq!(clock_label(moment, offset), format!("{time:?}"));
    }
    assert_eq!(clock_label(Moment { secs: 3661, nanos: 7_000 }, 0), "01:01:01.000007");
}

#[test]
fn instants_outside_the_calendar_are_now() {
    let now = Moment { secs: 42, nanos: 7 };
    assert_eq!(moment_at(packed(8_210_266_876_799.0), now).secs, 8_210_266_876_799);
    assert_eq!(moment_at(packed(8_210_266_876_800.0), now), now);
    assert_eq!(moment_at(packed(-8_334_601_228_800.0), now).secs, -8_334_601_228_800);
    assert_eq!(moment_at(packed(-8_334_601_228_801.0), now), now);
    assert_eq!(moment_at(packed(f64::INFINITY), now), now);
    assert_eq!(moment_at(packed(f64::NAN), now), Moment { secs: 0, nanos: 0 });
    assert_eq!(moment_at(packed(-1.5), now), Moment { secs: -1, nanos: 0 });
}

#[test]
fn the_middle_is_that_of_the_calendar() {
    for (a, b) in [
        ((0i64, 0u32), (1i64, 0u32)),
        ((10, 5), (10, 8)),
        ((-7, 999_999_999), (4, 2)),
        ((9, 3), (2, 1)),
        ((9, 0), (2, 1)),
    ] {
        let utc = |m: (i64, u32)| chrono::DateTime::from_timestamp(m.0, m.1).unwrap();
        let middle = utc(a) + (utc(b) - utc(a)) / 2;
        let found = midpoint(
            Moment { secs: a.0, nanos: a.1 },
            Moment { secs: b.0, nanos: b.1 },
        );
        assert_eq!(found.secs, middle.timestamp());
        assert_eq!(found.nanos, middle.timestamp_subsec_nanos());
    }
}

#[test]
fn spans_have_a_limit() {
    assert_eq!(span_millis(30), Some(30_000));
    assert_eq!(span_millis(-30), Some(-30_000));
    assert_eq!(span_millis(9_223_372_036_854_775), Some(9_223_372_036_854_775_000));
    assert_eq!(span_millis(9_223_372_036_854_776), None);
    assert_eq!(span_millis(-9_223_372_036_854_776), None);
}

#[test]
fn the_screen_is_divided() {
    let screen = Area { x: 0, y: 0, width: 80, height: 24 };
    let rows = screen_rows(screen, 2, Margins { horizontal: 3, vertical: 1 });
    assert_eq!(
        rows,
        vec![
            Area { x: 3, y: 1, width: 74, height: 1 },
            Area { x: 3, y: 2, width: 74, height: 1 },
            Area { x: 3, y: 3, width: 74, height: 20 },
        ]
    );
    let cells = header_cells(Area { x: 0, y: 4, width: 100, height: 1 });
    let widths: Vec<u16> = cells.iter().map(|c| c.width).collect();
    assert_eq!(widths, vec![30, 10, 10, 10, 10, 10, 10, 10]);
    assert!(cells.iter().all(|c| c.y == 4 && c.height == 1));
    assert_eq!(cells[7].x, 90);

    let chart = Area { x: 5, y: 3, width: 74, height: 20 };
    assert_eq!(split_chart_area_for_second_axis(chart, false), (chart, None));
    assert_eq!(
        split_chart_area_for_second_axis(chart, true),
        (
            Area { x: 5, y: 3, width: 61, height: 20 },
            Some(Area { x: 66, y: 3, width: 13, height: 20 })
        )
    );
    // Margins that leave nothing leave nothing.
    let none = screen_rows(screen, 0, Margins { horizontal: 60, vertical: 0 });
    assert_eq!(none, vec![Area { x: 0, y: 0, width: 0, height: 0 }]);
}

#[test]
fn the_second_axis_has_its_labels_beside_the_graph() {
    let chart = Area { x: 0, y: 3, width: 61, height: 21 };
    let axis = Area { x: 61, y: 3, width: 13, height: 21 };
    assert!(fits_side_axis(chart, axis, 7));
    let side = side_axis(chart, axis, 7);
    assert_eq!(side.line, Area { x: 61, y: 3, width: 13, height: 19 });
    assert_eq!(side.title, Area { x: 62, y: 3, width: 12, height: 1 });
    let rows: Vec<u16> = side.labels.iter().map(|a| a.y).collect();
    assert_eq!(rows, vec![21, 18, 15, 12, 9, 6, 3]);
    assert!(side.labels.iter().all(|a| a.x == 62 && a.width == 12 && a.height == 1));

    let flat = Area { x: 0, y: 9, width: 61, height: 1 };
    let side = side_axis(flat, Area { x: 65_530, y: 9, width: 13, height: 0 }, 7);
    assert_eq!(side.line, Area { x: 65_530, y: 9, width: 5, height: 1 });
    assert_eq!(side.title, Area { x: 65_531, y: 9, width: 4, height: 0 });
    assert!(side.labels.iter().all(|a| a.y == 9));

    assert!(!fits_side_axis(chart, Area { x: u16::MAX, y: 0, width: 0, height: 0 }, 7));
    assert!(!fits_side_axis(chart, axis, 1));
    let tall = Area { x: 0, y: 0, width: 1, height: 20_000 };
    assert!(!fits_side_axis(tall, axis, 7));
}

#[test]
fn remapping_keeps_the_order_outside_the_axis_too() {
    let (src, dst) = (ends(-3.5, 12.25), ends(1000.0, 1e6));
    let values = [
        f64::NEG_INFINITY, f64::MIN, -1e300, -4.0, -3.5, -0.0, 0.0, 7.0, 12.25, 13.0, 1e300,
        f64::MAX, f64::INFINITY,
    ];
    let moved: Vec<f64> = values
        .iter()
        .map(|v| unpacked(remap_value_between_bounds(packed(*v), src, dst)))
        .collect();
    assert!(moved.windows(2).all(|w| w[0] <= w[1]));
    assert_eq!(moved[0], f64::NEG_INFINITY);
    assert_eq!(moved[12], f64::INFINITY);
    assert_eq!(moved[4], 1000.0);
}

#[test]
fn one_side_does_not_change_the_scale_of_the_other() {
    let left = || watched(AxisSide::Left, Measure::Bytes, &[1.0, 2.0]);
    let alone = graph(vec![left()]).y_axis_bounds_for(AxisSide::Left).unwrap();
    for values in [&[5e9, -3.0][..], &[], &[f64::INFINITY]] {
        let app = graph(vec![watched(AxisSide::Right, Measure::Float, values), left()]);
        assert_eq!(app.y_axis_bounds_for(AxisSide::Left).unwrap(), alone);
        assert_eq!(app.axis_measure_hint(AxisSide::Left), Some(Measure::Bytes));
    }
}
