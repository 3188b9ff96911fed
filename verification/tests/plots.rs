use gwatch::command::{read_output, read_report, Update};
use gwatch::float::Float64;
use gwatch::measure::{format_bytes_1024, format_float, AxisSide, Measure};
use gwatch::order::{extremes, sorted_values, Extremes};
use gwatch::plot_data::{present_values, to_seconds, Dataset, Marker, PlotData};
use gwatch::session::{plots_for, quits, Action, Event, Key};
use gwatch::chart::App;
use ratatui::style::{Color, Style};

fn bits(x: f64) -> Float64 {
    Float64 { bits: x.to_bits() }
}

fn plain(x: Float64) -> f64 {
    f64::from_bits(x.bits)
}

fn plot(buffer: u64, measure: Measure) -> PlotData {
    PlotData::new(
        "name".to_string(),
        buffer,
        Style::default().fg(Color::Red),
        false,
        measure,
        AxisSide::Left,
    )
}

fn stat_texts(plot: &PlotData) -> Vec<String> {
    plot.header_stats().into_iter().map(|s| s.text).collect()
}

/// The statistics, computed with the machine's own numbers.
fn expected_stats(values: &[f64], measure: Measure) -> Vec<String> {
    let mut items: Vec<f64> = values.iter().copied().filter(|x| !x.is_nan()).collect();
    items.sort_by(|a, b| a.partial_cmp(b).unwrap());
    if items.is_empty() {
        return vec!["name".to_string()];
    }
    let avg = items.iter().sum::<f64>() / items.len() as f64;
    let jtr = if items.len() > 1 {
        items.iter().zip(items.iter().skip(1)).map(|(p, c)| (c - p).abs()).sum::<f64>()
            / (items.len() - 1) as f64
    } else {
        0.0
    };
    let at = (((items.len() - 1) as f64) * 0.95).round() as usize;
    let p95 = items[at.min(items.len() - 1)];
    let show = |x: f64| measure.format_value(bits(x));
    vec![
        "name".to_string(),
        format!("last {}", show(*values.last().unwrap())),
        format!("min {}", show(items[0])),
        format!("max {}", show(items[items.len() - 1])),
        format!("avg {}", show(avg)),
        format!("jtr {}", show(jtr)),
        format!("p95 {}", show(p95)),
        format!("t/o {:?}", values.iter().filter(|x| x.is_nan()).count()),
    ]
}

#[test]
fn bytes_format_uses_1024() {
    let output = Measure::Bytes.format_value(bits(1024.0));
    assert_eq!(output, "1.00 KiB");
}

#[test]
fn statistics_are_those_of_the_machine() {
    let nan = f64::NAN;
    let series: Vec<Vec<f64>> = vec![
        vec![],
        vec![nan],
        vec![nan, nan],
        vec![5.0],
        vec![-0.0],
        vec![-0.0, 0.0],
        vec![0.0, -0.0],
        vec![1.0, 2.0],
        vec![3.0, nan, 1.0, 2.0],
        vec![1.0, 2.0, nan],
        vec![0.1, 0.2, 0.3, 0.7, 1e300, -1e300, 12.5],
        (0..100).map(|i| ((i * 37) % 101) as f64 * 1.1).collect(),
        (0..41).map(|i| (i as f64).sqrt()).collect(),
        vec![f64::MAX, f64::MAX],
        vec![f64::INFINITY, 1.0],
        vec![f64::INFINITY, f64::NEG_INFINITY],
    ];
    for values in series {
        for measure in [Measure::Float, Measure::Bytes] {
            let mut p = plot(1000, measure);
            for v in &values {
                p.data.push((bits(0.0), bits(*v)));
            }
            assert_eq!(stat_texts(&p), expected_stats(&values, measure), "{values:?}");
        }
    }
}

#[test]
fn statistics_of_a_small_series() {
    let mut p = plot(30, Measure::Float);
    assert_eq!(stat_texts(&p), vec!["name"]);
    for v in [4.0, f64::NAN, 1.0, 3.0] {
        p.data.push((bits(0.0), bits(v)));
    }
    assert_eq!(
        stat_texts(&p),
        vec![
            "name", "last 3.00", "min 1.00", "max 4.00", "avg 2.67", "jtr 1.50", "p95 4.00",
            "t/o 1",
        ]
    );
    for s in p.header_stats() {
        assert_eq!(s.style, Style::default().fg(Color::Red));
    }
}

#[test]
fn points_are_dropped_when_they_are_too_old() {
    let start: i64 = 1_700_000_000_000;
    let mut p = plot(2, Measure::Float);
    assert_eq!(p.buffer, 2000);
    let mut expected: Vec<(f64, f64)> = Vec::new();
    for step in 0..20i64 {
        let now = start + step * 700;
        let value = if step % 3 == 0 { None } else { Some(step as f64) };
        p.update(now, value.map(bits));
        expected.push((now as f64 / 1_000f64, value.unwrap_or(f64::NAN)));
        let earliest = (now - 2000) as f64 / 1_000f64;
        let last = expected.iter().enumerate().filter(|(_, (t, _))| *t < earliest).map(|(i, _)| i);
        if let Some(i) = last.last() {
            expected.drain(0..i);
        }
        assert_eq!(p.data.len(), expected.len());
        for (found, wanted) in p.data.iter().zip(&expected) {
            assert_eq!(found.0.bits, wanted.0.to_bits());
            assert!(plain(found.1) == wanted.1 || (found.1.is_nan() && wanted.1.is_nan()));
        }
        // The newest point stays, and only the first can be too old.
        assert_eq!(plain(p.data[p.data.len() - 1].0), now as f64 / 1_000f64);
        assert!(p.data.iter().skip(1).all(|(t, _)| plain(*t) >= earliest));
        assert!(p.data.windows(2).all(|w| plain(w[0].0) <= plain(w[1].0)));
    }
    assert_eq!(p.data.len(), 4);
}

#[test]
fn a_span_of_seconds_is_held_in_milliseconds() {
    assert_eq!(plot(0, Measure::Float).buffer, 0);
    assert_eq!(plot(9_223_372_036_854_775, Measure::Float).buffer, 9_223_372_036_854_775_000);
    assert_eq!(plot(u64::MAX, Measure::Float).buffer, -1000);
}

#[test]
fn lines_are_drawn_with_the_marker_that_was_asked_for() {
    let mut p = plot(30, Measure::Float);
    p.data.push((bits(1.0), bits(2.0)));
    let other = vec![(bits(5.0), bits(6.0))];
    let line = p.dataset(&other);
    assert_eq!(line.marker, Marker::Braille);
    assert_eq!(line.style, p.style);
    assert_eq!(line.data, &other);
    p.simple_graphics = true;
    let own: Dataset = Dataset::from(&p);
    assert_eq!(own.marker, Marker::Dot);
    assert_eq!(own.data, &p.data);
}

#[test]
fn numbers_are_sorted_and_keep_the_order_of_equals() {
    let sorted = sorted_values(vec![bits(2.0), bits(0.0), bits(-1.0), bits(-0.0), bits(1e300)]);
    let found: Vec<u64> = sorted.iter().map(|x| x.bits).collect();
    let wanted: Vec<u64> =
        [-1.0f64, 0.0, -0.0, 2.0, 1e300].iter().map(|x| x.to_bits()).collect();
    assert_eq!(found, wanted);
    let again: Vec<u64> = sorted_values(sorted).iter().map(|x| x.bits).collect();
    assert_eq!(again, wanted);
}

#[test]
fn extremes_are_the_first_least_and_the_last_greatest() {
    assert_eq!(extremes(vec![]), Extremes::Nothing);
    assert_eq!(extremes(vec![bits(3.0)]), Extremes::One(bits(3.0)));
    assert_eq!(
        extremes(vec![bits(2.0), bits(-5.0), bits(9.0), bits(1.0)]),
        Extremes::Two(bits(-5.0), bits(9.0))
    );
    assert_eq!(
        extremes(vec![bits(0.0), bits(-0.0), bits(0.0), bits(-0.0)]),
        Extremes::Two(bits(0.0), bits(-0.0))
    );
}

#[test]
fn gaps_are_left_out_and_counted() {
    let data = vec![(bits(0.0), bits(1.0)), (bits(1.0), bits(f64::NAN)), (bits(2.0), bits(3.0))];
    assert_eq!(present_values(&data), vec![bits(1.0), bits(3.0)]);
    assert_eq!(plain(to_seconds(1234)), 1.234);
    assert_eq!(plain(to_seconds(-1500)), -1.5);
}

#[test]
fn the_first_line_is_the_report() {
    let value = |x: f64| Update::Value(bits(x));
    assert_eq!(read_report("12.5"), value(12.5));
    assert_eq!(read_report("  12.5 \r\n99\n"), value(12.5));
    assert_eq!(read_report("1e3\nabc"), value(1000.0));
    assert_eq!(read_report("\n5"), Update::Missing);
    assert_eq!(read_report(""), Update::Missing);
    assert_eq!(read_report("12.5%"), Update::Missing);
    assert_eq!(read_report("-inf"), value(f64::NEG_INFINITY));
    match read_report("NaN") {
        Update::Value(x) => assert!(x.is_nan()),
        Update::Missing => panic!("a number that is not a number is reported"),
    }
}

#[test]
fn output_is_read_where_the_command_succeeds() {
    let value = |x: f64| Update::Value(bits(x));
    assert_eq!(read_output(true, &b"7\nrest".to_vec()), value(7.0));
    assert_eq!(read_output(false, &b"7\n".to_vec()), Update::Missing);
    assert_eq!(read_output(true, &vec![]), Update::Missing);
    // What follows the first line need not be text.
    assert_eq!(read_output(true, &b"8\n\xff\xfe".to_vec()), value(8.0));
    assert_eq!(read_output(true, &b"\xff8\n".to_vec()), Update::Missing);
    assert_eq!(read_output(true, &"\u{2003}9\u{a0}".as_bytes().to_vec()), value(9.0));
}

#[test]
fn keys_end_the_run() {
    assert!(quits(Key::Char('q'), false));
    assert!(quits(Key::Char('q'), true));
    assert!(quits(Key::Escape, false));
    assert!(quits(Key::Char('c'), true));
    assert!(!quits(Key::Char('c'), false));
    assert!(!quits(Key::Char('Q'), false));
    assert!(!quits(Key::Other, true));
}

#[test]
fn events_change_one_watch_at_most() {
    let watches = vec![
        gwatch::dsl::parse_watch_dsl("exp=a;axis=left", gwatch::float::Float32 { bits: 0x3f800000 })
            .unwrap(),
        gwatch::dsl::parse_watch_dsl(
            "exp=b;title=B;measure=bytes;axis=right",
            gwatch::float::Float32 { bits: 0x3f800000 },
        )
        .unwrap(),
    ];
    let styles = vec![Style::default(), Style::default().fg(Color::Blue), Style::default()];
    let plots = plots_for(&watches, &styles, 30, true);
    assert_eq!(plots.len(), 2);
    assert_eq!(plots[1].display, "B");
    assert_eq!(plots[1].measure, Measure::Bytes);
    assert_eq!(plots[1].axis, AxisSide::Right);
    assert_eq!(plots[1].style, Style::default().fg(Color::Blue));
    assert!(plots[1].simple_graphics);
    assert_eq!(plots_for(&watches, &vec![], 30, true).len(), 0);

    let mut app = App::new(plots, 30, 1_000);
    assert_eq!(app.handle(Event::Update(1, Update::Value(bits(4.0))), 2_000), Action::Wait);
    assert_eq!(app.data[0].data.len(), 0);
    assert_eq!(app.data[1].data, vec![(bits(2.0), bits(4.0))]);
    assert_eq!(app.handle(Event::Update(1, Update::Missing), 3_000), Action::Wait);
    assert!(app.data[1].data[1].1.is_nan());
    assert_eq!(app.handle(Event::Render, 3_000), Action::Draw);
    assert_eq!(app.handle(Event::Terminate, 3_000), Action::Stop);
    assert_eq!(app.data[1].data.len(), 2);
}

#[test]
fn bytes_times_1024_have_the_next_unit() {
    let units = ["B", "KiB", "MiB", "GiB", "TiB", "PiB"];
    let top = 1024f64.powi(5);
    for v in [1.0, -1.0, 1.5, 99.996, 100.0, 1023.999, -1024.0, 123456.789, 1e15, top * 0.999] {
        let text = Measure::Bytes.format_value(bits(v));
        assert_eq!(text, format_bytes_1024(bits(v)));
        let (number, unit) = text.split_once(' ').unwrap();
        let at = units.iter().position(|u| *u == unit).unwrap();
        assert_eq!(
            Measure::Bytes.format_value(bits(v * 1024.0)),
            format!("{number} {}", units[at + 1])
        );
    }
    for v in [0.0, 0.5, 12.0, 1e20] {
        for m in [Measure::Float, Measure::Bytes] {
            assert_eq!(m.format_value(bits(-v)), format!("-{}", m.format_value(bits(v))));
        }
    }
}

#[test]
fn statistics_do_not_depend_on_the_order_of_arrival() {
    let values = [4.5, f64::NAN, -2.0, 0.0, 1e9, f64::NAN, 0.1, -2.0];
    let fill = |order: &[usize]| {
        let mut p = plot(1000, Measure::Float);
        for i in order {
            p.data.push((bits(*i as f64), bits(values[*i])));
        }
        let mut texts = stat_texts(&p);
        texts.remove(1);
        texts
    };
    let first = fill(&[0, 1, 2, 3, 4, 5, 6, 7]);
    assert_eq!(first.len(), 7);
    assert_eq!(first, fill(&[7, 6, 5, 4, 3, 2, 1, 0]));
    assert_eq!(first, fill(&[3, 0, 5, 1, 7, 2, 6, 4]));
}

#[test]
fn only_the_bytes_of_the_first_line_count() {
    let lines: Vec<Vec<u8>> = vec![
        b"".to_vec(),
        b"5".to_vec(),
        b" 2.5 ".to_vec(),
        b"5\r".to_vec(),
        b"5\xff".to_vec(),
        b"5\xe2\x82".to_vec(),
        b"5\xf0\x9f\x98".to_vec(),
        b"\x80".to_vec(),
        "7\u{a0}".as_bytes().to_vec(),
    ];
    let rests: Vec<Vec<u8>> = vec![
        b"".to_vec(),
        b"9".to_vec(),
        b"\x82\xac".to_vec(),
        b"\n1\n".to_vec(),
        b"\xe2".to_vec(),
    ];
    for line in &lines {
        let alone = read_output(true, line);
        for rest in &rests {
            let mut all = line.clone();
            all.push(10);
            all.extend(rest);
            assert_eq!(read_output(true, &all), alone);
            // A line feed is decoded as a character of its own.
            assert_eq!(
                String::from_utf8_lossy(&all),
                format!("{}\n{}", String::from_utf8_lossy(line), String::from_utf8_lossy(rest))
            );
        }
    }
    assert_eq!(read_output(true, &b"5\xe2\x82\n6".to_vec()), Update::Missing);
}

#[test]
fn numbers_that_are_not_finite_have_texts() {
    for x in [f64::INFINITY, f64::NEG_INFINITY, f64::NAN, 1.5, -2048.0, 12345.678, 100.25] {
        let expected = if x.abs() >= 1000.0 {
            format!("{x:.0}")
        } else if x.abs() >= 100.0 {
            format!("{x:.1}")
        } else {
            format!("{x:.2}")
        };
        assert_eq!(format_float(bits(x)), expected);
    }
    assert_eq!(format_bytes_1024(bits(f64::INFINITY)), "inf PiB");
    assert_eq!(format_bytes_1024(bits(f64::NEG_INFINITY)), "-inf PiB");
    assert_eq!(format_bytes_1024(Float64 { bits: 0x7ff8_0000_0000_0000 }), "NaN B");
    assert_eq!(format_bytes_1024(Float64 { bits: 0xfff8_0000_0000_0000 }), "-NaN B");
    assert_eq!(format_bytes_1024(bits(-2048.0)), "-2.00 KiB");
    assert_eq!(Measure::Bytes.format_value(bits(f64::INFINITY)), "n/a");
}
