use gwatch::float::{Float32, Float64};
use gwatch::measure::Measure;
use gwatch::number::{parse_float32, parse_float64};

fn wrap(x: f64) -> Float64 {
    Float64 { bits: x.to_bits() }
}

fn same(x: Float64, y: f64) -> bool {
    if y.is_nan() {
        x.is_nan()
    } else {
        x.bits == y.to_bits()
    }
}

/// A fixed sequence of bit patterns that covers all exponents.
fn patterns(seed: u64, count: usize) -> Vec<u64> {
    let mut state = seed;
    let mut out = Vec::new();
    for _ in 0..count {
        state = state.wrapping_mul(6364136223846793005).wrapping_add(1442695040888963407);
        out.push(state ^ (state >> 29));
    }
    out
}

/// Numbers of everyday size, and the edges of the format.
fn samples() -> Vec<f64> {
    let mut out = vec![
        0.0,
        -0.0,
        1.0,
        -1.0,
        0.1,
        0.2,
        0.3,
        0.95,
        1000.0,
        1024.0,
        999.999,
        123.45,
        -7.25,
        f64::EPSILON,
        f64::MIN_POSITIVE,
        f64::from_bits(1),
        f64::from_bits(2),
        f64::from_bits(0x000f_ffff_ffff_ffff),
        f64::MAX,
        f64::MIN,
        f64::INFINITY,
        f64::NEG_INFINITY,
        f64::NAN,
        9007199254740992.0,
        9007199254740993.0,
        18014398509481985.0,
        1.7e9,
    ];
    for bits in patterns(7, 40) {
        out.push(f64::from_bits(bits));
        out.push((bits % 1_000_000) as f64 / 997.0);
        out.push(-((bits % 10_000_000_000) as f64) * 1.1);
        out.push(f64::from_bits(0x3ff0_0000_0000_0000 + bits % 0x0060_0000_0000_0000));
    }
    out
}

#[test]
fn arithmetic_agrees_with_the_machine() {
    let values = samples();
    for &x in &values {
        for &y in &values {
            let (a, b) = (wrap(x), wrap(y));
            assert!(same(a.plus(b), x + y), "{x:e} + {y:e}");
            assert!(same(a.minus(b), x - y), "{x:e} - {y:e}");
            assert!(same(a.times(b), x * y), "{x:e} * {y:e}");
            assert!(same(a.over(b), x / y), "{x:e} / {y:e}");
            assert_eq!(a.less_than(b), x < y, "{x:e} < {y:e}");
        }
    }
}

#[test]
fn conversions_agree_with_the_machine() {
    for x in samples() {
        assert_eq!(wrap(x).to_i64(), x as i64, "{x:e}");
        assert_eq!(wrap(x).to_index(), x.round() as usize, "{x:e}");
        assert_eq!(wrap(x).is_nan(), x.is_nan());
        assert_eq!(wrap(x).is_finite(), x.is_finite());
        assert_eq!(wrap(x).is_sign_negative(), x.is_sign_negative());
        assert_eq!(wrap(x).abs().bits, x.abs().to_bits());
    }
    for bits in patterns(11, 400) {
        assert_eq!(Float64::from_u64(bits).bits, (bits as f64).to_bits());
        assert_eq!(Float64::from_i64(bits as i64).bits, (bits as i64 as f64).to_bits());
    }
    for halves in 0..4000u32 {
        let x = f64::from(halves) / 8.0;
        assert_eq!(wrap(x).to_index(), x.round() as usize);
    }
}

#[test]
fn texts_are_read_as_the_machine_reads_them() {
    let texts = [
        "0", "-0", "+0", "1", "1.5", "-2.75", ".5", "5.", ".", "", "+", "-", "e5", "1e", "1e+", "1e5", "1E-5",
        "1e+07", "inf", "-INF", "Infinity", "+infinity", "nan", "NaN", "-nan", "infin", "0x10", "1_000", "1,5",
        " 1", "1 ", "1.2.3", "1e1.5", "1e400", "-1e400", "1e-400", "4.9e-324", "2.4e-324", "2.5e-324",
        "1.7976931348623157e308", "1.7976931348623159e308", "1e99999999999999999999999999",
        "1e-99999999999999999999999999", "0e99999999999999999999999999", "0.1", "0.3", "3.3",
        "9007199254740993", "9007199254740992.5", "9007199254740993.0000000000000000000000000001",
        "100000000000000000000000000000000000000000000000000000000000000000e-65",
        "0.00000000000000000000000000000000000000000000000000000000000000000001e68", "16777217", "3.4028236e38",
        "1.1754942e-38", "7.0064923216240853546186479164495807e-46", "7.0064923216240853546186479164495808e-46",
        "\u{0661}", "\u{ff11}", "--1", "+-1", "1e--1",
    ];
    for t in texts {
        let wide = t.parse::<f64>().ok();
        match (parse_float64(t), wide) {
            (Some(x), Some(y)) => assert!(same(x, y), "{t}"),
            (None, None) => {}
            _ => panic!("{t}"),
        }
        match (parse_float32(t), t.parse::<f32>().ok()) {
            (Some(x), Some(y)) => assert!(x.bits == y.to_bits() || y.is_nan(), "{t}"),
            (None, None) => {}
            _ => panic!("{t}"),
        }
    }
    for bits in patterns(3, 30) {
        let x = f64::from_bits(bits);
        if x.is_finite() {
            for t in [format!("{x}"), format!("{x:e}"), format!("{x:.3e}")] {
                assert!(same(parse_float64(&t).unwrap(), t.parse::<f64>().unwrap()), "{t}");
            }
        }
        let y = f32::from_bits(bits as u32);
        if y.is_finite() {
            for t in [format!("{y}"), format!("{y:e}"), format!("{y:.3e}")] {
                assert_eq!(parse_float32(&t), Some(Float32 { bits: t.parse::<f32>().unwrap().to_bits() }), "{t}");
            }
        }
    }
}

fn machine_float(value: f64) -> String {
    let abs = value.abs();
    if abs >= 1000.0 {
        format!("{value:.0}")
    } else if abs >= 100.0 {
        format!("{value:.1}")
    } else {
        format!("{value:.2}")
    }
}

fn machine_bytes(value: f64) -> String {
    let units = ["B", "KiB", "MiB", "GiB", "TiB", "PiB"];
    let sign = if value.is_sign_negative() { "-" } else { "" };
    let mut current = value.abs();
    let mut k = 0;
    while current >= 1024.0 && k < 5 {
        current /= 1024.0;
        k += 1;
    }
    if current >= 100.0 {
        format!("{sign}{current:.1} {}", units[k])
    } else {
        format!("{sign}{current:.2} {}", units[k])
    }
}

#[test]
fn values_are_written_as_the_machine_writes_them() {
    let mut values = samples();
    for eighths in 0..9000u32 {
        values.push(f64::from(eighths) / 8.0);
        values.push(f64::from(eighths) * 1.3e4);
    }
    for x in values {
        if x.is_finite() {
            assert_eq!(Measure::Float.format_value(wrap(x)), machine_float(x), "{x:e}");
            assert_eq!(Measure::Bytes.format_value(wrap(x)), machine_bytes(x), "{x:e}");
        } else {
            assert_eq!(Measure::Float.format_value(wrap(x)), "n/a");
            assert_eq!(Measure::Bytes.format_value(wrap(x)), "n/a");
        }
    }
}
