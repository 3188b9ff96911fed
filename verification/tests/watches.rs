use gwatch::config::{parse_file_watch, parse_toml_config, FileConfig, FileWatch};
use gwatch::dsl::parse_watch_dsl;
use gwatch::error::WatchError;
use gwatch::decimal::decimal;
use gwatch::float::{Float32, Float64};
use gwatch::load::{
    load_command_watches, load_config_watches, load_watch_specs, resolve_axis_defaults,
    watch_source, WatchSource,
};
use gwatch::measure::{AxisSide, Measure};
use gwatch::period::is_countable;
use gwatch::number::parse_float64;
use gwatch::text::{
    is_white_space, join_texts, lowercase, split_once_text, split_text, trim, words_of,
};
use gwatch::watch::{normalize_title, seconds_to_duration, shorten_title, WatchSpec};

fn single(x: f32) -> Float32 {
    Float32 { bits: x.to_bits() }
}

fn text_at(table: &toml::Table, key: &str) -> Option<String> {
    table.get(key).map(|v| v.as_str().unwrap().to_string())
}

fn number_at(table: &toml::Table, key: &str) -> Option<Float32> {
    table.get(key).map(|v| match v.as_integer() {
        Some(n) => single(n as f32),
        None => single(v.as_float().unwrap() as f32),
    })
}

fn read_config(raw: &str) -> FileConfig {
    let table: toml::Table = toml::from_str(raw).unwrap();
    let mut watch = Vec::new();
    if let Some(blocks) = table.get("watch") {
        for block in blocks.as_array().unwrap() {
            let block = block.as_table().unwrap();
            watch.push(FileWatch {
                exp: text_at(block, "exp"),
                title: text_at(block, "title"),
                period: number_at(block, "period"),
                measure: text_at(block, "measure"),
                axis: text_at(block, "axis"),
            });
        }
    }
    FileConfig { period: number_at(&table, "period"), watch }
}

fn dsl(spec: &str) -> Result<WatchSpec, WatchError> {
    parse_watch_dsl(spec, single(1.0))
}

fn complaint(spec: &str) -> String {
    dsl(spec).unwrap_err().message()
}

#[test]
fn dsl_parses_valid_spec() {
    let watch =
        parse_watch_dsl("title=CPU;measure=float;period=1.5;exp=echo 42", single(1.0)).unwrap();
    assert_eq!(watch.title, "CPU");
    assert_eq!(watch.exp, "echo 42");
    assert_eq!(watch.measure, Measure::Float);
    assert_eq!(watch.period().as_millis(), 1500);
    assert_eq!(watch.axis, None);
}

#[test]
fn dsl_parses_explicit_axis() {
    let watch = parse_watch_dsl(
        "title=CPU;measure=float;axis=right;period=1;exp=echo 42",
        single(1.0),
    )
    .unwrap();
    assert_eq!(watch.axis, Some(AxisSide::Right));
}

#[test]
fn dsl_requires_exp() {
    assert!(parse_watch_dsl("title=CPU;period=1", single(1.0)).is_err());
}

#[test]
fn dsl_defaults_to_shortened_title() {
    let watch = parse_watch_dsl(
        "exp=echo this is a very long command that should be shortened",
        single(1.0),
    )
    .unwrap();
    assert!(watch.title.len() <= 40);
    assert_eq!(watch.title, "echo this is a very long command that...");
}

#[test]
fn toml_parsing_works_with_global_period() {
    let watches = parse_toml_config(
        read_config(
            r#"
                period = 2

                [[watch]]
                exp = "echo 10"
                measure = "bytes"
            "#,
        ),
        None,
    )
    .unwrap();

    assert_eq!(watches.len(), 1);
    assert_eq!(watches[0].measure, Measure::Bytes);
    assert_eq!(watches[0].period().as_secs(), 2);
    assert_eq!(watches[0].title, "echo 10");
}

#[test]
fn shorten_title_keeps_short_values() {
    assert_eq!(shorten_title("echo 10"), "echo 10");
}

#[test]
fn resolve_axis_defaults_splits_mixed_measures() {
    let memory = parse_watch_dsl("title=mem;measure=bytes;exp=echo 1", single(1.0)).unwrap();
    let cpu = parse_watch_dsl("title=cpu;measure=float;exp=echo 1", single(1.0)).unwrap();
    let resolved = resolve_axis_defaults(vec![memory, cpu]);
    assert_eq!(resolved[0].axis, Some(AxisSide::Left));
    assert_eq!(resolved[1].axis, Some(AxisSide::Right));
}

#[test]
fn parse_measure() {
    assert!(matches!("float".parse::<Measure>(), Ok(Measure::Float)));
    assert!(matches!("bytes".parse::<Measure>(), Ok(Measure::Bytes)));
    assert!("duration".parse::<Measure>().is_err());
}

#[test]
fn parse_axis_side() {
    assert!(matches!("left".parse::<AxisSide>(), Ok(AxisSide::Left)));
    assert!(matches!("right".parse::<AxisSide>(), Ok(AxisSide::Right)));
    assert!("center".parse::<AxisSide>().is_err());
}

#[test]
fn names_are_read_loosely() {
    assert!(matches!(" FLOAT\t".parse::<Measure>(), Ok(Measure::Float)));
    assert!(matches!(" L ".parse::<AxisSide>(), Ok(AxisSide::Left)));
    assert!(matches!("r".parse::<AxisSide>(), Ok(AxisSide::Right)));
    assert_eq!(
        " Bits ".parse::<Measure>().unwrap_err(),
        "Unknown measure 'bits'. Supported values: float, bytes"
    );
    assert_eq!(
        "UP".parse::<AxisSide>().unwrap_err(),
        "Unknown axis 'up'. Supported values: left, right"
    );
    for measure in [Measure::Float, Measure::Bytes] {
        assert_eq!(measure.axis_name().parse::<Measure>().unwrap(), measure);
    }
}

#[test]
fn each_fault_of_a_specification_has_its_message() {
    assert_eq!(complaint(" title ; exp=ls"), "Invalid --watch item 'title', expected key=value");
    assert_eq!(complaint("exp= "), "watch exp must not be empty");
    assert_eq!(complaint("exp=ls;period=fast"), "Invalid watch period value 'fast'");
    assert_eq!(complaint("exp=ls;period=0"), "watch period must be a positive number");
    assert_eq!(complaint("exp=ls;period=-inf"), "watch period must be a positive number");
    assert_eq!(complaint("exp=ls;period=nan"), "watch period must be a positive number");
    assert_eq!(
        complaint("exp=ls;measure=Bits"),
        "Unknown measure 'bits'. Supported values: float, bytes"
    );
    assert_eq!(
        complaint("exp=ls;axis=middle"),
        "Unknown axis 'middle'. Supported values: left, right"
    );
    assert_eq!(complaint("exp=ls; Color =red"), "Unknown key 'color' in --watch spec");
    assert_eq!(complaint(""), "`exp` is required in --watch specification");
    assert_eq!(dsl("exp=ls;period=fast").unwrap_err().cause().unwrap(), "invalid float literal");
    assert_eq!(
        dsl("exp=ls;period=").unwrap_err().cause().unwrap(),
        "cannot parse float from empty string"
    );
    assert!(dsl("").unwrap_err().cause().is_none());
}

#[test]
fn items_of_a_specification_are_read_loosely() {
    let watch = dsl(" ;; EXP = echo a=b ; Title =  ;title= CPU ;; ").unwrap();
    assert_eq!(watch.exp, "echo a=b");
    assert_eq!(watch.title, "CPU");
    // The later of two items with the same key counts.
    let watch = dsl("exp=one;exp=two;period=3;period=0.25").unwrap();
    assert_eq!(watch.exp, "two");
    assert_eq!(watch.title, "two");
    assert_eq!(watch.period().as_millis(), 250);
    // The order of items with different keys does not.
    let a = dsl("axis=right;measure=bytes;exp=x").unwrap();
    let b = dsl("exp=x;measure=bytes;axis=right").unwrap();
    assert_eq!((a.exp, a.measure, a.axis, a.title), (b.exp, b.measure, b.axis, b.title));
    // The first fault is the one that is told.
    assert_eq!(complaint("period=0;axis=up"), "watch period must be a positive number");
    // The default period is used, and checked, where none is set.
    assert_eq!(parse_watch_dsl("exp=x", single(4.0)).unwrap().period().as_secs(), 4);
    assert!(parse_watch_dsl("exp=x", single(0.0)).is_err());
    assert!(parse_watch_dsl("exp=x;period=1", single(0.0)).is_ok());
}

#[test]
fn titles_are_made_from_commands() {
    assert_eq!(shorten_title(""), "watch");
    assert_eq!(shorten_title(" \t\n"), "watch");
    assert_eq!(shorten_title("  ps \t aux\n| wc  "), "ps aux | wc");
    let forty = "a".repeat(40);
    assert_eq!(shorten_title(&forty), forty);
    let long = "é".repeat(41);
    assert_eq!(shorten_title(&long), format!("{}...", "é".repeat(37)));
    assert_eq!(shorten_title(&shorten_title(&long)), shorten_title(&long));
    assert_eq!(normalize_title(None, "ls"), "ls");
    assert_eq!(normalize_title(Some("  ".to_string()), "ls"), "ls");
    assert_eq!(normalize_title(Some(" My title ".to_string()), "ls"), "My title");
}

#[test]
fn faults_of_a_configuration_have_their_messages() {
    let fault = |raw: &str| parse_toml_config(read_config(raw), None).unwrap_err();
    assert_eq!(fault("period = 3").message(), "Config must include at least one [[watch]] block");
    assert_eq!(
        fault("[[watch]]\nexp = \"ls\"\n[[watch]]\nexp = \" \"").message(),
        "watch[1] is missing required field `exp`"
    );
    assert_eq!(
        fault("[[watch]]\ntitle = \"x\"").message(),
        "watch[0] is missing required field `exp`"
    );
    assert_eq!(
        fault("[[watch]]\nexp = \"ls\"\nperiod = -1").message(),
        "watch[0].period must be a positive number"
    );
    assert_eq!(
        fault("period = 0\n[[watch]]\nexp = \"ls\"").message(),
        "period must be a positive number"
    );
    let measure = fault("[[watch]]\nexp = \"ls\"\nmeasure = \"Bits\"");
    assert_eq!(measure.message(), "watch[0].measure is invalid");
    assert_eq!(
        measure.cause().unwrap(),
        "Unknown measure 'bits'. Supported values: float, bytes"
    );
    let axis = fault("[[watch]]\nexp = \"ls\"\naxis = \"up\"");
    assert_eq!(axis.message(), "watch[0].axis is invalid");
    assert_eq!(axis.cause().unwrap(), "Unknown axis 'up'. Supported values: left, right");
}

#[test]
fn periods_of_a_configuration_have_their_order() {
    let raw = "period = 2\n[[watch]]\nexp = \"a\"\n[[watch]]\nexp = \"b\"\nperiod = 0.5";
    let seconds = |cli: Option<f32>| {
        let watches = parse_toml_config(read_config(raw), cli.map(single)).unwrap();
        watches.iter().map(|w| w.period().as_millis()).collect::<Vec<_>>()
    };
    assert_eq!(seconds(None), vec![2000, 500]);
    assert_eq!(seconds(Some(7.0)), vec![7000, 500]);
    let bare = parse_toml_config(read_config("[[watch]]\nexp = \"a\""), None).unwrap();
    assert_eq!(bare[0].period().as_secs(), 1);
    assert!(parse_toml_config(read_config(raw), Some(single(-7.0))).is_err());
}

#[test]
fn a_block_and_a_specification_agree() {
    let block = FileWatch {
        exp: Some(" free -b ".to_string()),
        title: Some("Memory".to_string()),
        period: Some(single(2.5)),
        measure: Some("bytes".to_string()),
        axis: Some("left".to_string()),
    };
    let a = parse_file_watch(block, 3, single(1.0)).unwrap();
    let b = dsl("title=Memory;measure=bytes;axis=left;period=2.5;exp=free -b").unwrap();
    assert_eq!(a.exp, "free -b");
    assert_eq!((a.title, a.exp, a.seconds.bits), (b.title, b.exp, b.seconds.bits));
    assert_eq!((a.measure, a.axis), (b.measure, b.axis));
}

#[test]
fn sides_are_chosen_once() {
    let sides = |specs: &[&str]| {
        let watches = specs.iter().map(|s| dsl(s).unwrap()).collect();
        let once = resolve_axis_defaults(watches);
        let first: Vec<_> = once.iter().map(|w| w.axis.unwrap()).collect();
        let twice = resolve_axis_defaults(once);
        assert_eq!(first, twice.iter().map(|w| w.axis.unwrap()).collect::<Vec<_>>());
        first
    };
    use_sides(&sides(&["exp=a", "exp=b"]), &[AxisSide::Left, AxisSide::Left]);
    use_sides(&sides(&["exp=a;measure=bytes"]), &[AxisSide::Left]);
    use_sides(
        &sides(&["exp=a", "exp=b;measure=bytes", "exp=c;axis=left", "exp=d;measure=bytes;axis=r"]),
        &[AxisSide::Right, AxisSide::Left, AxisSide::Left, AxisSide::Right],
    );
    use_sides(&sides(&[]), &[]);
}

fn use_sides(found: &[AxisSide], expected: &[AxisSide]) {
    assert_eq!(found, expected);
}

#[test]
fn watches_come_from_one_source() {
    let specs = vec!["exp=ls".to_string()];
    assert!(matches!(watch_source(None, &specs), Ok(WatchSource::Specs)));
    assert!(matches!(watch_source(Some("-".to_string()), &vec![]), Ok(WatchSource::Input)));
    match watch_source(Some("c.toml".to_string()), &vec![]) {
        Ok(WatchSource::File { path }) => assert_eq!(path, "c.toml"),
        other => panic!("{other:?}"),
    }
    assert_eq!(
        watch_source(Some("-".to_string()), &specs).unwrap_err().message(),
        "Cannot combine --file and --watch"
    );
    assert_eq!(
        watch_source(None, &vec![]).unwrap_err().message(),
        "No watches provided. Use --file <path> or at least one --watch spec"
    );
}

#[test]
fn loading_resolves_sides_and_stops_at_the_first_fault() {
    let specs = |list: &[&str]| list.iter().map(|s| s.to_string()).collect::<Vec<_>>();
    let good = load_watch_specs(None, &specs(&["exp=a;measure=bytes", "exp=b"]), None).unwrap();
    assert_eq!(good[0].axis, Some(AxisSide::Left));
    assert_eq!(good[1].axis, Some(AxisSide::Right));
    assert_eq!(good[1].period().as_secs(), 1);
    let slow = load_watch_specs(None, &specs(&["exp=a", "exp=b;period=1"]), Some(single(9.0))).unwrap();
    assert_eq!(slow[0].period().as_secs(), 9);
    assert_eq!(slow[1].period().as_secs(), 1);
    let bad = load_watch_specs(None, &specs(&["exp=a", "x", "y=1"]), None).unwrap_err();
    assert_eq!(bad.message(), "Invalid --watch item 'x', expected key=value");
    let period = load_watch_specs(None, &specs(&["x"]), Some(single(0.0))).unwrap_err();
    assert_eq!(period.message(), "period must be a positive number");

    let nothing = load_watch_specs(None, &vec![], Some(single(0.0))).unwrap_err();
    assert_eq!(
        nothing.message(),
        "No watches provided. Use --file <path> or at least one --watch spec"
    );
    assert_eq!(load_command_watches(&vec![], None).unwrap_err().message(), nothing.message());
    let one = || Some(read_config("period = 3\n[[watch]]\nexp = \"a\""));
    let both = load_watch_specs(one(), &specs(&["exp=b"]), None).unwrap_err();
    assert_eq!(both.message(), "Cannot combine --file and --watch");
    assert_eq!(load_watch_specs(one(), &vec![], None).unwrap()[0].period().as_secs(), 3);

    let config = read_config("[[watch]]\nexp = \"a\"\nmeasure = \"bytes\"\n[[watch]]\nexp = \"b\"");
    let both = load_config_watches(config, None).unwrap();
    assert_eq!(both.len(), 2);
    assert_eq!(both[0].axis, Some(AxisSide::Left));
    assert_eq!(both[1].axis, Some(AxisSide::Right));
    assert!(load_config_watches(read_config(""), None).is_err());
}

#[test]
fn spans_are_those_of_the_standard_library() {
    for seconds in [1.0f32, 0.1, 0.3, 1.5, 2.5, 1e-9, 4e-10, 123456.79, 1e18, 1.0e-20, 0.000123] {
        assert!(is_countable(single(seconds)));
        let expected = std::time::Duration::from_secs_f64(seconds as f64);
        let found = seconds_to_duration(single(seconds), "period").unwrap();
        assert_eq!(found.as_secs(), expected.as_secs());
        assert_eq!(found.nanos, expected.subsec_nanos());
        assert_eq!(found.as_millis(), expected.as_millis());
    }
    assert!(!is_countable(single(1.9e19)));
    assert!(is_countable(single(1.8e19)));
    let refused = seconds_to_duration(single(f32::NAN), "period").unwrap_err();
    assert_eq!(refused.message(), "period must be a positive number");
}

#[test]
fn texts_are_cut_as_the_standard_library_cuts_them() {
    for code in 0..=0x10ffffu32 {
        if let Some(c) = char::from_u32(code) {
            assert_eq!(is_white_space(c), c.is_whitespace());
        }
    }
    for s in ["", " ", "a", " a b ", "\u{2003}x\u{a0}y\u{3000}", "É\tÀ \n\r z", "..  .."] {
        assert_eq!(trim(s), s.trim());
        assert_eq!(lowercase(s), s.to_ascii_lowercase());
        assert_eq!(words_of(s), s.split_whitespace().collect::<Vec<_>>());
        assert_eq!(trim(&trim(s)), trim(s));
    }
    assert_eq!(lowercase("AZaz[@É"), "azaz[@É");
}

#[test]
fn pieces_join_to_the_text() {
    for s in ["", ";", "a;b", ";;a;", "exp=ls;title=x"] {
        let parts = split_text(s, ';');
        assert_eq!(parts, s.split(';').collect::<Vec<_>>());
        assert_eq!(join_texts(&parts, ";"), s);
    }
    assert_eq!(join_texts(&words_of(" a  b "), " "), "a b");
    let halves = split_once_text("a=b=c", '=').unwrap();
    assert_eq!((halves.0.as_str(), halves.1.as_str()), ("a", "b=c"));
    assert!(split_once_text("abc", '=').is_none());
}

#[test]
fn whole_numbers_are_read_as_they_are_written() {
    for n in [0u64, 7, 10, 999, 1024, 9007199254740993, u64::MAX] {
        assert_eq!(decimal(n), n.to_string());
        assert_eq!(parse_float64(&decimal(n)).unwrap().bits, (n as f64).to_bits());
        assert_eq!(Float64::from_u64(n).bits, (n as f64).to_bits());
    }
}

#[test]
fn items_give_the_same_in_any_order() {
    let items = ["exp=ls -l", " Title = T ", "period=2", "measure=bytes", "axis=r", " "];
    let orders = [[0, 1, 2, 3, 4, 5], [5, 4, 3, 2, 1, 0], [3, 0, 5, 1, 4, 2]];
    for order in orders {
        let spec = order.iter().map(|i| items[*i]).collect::<Vec<_>>().join(";");
        let w = dsl(&spec).unwrap();
        assert_eq!((w.exp.as_str(), w.title.as_str()), ("ls -l", "T"));
        assert_eq!((w.measure, w.axis), (Measure::Bytes, Some(AxisSide::Right)));
        assert_eq!(w.period().as_secs(), 2);
    }
    assert!(dsl("exp=a;period=0;title=x").is_err());
    assert!(dsl("title=x;exp=a;period=0").is_err());
}

#[test]
fn a_lone_command_is_read_alike() {
    for command in ["ls", "  echo a=b  ", " ", "", "=x", "\tdf -h\n"] {
        for seconds in [1.0, 0.0] {
            let block = FileWatch {
                exp: Some(command.to_string()),
                title: None,
                period: None,
                measure: None,
                axis: None,
            };
            let a = parse_file_watch(block, 0, single(seconds));
            let b = parse_watch_dsl(&format!("exp={command}"), single(seconds));
            assert_eq!(a.is_ok(), b.is_ok());
            assert_eq!(a.is_ok(), seconds > 0.0 && !command.trim().is_empty());
            if let (Ok(a), Ok(b)) = (a, b) {
                assert_eq!((a.exp, a.title, a.seconds), (b.exp, b.title, b.seconds));
                assert_eq!((a.measure, a.axis), (b.measure, b.axis));
            }
        }
    }
}
