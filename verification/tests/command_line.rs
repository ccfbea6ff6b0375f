use rustemp::config::Config;
use rustemp::count::{scan_count, CountScan};
use rustemp::double::Double;
use rustemp::options::{
    all_settings, parse_f64, parse_triplet, parse_u32, short_options, Argument, ArgumentKind,
    CommandLine, NumberScan, Outcome, Setting,
};
use rustemp::text::{same_text, split_triplet};

fn num(x: f64) -> Double {
    Double { bits: x.to_bits() }
}

fn read(s: &str) -> Option<Double> {
    s.parse::<f64>().ok().map(num)
}

#[test]
fn option_letters() {
    let text = String::from_utf8(short_options()).unwrap();
    assert_eq!(text, "t:k:w:g:G:O:c:b:p:s:ixyzh");
}

#[test]
fn option_names() {
    let names: Vec<&str> = all_settings().iter().map(|s| s.long_name()).collect();
    assert_eq!(
        names,
        vec![
            "temp", "black", "white", "gamma", "gain", "offset", "contrast", "brightness",
            "posterize", "solarize", "invert", "no-red", "no-green", "no-blue", "help",
        ]
    );
}

#[test]
fn options_are_found_by_their_letter() {
    for setting in all_settings() {
        assert_eq!(Setting::from_code(setting.short_name() as i32), Some(setting));
        assert_eq!(Setting::from_code(setting.short_name() as i32 + 256), Some(setting));
    }
    for code in ['?', ':', 'T', 'a'] {
        assert_eq!(Setting::from_code(code as i32), None);
    }
    assert_eq!(Setting::from_code(0), None);
}

#[test]
fn argument_kinds() {
    assert_eq!(Setting::Temp.argument_kind(), ArgumentKind::Number);
    assert_eq!(Setting::Solarize.argument_kind(), ArgumentKind::Number);
    assert_eq!(Setting::Gain.argument_kind(), ArgumentKind::Triplet);
    assert_eq!(Setting::Offset.argument_kind(), ArgumentKind::Triplet);
    assert_eq!(Setting::Posterize.argument_kind(), ArgumentKind::Count);
    assert_eq!(Setting::Invert.argument_kind(), ArgumentKind::Nothing);
    assert_eq!(Setting::Help.argument_kind(), ArgumentKind::Nothing);
}

#[test]
fn numbers() {
    assert_eq!(parse_f64(None), None);
    assert_eq!(parse_f64(Some(NumberScan { value: num(0.0), consumed: 0 })), None);
    assert_eq!(parse_f64(Some(NumberScan { value: num(2.5), consumed: 3 })), Some(num(2.5)));
}

#[test]
fn counts() {
    assert_eq!(parse_u32(None), None);
    assert_eq!(parse_u32(Some(CountScan { value: 0, consumed: 0 })), None);
    assert_eq!(parse_u32(Some(CountScan { value: 7, consumed: 1 })), Some(7));
    assert_eq!(parse_u32(Some(CountScan { value: 4294967295, consumed: 10 })), Some(u32::MAX));
    assert_eq!(parse_u32(Some(CountScan { value: 4294967296, consumed: 10 })), None);
    assert_eq!(parse_u32(Some(CountScan { value: u64::MAX, consumed: 2 })), None);
}

#[test]
fn scanned_counts() {
    let scan = |s: &str| {
        let scan = scan_count(s.as_bytes());
        (scan.value, scan.consumed)
    };
    assert_eq!(scan("12abc"), (12, 2));
    assert_eq!(scan("010"), (10, 3));
    assert_eq!(scan("0x10"), (0, 1));
    assert_eq!(scan(" \t\n+7 "), (7, 5));
    assert_eq!(scan("-1"), (u64::MAX, 2));
    assert_eq!(scan("-0"), (0, 2));
    assert_eq!(scan(""), (0, 0));
    assert_eq!(scan("  "), (0, 0));
    assert_eq!(scan("+"), (0, 0));
    assert_eq!(scan("+-1"), (0, 0));
    assert_eq!(scan("abc"), (0, 0));
    assert_eq!(scan("18446744073709551615"), (u64::MAX, 20));
    assert_eq!(scan("18446744073709551616"), (u64::MAX, 20));
    assert_eq!(scan("-18446744073709551615"), (1, 21));
    assert_eq!(scan("99999999999999999999999"), (u64::MAX, 23));
    assert_eq!(scan("-99999999999999999999999"), (u64::MAX, 24));
}

#[test]
fn counts_come_back() {
    for n in [0, 1, 9, 10, 255, 65536, 4294967294, u32::MAX] {
        for rest in ["", " ", "x", ".5", "-3"] {
            let text = format!("{}{}", n, rest);
            assert_eq!(parse_u32(Some(scan_count(text.as_bytes()))), Some(n));
        }
    }
}

#[test]
fn triplets_come_back() {
    for (r, g, b) in [(0.1, -2.5e-7, 3e300), (1.0, 0.0, -0.0), (5e-324, 1e-9, 7.25)] {
        let text = format!("{}:{}:{}", r, g, b);
        let numbers = parse_triplet(&read, Some(text.as_bytes()));
        assert_eq!(numbers, Some((num(r), num(g), num(b))));
    }
}

#[test]
fn triplets() {
    let parse = |s: &str| parse_triplet(&read, Some(s.as_bytes()));
    assert_eq!(parse("1:2.5:-3"), Some((num(1.0), num(2.5), num(-3.0))));
    assert_eq!(parse("1:2"), None);
    assert_eq!(parse("1"), None);
    assert_eq!(parse(""), None);
    assert_eq!(parse("1:2:3:4"), None);
    assert_eq!(parse("1:2:"), None);
    assert_eq!(parse("x:2:3"), None);
    assert_eq!(parse("1:y:3"), None);
    assert_eq!(parse("1:2:z"), None);
    assert_eq!(parse_triplet(&read, None), None);
    assert_eq!(parse_triplet(&read, Some(&[b'1', b':', b'2', b':', 0xFF])), None);
    let length = |s: &str| Some(Double { bits: s.chars().count() as u64 });
    assert_eq!(
        parse_triplet(&length, Some("äö::ü".as_bytes())),
        Some((Double { bits: 2 }, Double { bits: 0 }, Double { bits: 1 }))
    );
}

#[test]
fn splitting() {
    assert_eq!(split_triplet("a:b:c"), Some(("a", "b", "c")));
    assert_eq!(split_triplet("a:b:c:d"), Some(("a", "b", "c:d")));
    assert_eq!(split_triplet("::"), Some(("", "", "")));
    assert_eq!(split_triplet("ä:ö:ü"), Some(("ä", "ö", "ü")));
    assert_eq!(split_triplet("a:b"), None);
    for (r, g, b) in [("", "x", "y"), ("ab", "", ":"), ("1", "2", "3:4:")] {
        let joined = format!("{}:{}:{}", r, g, b);
        assert_eq!(split_triplet(&joined), Some((r, g, b)));
    }
}

#[test]
fn text_equality() {
    assert!(same_text("", ""));
    assert!(same_text("wl_output", "wl_output"));
    assert!(!same_text("wl_output", "wl_outpux"));
    assert!(!same_text("wl", "wl_output"));
}

fn settings_of(options: &[(Setting, Argument)]) -> CommandLine {
    let mut line = CommandLine::new();
    for (setting, argument) in options {
        assert_eq!(line.apply(*setting, *argument), Outcome::Continue);
    }
    line
}

#[test]
fn every_option_sets_its_field() {
    let number = |x: f64| Argument::Number(Some(num(x)));
    let line = settings_of(&[
        (Setting::Temp, number(3000.0)),
        (Setting::Black, number(0.1)),
        (Setting::White, number(0.9)),
        (Setting::Gamma, number(2.2)),
        (Setting::Gain, Argument::Triplet(Some((num(1.0), num(2.0), num(3.0))))),
        (Setting::Offset, Argument::Triplet(Some((num(4.0), num(5.0), num(6.0))))),
        (Setting::Contrast, number(0.5)),
        (Setting::Brightness, number(0.8)),
        (Setting::Posterize, Argument::Count(Some(6))),
        (Setting::Solarize, number(0.7)),
        (Setting::Invert, Argument::Nothing),
        (Setting::NoRed, Argument::Nothing),
        (Setting::NoGreen, Argument::Nothing),
        (Setting::NoBlue, Argument::Nothing),
    ]);
    assert_eq!(
        line.finish(),
        Some(Config {
            temp: num(3000.0),
            level_black: num(0.1),
            level_white: num(0.9),
            gamma: num(2.2),
            gain_r: num(1.0),
            gain_g: num(2.0),
            gain_b: num(3.0),
            offset_r: num(4.0),
            offset_g: num(5.0),
            offset_b: num(6.0),
            contrast: num(0.5),
            brightness: num(0.8),
            posterize_levels: 6,
            solarize_value: num(0.7),
            invert: true,
            disable_r: true,
            disable_g: true,
            disable_b: true,
        })
    );
}

#[test]
fn default_settings() {
    let config = Config::default();
    assert_eq!(config.temp, num(6500.0));
    assert_eq!(config.level_black, num(0.0));
    assert_eq!(config.level_white, num(1.0));
    assert_eq!(config.gamma, num(1.0));
    assert_eq!(config.contrast, num(0.0));
    assert_eq!(config.brightness, num(1.0));
    assert_eq!((config.gain_r, config.gain_g, config.gain_b), (num(1.0), num(1.0), num(1.0)));
    assert_eq!((config.offset_r, config.offset_g, config.offset_b), (num(0.0), num(0.0), num(0.0)));
    assert_eq!(config.posterize_levels, 0);
    assert_eq!(config.solarize_value, num(1.0));
    assert!(!config.invert && !config.disable_r && !config.disable_g && !config.disable_b);
}

#[test]
fn temperature_is_required() {
    let line = settings_of(&[(Setting::Gamma, Argument::Number(Some(num(2.0))))]);
    assert_eq!(line.finish(), None);
    assert_eq!(CommandLine::new().finish(), None);
}

#[test]
fn bad_values_change_nothing() {
    for (setting, argument) in [
        (Setting::Temp, Argument::Number(None)),
        (Setting::Gain, Argument::Triplet(None)),
        (Setting::Posterize, Argument::Count(None)),
    ] {
        let mut line = CommandLine::new();
        assert_eq!(line.apply(setting, argument), Outcome::BadValue);
        assert_eq!(line.config, Config::default());
        assert!(!line.temp_set);
    }
}

#[test]
fn help_is_asked_for() {
    assert_eq!(CommandLine::new().apply(Setting::Help, Argument::Nothing), Outcome::Help);
}

#[test]
fn last_option_counts_and_order_does_not() {
    let number = |x: f64| Argument::Number(Some(num(x)));
    let a = settings_of(&[
        (Setting::Temp, number(1.0)),
        (Setting::Gamma, number(3.0)),
        (Setting::Temp, number(2.0)),
    ]);
    let b = settings_of(&[(Setting::Gamma, number(3.0)), (Setting::Temp, number(2.0))]);
    assert_eq!(a.finish(), b.finish());
}
