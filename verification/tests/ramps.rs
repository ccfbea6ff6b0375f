use rustemp::arith::Arith;
use rustemp::config::{Channel, Config};
use rustemp::double::Double;
use rustemp::gamma;

fn num(x: f64) -> Double {
    Double { bits: x.to_bits() }
}

fn value_of(d: Double) -> f64 {
    f64::from_bits(d.bits)
}

fn machine(op: Arith) -> Double {
    num(match op {
        Arith::Add(a, b) => value_of(a) + value_of(b),
        Arith::Sub(a, b) => value_of(a) - value_of(b),
        Arith::Mul(a, b) => value_of(a) * value_of(b),
        Arith::Div(a, b) => value_of(a) / value_of(b),
        Arith::Pow(a, b) => value_of(a).powf(value_of(b)),
        Arith::Ln(a) => value_of(a).ln(),
        Arith::Exp(a) => value_of(a).exp(),
        Arith::Round(a) => value_of(a).round(),
        Arith::FromInt(n) => n as f64,
    })
}

fn close(a: f64, b: f64) -> bool {
    (a - b).abs() < 1e-12
}

fn rgb(kelvin: f64) -> (f64, f64, f64) {
    let (r, g, b) = gamma::kelvin_to_rgb(&machine, num(kelvin));
    (value_of(r), value_of(g), value_of(b))
}

fn assert_rgb(kelvin: f64, r: f64, g: f64, b: f64) {
    let got = rgb(kelvin);
    assert!(close(got.0, r) && close(got.1, g) && close(got.2, b), "{:?}", got);
}

/// The red ramp of five entries at the white point.
fn red(config: Config) -> Vec<u16> {
    let config = Config { temp: num(6600.0), ..config };
    let mut table = gamma::gamma_table(&machine, 5, &config);
    table.truncate(5);
    table
}

#[test]
fn constants_are_the_nearest_numbers() {
    assert_eq!(gamma::COLDEST_BITS, 1000.0f64.to_bits());
    assert_eq!(gamma::HOTTEST_BITS, 40000.0f64.to_bits());
    assert_eq!(gamma::HUNDRED_BITS, 100.0f64.to_bits());
    assert_eq!(gamma::WHITE_POINT_BITS, 66.0f64.to_bits());
    assert_eq!(gamma::NO_BLUE_BITS, 19.0f64.to_bits());
    assert_eq!(gamma::SIXTY_BITS, 60.0f64.to_bits());
    assert_eq!(gamma::TEN_BITS, 10.0f64.to_bits());
    assert_eq!(gamma::HALF_BITS, 0.5f64.to_bits());
    assert_eq!(gamma::BYTE_BITS, 255.0f64.to_bits());
    assert_eq!(gamma::RED_SCALE_BITS, 329.698727446f64.to_bits());
    assert_eq!(gamma::RED_POWER_BITS, (-0.1332047592f64).to_bits());
    assert_eq!(gamma::GREEN_LOG_SCALE_BITS, 99.4708025861f64.to_bits());
    assert_eq!(gamma::GREEN_LOG_SHIFT_BITS, 161.1195636025f64.to_bits());
    assert_eq!(gamma::GREEN_SCALE_BITS, 288.1221695283f64.to_bits());
    assert_eq!(gamma::GREEN_POWER_BITS, (-0.0755148492f64).to_bits());
    assert_eq!(gamma::BLUE_LOG_SCALE_BITS, 138.5177312231f64.to_bits());
    assert_eq!(gamma::BLUE_LOG_SHIFT_BITS, 305.0447927307f64.to_bits());
    assert_eq!(gamma::EPSILON_BITS, f64::EPSILON.to_bits());
    assert_eq!(gamma::NO_CONTRAST_BITS, 1e-9f64.to_bits());
    assert_eq!(gamma::FULL_LEVEL_BITS, 65535.0f64.to_bits());
    assert_eq!(rustemp::config::DAYLIGHT_BITS, 6500.0f64.to_bits());
    assert_eq!(rustemp::double::ONE_BITS, 1.0f64.to_bits());
}

#[test]
fn temperatures_give_their_factors() {
    assert_rgb(1900.0, 1.0, 0.5167299796901287, 0.0);
    assert_rgb(2700.0, 1.0, 0.6538038221639497, 0.3427666343489381);
    assert_rgb(5000.0, 1.0, 0.8941666842459793, 0.8075702745438039);
    assert_rgb(6500.0, 1.0, 0.9965101507420308, 0.9805565033048651);
    assert_rgb(6601.0, 0.001426542872976199, 0.0022331025601524104, 1.0);
    assert_rgb(10000.0, 0.0011082368823982203, 0.0019352894945122762, 1.0);
}

#[test]
fn white_point_is_white() {
    let (r, _, b) = rgb(6600.0);
    assert_eq!((r, b), (1.0, 1.0));
}

#[test]
fn temperatures_saturate() {
    assert_eq!(rgb(500.0), rgb(1000.0));
    assert_eq!(rgb(-3.0), rgb(1000.0));
    assert_eq!(rgb(90000.0), rgb(40000.0));
    assert_eq!(rgb(f64::INFINITY), rgb(40000.0));
    assert_rgb(1000.0, 1.0, 0.26635460243297043, 0.0);
    assert_rgb(40000.0, 0.0008333540978138741, 0.001646497247728859, 1.0);
}

#[test]
fn factors_stay_in_unit() {
    for step in 0..500 {
        let (r, g, b) = rgb(100.0 * step as f64);
        for x in [r, g, b] {
            assert!((0.0..=1.0).contains(&x));
        }
    }
}

#[test]
fn missing_temperature_gives_no_light() {
    let (r, g, b) = rgb(f64::NAN);
    assert!(r.is_nan() && g.is_nan() && b.is_nan());
    let config = Config { temp: num(f64::NAN), ..Config::default() };
    assert_eq!(gamma::gamma_table(&machine, 3, &config), vec![0; 9]);
}

#[test]
fn default_table() {
    let table = gamma::gamma_table(&machine, 5, &Config::default());
    assert_eq!(
        table,
        vec![
            0, 16383, 32767, 49151, 65535, 0, 16326, 32653, 48979, 65306, 0, 16065, 32130, 48195,
            64260,
        ]
    );
}

#[test]
fn warm_table() {
    let config = Config { temp: num(3000.0), ..Config::default() };
    let table = gamma::gamma_table(&machine, 4, &config);
    assert_eq!(
        table,
        vec![0, 21845, 43690, 65535, 0, 15180, 30360, 45540, 0, 9416, 18832, 28248]
    );
}

#[test]
fn small_tables() {
    let config = Config::default();
    assert_eq!(gamma::gamma_table(&machine, 0, &config), Vec::<u16>::new());
    assert_eq!(gamma::gamma_table(&machine, 1, &config), vec![0, 0, 0]);
    assert_eq!(gamma::gamma_table(&machine, 2, &config), vec![0, 65535, 0, 65306, 0, 64260]);
}

fn everything() -> Config {
    Config {
        temp: num(4500.0),
        level_black: num(0.1),
        level_white: num(0.9),
        gamma: num(2.2),
        gain_r: num(0.9),
        gain_g: num(1.1),
        gain_b: num(1.2),
        offset_r: num(0.05),
        offset_g: num(-0.05),
        offset_b: num(0.1),
        contrast: num(0.5),
        brightness: num(0.8),
        posterize_levels: 6,
        solarize_value: num(0.7),
        invert: true,
        ..Config::default()
    }
}

#[test]
fn every_step_at_once() {
    let table = gamma::gamma_table(&machine, 6, &everything());
    assert_eq!(
        table,
        vec![
            65535, 52428, 26214, 26214, 52428, 52428, 65535, 52428, 39321, 26214, 52428, 52428,
            65535, 39321, 26214, 52428, 52428, 52428,
        ]
    );
}

#[test]
fn disabled_channel_is_dark_and_alone() {
    let all = gamma::gamma_table(&machine, 6, &everything());
    for (k, channel) in [Channel::Red, Channel::Green, Channel::Blue].iter().enumerate() {
        let config = Config {
            disable_r: *channel == Channel::Red,
            disable_g: *channel == Channel::Green,
            disable_b: *channel == Channel::Blue,
            ..everything()
        };
        let table = gamma::gamma_table(&machine, 6, &config);
        for i in 0..18 {
            assert_eq!(table[i], if i / 6 == k { 0 } else { all[i] });
        }
    }
}

#[test]
fn gain_of_one_channel_leaves_the_others() {
    let all = gamma::gamma_table(&machine, 6, &everything());
    let config = Config { gain_g: num(0.0), offset_g: num(0.5), ..everything() };
    let table = gamma::gamma_table(&machine, 6, &config);
    assert_eq!(table[0..6], all[0..6]);
    assert_ne!(table[6..12], all[6..12]);
    assert_eq!(table[12..18], all[12..18]);
}

#[test]
fn levels_remap() {
    let config = Config { level_black: num(0.25), level_white: num(0.75), ..Config::default() };
    assert_eq!(red(config), vec![0, 0, 32767, 65535, 65535]);
    let map = |t: f64, black: f64, white: f64| {
        value_of(gamma::apply_levels(&machine, num(t), num(black), num(white)))
    };
    assert_eq!(map(0.25, 0.25, 0.75), 0.0);
    assert_eq!(map(0.75, 0.25, 0.75), 1.0);
    assert_eq!(map(0.5, 0.25, 0.75), 0.5);
    assert_eq!(map(0.3, 0.4, 0.4), 0.3);
    assert_eq!(map(0.25, 1.0, 0.0), 0.75);
}

#[test]
fn gamma_curve() {
    let config = Config { gamma: num(2.0), ..Config::default() };
    assert_eq!(red(config), vec![0, 32767, 46340, 56754, 65535]);
    assert_eq!(value_of(gamma::apply_gamma(&machine, num(0.3), num(1.0))), 0.3);
    assert_eq!(value_of(gamma::apply_gamma(&machine, num(-0.3), num(2.0))), 0.0);
    assert_eq!(value_of(gamma::apply_gamma(&machine, num(f64::NAN), num(2.0))), 0.0);
    assert_eq!(value_of(gamma::apply_gamma(&machine, num(0.5), num(0.5))), 0.25);
}

#[test]
fn contrast_curve() {
    let config = Config { contrast: num(1.0), ..Config::default() };
    assert_eq!(red(config), vec![0, 4594, 32767, 60940, 65535]);
    let config = Config { contrast: num(-0.3), ..Config::default() };
    assert_eq!(red(config), vec![0, 18395, 32767, 47139, 65535]);
    let at = |t: f64, amount: f64| value_of(gamma::apply_contrast(&machine, num(t), num(amount)));
    assert_eq!(at(0.3, 0.0), 0.3);
    assert_eq!(at(0.3, -0.0), 0.3);
    assert_eq!(at(0.3, 9e-10), 0.3);
    for i in 1..50 {
        let t = i as f64 / 100.0;
        assert!(at(t, 0.4) < t && at(1.0 - t, 0.4) > 1.0 - t);
        assert!(at(t, -0.4) > t && at(1.0 - t, -0.4) < 1.0 - t);
        assert!(close(at(at(t, 0.4), -0.4), t));
    }
    for amount in [-1.0, -0.4, -0.01, 1e-9, 0.01, 0.4, 1.0, 50.0] {
        assert_eq!(at(0.0, amount), 0.0);
        assert_eq!(at(1.0, amount), 1.0);
    }
}

#[test]
fn strong_negative_contrast() {
    let at = |t: f64, amount: f64| value_of(gamma::apply_contrast(&machine, num(t), num(amount)));
    for amount in [-1e-9, -0.5, -7.5, -8.0, -50.0, -1000.0, -1e300, f64::MIN, f64::NEG_INFINITY] {
        assert_eq!(at(0.0, amount), 0.0);
        assert_eq!(at(1.0, amount), 1.0);
        assert!((at(0.5, amount) - 0.5).abs() < 2e-9);
        assert_eq!(at(-1.0, amount), 0.0);
        assert_eq!(at(2.0, amount), 1.0);
        let mut before = 0.0;
        for i in 0..=100 {
            let v = at(i as f64 / 100.0, amount);
            assert!(before <= v && v <= 1.0);
            before = v;
        }
    }
    let config = Config { contrast: num(-8.0), ..Config::default() };
    assert_eq!(red(config), vec![0, 31867, 32767, 33667, 65535]);
}

#[test]
fn brightness_scale() {
    let config = Config { brightness: num(0.5), ..Config::default() };
    assert_eq!(red(config), vec![0, 8191, 16383, 24575, 32767]);
    let config = Config { brightness: num(3.0), ..Config::default() };
    assert_eq!(red(config), vec![0, 49151, 65535, 65535, 65535]);
}

#[test]
fn posterize_steps() {
    let config = Config { posterize_levels: 3, ..Config::default() };
    assert_eq!(red(config), vec![0, 32767, 32767, 65535, 65535]);
    let at = |t: f64, levels: u32| value_of(gamma::apply_posterize(&machine, num(t), levels));
    assert_eq!(at(0.3, 0), 0.3);
    assert_eq!(at(0.3, 1), 0.3);
    assert_eq!(at(0.3, 2), 0.0);
    assert_eq!(at(0.6, 2), 1.0);
    for levels in 2..20 {
        assert_eq!(at(0.0, levels), 0.0);
        assert_eq!(at(1.0, levels), 1.0);
        for i in 0..100 {
            let v = at(i as f64 / 99.0, levels);
            assert!((0..levels).any(|k| v == k as f64 / (levels - 1) as f64));
        }
    }
}

#[test]
fn solarize_threshold() {
    let config = Config { solarize_value: num(0.5), ..Config::default() };
    assert_eq!(red(config), vec![0, 16383, 32767, 16383, 0]);
    let config = Config { solarize_value: num(1.0), ..Config::default() };
    assert_eq!(red(config), vec![0, 16383, 32767, 49151, 65535]);
}

#[test]
fn inversion() {
    let config = Config { invert: true, ..Config::default() };
    assert_eq!(red(config), vec![65535, 49151, 32767, 16383, 0]);
    for i in 0..20 {
        let t = num(i as f64 / 19.0);
        let value = |invert: bool| {
            let config = Config { invert, ..everything() };
            value_of(gamma::compute_channel_value(&machine, t, num(0.8), num(0.1), &config))
        };
        assert_eq!(value(true), 1.0 - value(false));
    }
}

#[test]
fn gain_and_offset() {
    let config = Config { gain_r: num(0.5), offset_r: num(0.25), ..Config::default() };
    assert_eq!(red(config), vec![16383, 24575, 32767, 40959, 49151]);
}

#[test]
fn neutral_channel_is_input_times_gain() {
    for i in 0..50 {
        let t = i as f64 / 49.0;
        let v = gamma::compute_channel_value(
            &machine,
            num(t),
            num(0.7),
            num(0.0),
            &Config::default(),
        );
        assert_eq!(value_of(v), t * 0.7);
    }
}

#[test]
fn channels_stay_in_unit() {
    for i in 0..60 {
        for gain in [-2.0, 0.3, 1.0, 7.0] {
            for levels in [0, 2, 5] {
                for threshold in [0.2, 1.0] {
                    let config = Config {
                        posterize_levels: levels,
                        solarize_value: num(threshold),
                        invert: i % 2 == 0,
                        ..everything()
                    };
                    let t = num(i as f64 / 30.0 - 0.5);
                    let v = gamma::compute_channel_value(
                        &machine,
                        t,
                        num(gain),
                        num(0.1),
                        &config,
                    );
                    assert!((0.0..=1.0).contains(&value_of(v)));
                }
            }
        }
    }
}

#[test]
fn steps_keep_the_order() {
    let mut config = everything();
    config.invert = false;
    config.solarize_value = num(1.0);
    for levels in [0, 2, 7] {
        for contrast in [-1.0, -0.2, 0.0, 0.6, 1.0] {
            config.posterize_levels = levels;
            config.contrast = num(contrast);
            let table = gamma::gamma_table(&machine, 200, &config);
            for channel in 0..3 {
                for i in 1..200 {
                    assert!(table[channel * 200 + i - 1] <= table[channel * 200 + i]);
                }
            }
        }
    }
    let level = |t: f64, black: f64, white: f64| {
        value_of(gamma::apply_levels(&machine, num(t), num(black), num(white)))
    };
    assert!(level(0.3, 0.1, 0.9) < level(0.4, 0.1, 0.9));
    assert!(level(0.3, 0.9, 0.1) > level(0.4, 0.9, 0.1));
}

#[test]
fn factors_rise_and_fall() {
    for k in 10..660 {
        let (a, b) = (rgb(k as f64 * 10.0), rgb((k + 1) as f64 * 10.0));
        assert!(a.0 == b.0 && a.1 <= b.1 && a.2 <= b.2);
    }
    for k in 661..4100 {
        let (a, b) = (rgb(k as f64 * 10.0), rgb((k + 1) as f64 * 10.0));
        assert!(a.0 >= b.0 && a.1 >= b.1 && b.0 > 0.0 && b.1 > 0.0 && b.2 == 1.0);
    }
    let next = f64::from_bits(6600.0f64.to_bits() + 1);
    assert!(rgb(next).0 < 0.01 && rgb(next).1 < 0.01 && rgb(next).1 >= rgb(6601.0).1);
}

#[test]
fn posterized_ramps_hold_few_entries() {
    for levels in [2, 3, 6, 17] {
        for brightness in [0.8, -0.5] {
            let mut config = everything();
            config.posterize_levels = levels;
            config.brightness = num(brightness);
            let table = gamma::gamma_table(&machine, 300, &config);
            for channel in 0..3 {
                let mut entries = table[channel * 300..(channel + 1) * 300].to_vec();
                entries.sort();
                entries.dedup();
                assert!(entries.len() <= levels as usize);
            }
        }
    }
}

#[test]
fn posterizing_gives_the_nearest_level() {
    for levels in [2, 3, 5, 16, 255] {
        let last = (levels - 1) as f64;
        for i in 0..=1000 {
            let t = i as f64 / 1000.0;
            let v = value_of(gamma::apply_posterize(&machine, num(t), levels));
            assert!((v - t).abs() <= 0.5 / last + 1e-15);
            for j in 0..levels {
                assert!((v - t).abs() <= (j as f64 / last - t).abs() + 1e-15);
            }
        }
    }
}

#[test]
fn posterizing_twice() {
    for levels in 0..40 {
        for i in 0..=100 {
            let once = gamma::apply_posterize(&machine, num(i as f64 / 100.0), levels);
            assert_eq!(gamma::apply_posterize(&machine, once, levels), once);
        }
        let nothing = gamma::apply_posterize(&machine, num(-0.0), levels);
        assert_eq!(nothing, num(-0.0));
    }
}

#[test]
fn brightness_is_the_last_scale() {
    let config = Config {
        posterize_levels: 0,
        solarize_value: num(1.0),
        invert: false,
        ..everything()
    };
    for i in 0..50 {
        let t = num(i as f64 / 49.0);
        let value = |brightness: f64| {
            let config = Config { brightness: num(brightness), ..config };
            value_of(gamma::compute_channel_value(&machine, t, num(0.9), num(0.1), &config))
        };
        for brightness in [-1.0, 0.0, 0.3, 1.7] {
            assert_eq!(value(brightness), (value(1.0) * brightness).clamp(0.0, 1.0));
        }
    }
}

#[test]
fn contrast_is_symmetric() {
    let at = |t: f64, amount: f64| value_of(gamma::apply_contrast(&machine, num(t), num(amount)));
    for amount in [-1.0, -0.6, -0.1, -0.01, 0.0, 0.01, 0.1, 0.25, 0.6, 1.0] {
        for i in 0..=200 {
            let t = i as f64 / 200.0;
            assert!((at(t, amount) + at(1.0 - t, amount) - 1.0).abs() < 1e-9);
        }
        assert!((at(0.5, amount) - 0.5).abs() < 1e-9);
    }
}

#[test]
fn contrast_directions() {
    let at = |t: f64, amount: f64| value_of(gamma::apply_contrast(&machine, num(t), num(amount)));
    for amount in [0.01, 0.05, 0.25, 0.6, 1.0] {
        for i in 1..100 {
            let t = i as f64 / 200.0;
            assert!(at(t, amount) < t && t < at(t, -amount));
            assert!(at(1.0 - t, -amount) < 1.0 - t && 1.0 - t < at(1.0 - t, amount));
        }
    }
}

#[test]
fn gamma_is_undone_by_its_reciprocal() {
    for exponent in [0.1, 0.5, 0.7, 1.0, 2.2, 3.0, 10.0] {
        for i in 0..=100 {
            let t = i as f64 / 100.0;
            let v = gamma::apply_gamma(&machine, num(t), num(exponent));
            let back = value_of(gamma::apply_gamma(&machine, v, num(1.0 / exponent)));
            assert!((back - t).abs() <= 1e-9);
        }
    }
}

#[test]
fn gain_and_offset_double_as_levels() {
    let plain = Config::default();
    for (black, white) in [(0.0, 1.0), (0.1, 0.9), (0.25, 0.75), (0.3, 0.31), (0.0, 0.5)] {
        let gain = 1.0 / (white - black);
        let offset = -black * gain;
        let levels = Config { level_black: num(black), level_white: num(white), ..Config::default() };
        for i in 0..=200 {
            let t = num(i as f64 / 200.0);
            let x = gamma::compute_channel_value(&machine, t, num(gain), num(offset), &plain);
            let y = gamma::compute_channel_value(&machine, t, num(1.0), num(0.0), &levels);
            assert!((value_of(x) - value_of(y)).abs() < 1e-12);
        }
    }
}

#[test]
fn gamma_directions() {
    let at = |t: f64, exp: f64| value_of(gamma::apply_gamma(&machine, num(t), num(exp)));
    for exp in [0.0, 0.1, 0.5, 1.0, 2.2, 10.0, f64::MAX] {
        assert_eq!(at(0.0, exp), 0.0);
        assert_eq!(at(1.0, exp), 1.0);
        for i in 1..100 {
            let t = i as f64 / 100.0;
            assert!(if exp >= 1.0 { at(t, exp) >= t } else { at(t, exp) <= t });
        }
    }
}

#[test]
fn exact_results_of_the_machine() {
    let sample = [1.0, 0.5, 3.7, 1e-310, 5e-324, 1e300, 65535.0, 2.5e-7];
    for x in sample {
        for x in [x, -x] {
            assert_eq!(machine(Arith::Sub(num(x), num(x))), num(0.0));
            assert_eq!(machine(Arith::Div(num(x), num(x))), num(1.0));
            assert_eq!(machine(Arith::Sub(num(x), num(0.0))), num(x));
            assert_eq!(machine(Arith::Div(num(x), num(1.0))), num(x));
            assert_eq!(machine(Arith::Mul(num(x), num(1.0))), num(x));
            assert_eq!(machine(Arith::Mul(num(1.0), num(x))), num(x));
            assert_eq!(machine(Arith::Add(num(x), num(0.0))), num(x));
            assert_eq!(value_of(machine(Arith::Div(num(0.0), num(x)))), 0.0);
        }
        assert_eq!(machine(Arith::Div(num(0.0), num(x))), num(0.0));
        assert_eq!(machine(Arith::Mul(num(0.0), num(x))), num(0.0));
    }
    assert_eq!(machine(Arith::Add(num(-0.0), num(0.0))), num(0.0));
    assert_eq!(machine(Arith::FromInt(0)), num(0.0));
    assert_eq!(machine(Arith::Round(num(2.5))), num(3.0));
}
