//! Gamma ramps: the colour temperature curve, the steps that shape a channel,
//! and the table that a compositor is handed.
//!
//! Every function takes the arithmetic unit `f` that rounds for it. Its
//! contract speaks of every mathematical `unit` that `f` computes.

use vstd::prelude::*;
use crate::arith;
use crate::arith::Arith;
use crate::config::{Channel, Config};
use crate::double;
use crate::double::{Double, ONE_BITS, ZERO_BITS};

verus! {

/// 1000.0, the lowest temperature of the curve in kelvin.
pub const COLDEST_BITS: u64 = 0x408F_4000_0000_0000;

/// 40000.0, the highest temperature of the curve in kelvin.
pub const HOTTEST_BITS: u64 = 0x40E3_8800_0000_0000;

/// 100.0
pub const HUNDRED_BITS: u64 = 0x4059_0000_0000_0000;

/// 66.0, in hundreds of kelvin: red is full up to here, blue from here on.
pub const WHITE_POINT_BITS: u64 = 0x4050_8000_0000_0000;

/// 19.0, in hundreds of kelvin: blue is absent up to here.
pub const NO_BLUE_BITS: u64 = 0x4033_0000_0000_0000;

/// 60.0
pub const SIXTY_BITS: u64 = 0x404E_0000_0000_0000;

/// 10.0
pub const TEN_BITS: u64 = 0x4024_0000_0000_0000;

/// 0.5
pub const HALF_BITS: u64 = 0x3FE0_0000_0000_0000;

/// 255.0
pub const BYTE_BITS: u64 = 0x406F_E000_0000_0000;

/// 329.698727446
pub const RED_SCALE_BITS: u64 = 0x4074_9B2D_FCD4_9634;

/// -0.1332047592
pub const RED_POWER_BITS: u64 = 0xBFC1_0CDA_8237_C045;

/// 99.4708025861
pub const GREEN_LOG_SCALE_BITS: u64 = 0x4058_DE21_A12B_8AFE;

/// 161.1195636025
pub const GREEN_LOG_SHIFT_BITS: u64 = 0x4064_23D3_770C_50F1;

/// 288.1221695283
pub const GREEN_SCALE_BITS: u64 = 0x4072_01F4_6809_09DC;

/// -0.0755148492
pub const GREEN_POWER_BITS: u64 = 0xBFB3_54F0_EFAD_26B3;

/// 138.5177312231
pub const BLUE_LOG_SCALE_BITS: u64 = 0x4061_5091_4111_EAA4;

/// 305.0447927307
pub const BLUE_LOG_SHIFT_BITS: u64 = 0x4073_10B7_7895_1748;

/// 2 to the power -52, the distance from 1.0 to the next number.
pub const EPSILON_BITS: u64 = 0x3CB0_0000_0000_0000;

/// 1e-9, below which a contrast counts as none.
pub const NO_CONTRAST_BITS: u64 = 0x3E11_2E0B_E826_D695;

/// 1024.0, the strength beyond which a negative contrast grows no more.
pub const MAX_STRENGTH_BITS: u64 = 0x4090_0000_0000_0000;

/// 65535.0, the level that stands for 1.0.
pub const FULL_LEVEL_BITS: u64 = 0x40EF_FFE0_0000_0000;

/// Whether a number is so close to zero that it counts as no difference.
pub open spec fn negligible(d: Double) -> bool {
    d.absolute().below(Double { bits: EPSILON_BITS })
}

/// `(scale * (temp - 60)) ^ power / 255`, restricted to `[0, 1]`.
pub open spec fn power_curve(
    unit: spec_fn(Arith) -> Double,
    temp: Double,
    scale: u64,
    power: u64,
) -> Double {
    let distance = unit(Arith::Sub(temp, Double { bits: SIXTY_BITS }));
    let base = unit(Arith::Mul(Double { bits: scale }, distance));
    let raised = unit(Arith::Pow(base, Double { bits: power }));
    unit(Arith::Div(raised, Double { bits: BYTE_BITS })).clamped_to_unit()
}

/// `(scale * ln(x) - shift) / 255`, restricted to `[0, 1]`.
pub open spec fn log_curve(
    unit: spec_fn(Arith) -> Double,
    x: Double,
    scale: u64,
    shift: u64,
) -> Double {
    let scaled = unit(Arith::Mul(Double { bits: scale }, unit(Arith::Ln(x))));
    let shifted = unit(Arith::Sub(scaled, Double { bits: shift }));
    unit(Arith::Div(shifted, Double { bits: BYTE_BITS })).clamped_to_unit()
}

/// The red, green and blue factors at `temp` hundred kelvin.
pub open spec fn rgb_at(unit: spec_fn(Arith) -> Double, temp: Double) -> (Double, Double, Double) {
    let white = Double { bits: WHITE_POINT_BITS };
    (
        if temp.at_most(white) {
            double::one()
        } else {
            power_curve(unit, temp, RED_SCALE_BITS, RED_POWER_BITS)
        },
        if temp.at_most(white) {
            log_curve(unit, temp, GREEN_LOG_SCALE_BITS, GREEN_LOG_SHIFT_BITS)
        } else {
            power_curve(unit, temp, GREEN_SCALE_BITS, GREEN_POWER_BITS)
        },
        if white.at_most(temp) {
            double::one()
        } else if temp.at_most(Double { bits: NO_BLUE_BITS }) {
            double::zero()
        } else {
            log_curve(
                unit,
                unit(Arith::Sub(temp, Double { bits: TEN_BITS })),
                BLUE_LOG_SCALE_BITS,
                BLUE_LOG_SHIFT_BITS,
            )
        },
    )
}

/// The red, green and blue factors of a colour temperature in kelvin.
pub open spec fn rgb_of(unit: spec_fn(Arith) -> Double, kelvin: Double) -> (Double, Double, Double) {
    let kelvin = kelvin.clamped(Double { bits: COLDEST_BITS }, Double { bits: HOTTEST_BITS });
    rgb_at(unit, unit(Arith::Div(kelvin, Double { bits: HUNDRED_BITS })))
}

/// `[black, white]` remapped to `[0, 1]`, or `t` where the two coincide.
pub open spec fn leveled(
    unit: spec_fn(Arith) -> Double,
    t: Double,
    black: Double,
    white: Double,
) -> Double {
    let range = unit(Arith::Sub(white, black));
    if negligible(range) {
        t
    } else {
        unit(Arith::Div(unit(Arith::Sub(t, black)), range)).clamped_to_unit()
    }
}

/// `t ^ (1 / exp)`, or `t` where `exp` is 1.
pub open spec fn gamma_corrected(unit: spec_fn(Arith) -> Double, t: Double, exp: Double) -> Double {
    if negligible(unit(Arith::Sub(exp, double::one()))) {
        t
    } else {
        unit(Arith::Pow(t.floored_at_zero(), unit(Arith::Div(double::one(), exp))))
    }
}

/// `1 / (1 + exp(-k * (x - 0.5)))`
pub open spec fn sigmoid(unit: spec_fn(Arith) -> Double, k: Double, x: Double) -> Double {
    let centered = unit(Arith::Sub(x, Double { bits: HALF_BITS }));
    let grown = unit(Arith::Exp(unit(Arith::Mul(k.negated(), centered))));
    unit(Arith::Div(double::one(), unit(Arith::Add(double::one(), grown))))
}

/// `ln(y / rest)` for the `y` that lies between the ends of the sigmoid as `x`
/// lies between 0 and 1, and the `rest` that lies there as `1 - x` does: up to
/// scale and shift, the inverse of the sigmoid.
pub open spec fn logit(unit: spec_fn(Arith) -> Double, k: Double, x: Double) -> Double {
    let x = x.clamped_to_unit();
    let low = sigmoid(unit, k, double::zero());
    let high = sigmoid(unit, k, double::one());
    let span = unit(Arith::Sub(high, low));
    let y = unit(Arith::Add(low, unit(Arith::Mul(x, span))));
    let rest = unit(Arith::Add(low, unit(Arith::Mul(unit(Arith::Sub(double::one(), x)), span))));
    unit(Arith::Ln(unit(Arith::Div(y, rest))))
}

/// The strength of the sigmoid that a negative contrast inverts. It is bounded,
/// so that the lower end of the sigmoid does not vanish.
pub open spec fn inverse_strength(unit: spec_fn(Arith) -> Double, amount: Double) -> Double {
    unit(Arith::Mul(amount.negated(), Double { bits: TEN_BITS })).clamped(
        double::zero(),
        Double { bits: MAX_STRENGTH_BITS },
    )
}

/// The curve behind a contrast: a sigmoid, or for a negative amount the
/// inverse of the sigmoid that the opposite amount has.
pub open spec fn contrast_curve(
    unit: spec_fn(Arith) -> Double,
    amount: Double,
    x: Double,
) -> Double {
    if amount.below(double::zero()) {
        logit(unit, inverse_strength(unit, amount), x)
    } else {
        sigmoid(unit, unit(Arith::Mul(amount, Double { bits: TEN_BITS })), x)
    }
}

/// The contrast curve, stretched so that 0 and 1 stay where they are, or `t`
/// where the amount is none.
pub open spec fn contrasted(unit: spec_fn(Arith) -> Double, t: Double, amount: Double) -> Double {
    if amount.absolute().below(Double { bits: NO_CONTRAST_BITS }) {
        t
    } else {
        let low = contrast_curve(unit, amount, double::zero());
        let high = contrast_curve(unit, amount, double::one());
        let rise = unit(Arith::Sub(contrast_curve(unit, amount, t), low));
        unit(Arith::Div(rise, unit(Arith::Sub(high, low)))).clamped_to_unit()
    }
}

/// `t` rounded to one of `levels` evenly spaced values, or `t` itself where
/// there are less than two.
pub open spec fn posterized(unit: spec_fn(Arith) -> Double, t: Double, levels: u32) -> Double {
    if levels < 2 {
        t
    } else {
        let steps = unit(Arith::FromInt((levels - 1) as u64));
        unit(Arith::Div(unit(Arith::Round(unit(Arith::Mul(t, steps)))), steps))
    }
}

/// `1 - v` where `v` lies above the threshold, or `v`.
pub open spec fn solarized(unit: spec_fn(Arith) -> Double, v: Double, threshold: Double) -> Double {
    if threshold.below(v) {
        unit(Arith::Sub(double::one(), v))
    } else {
        v
    }
}

/// `v * gain + offset`, restricted to `[0, 1]`.
pub open spec fn amplified(
    unit: spec_fn(Arith) -> Double,
    v: Double,
    gain: Double,
    offset: Double,
) -> Double {
    unit(Arith::Add(unit(Arith::Mul(v, gain)), offset)).clamped_to_unit()
}

/// `v * brightness`, restricted to `[0, 1]`.
pub open spec fn brightened(unit: spec_fn(Arith) -> Double, v: Double, brightness: Double) -> Double {
    unit(Arith::Mul(v, brightness)).clamped_to_unit()
}

/// All the steps of a channel but the final inversion.
pub open spec fn shaped(
    unit: spec_fn(Arith) -> Double,
    t: Double,
    gain: Double,
    offset: Double,
    config: Config,
) -> Double {
    let v = leveled(unit, t, config.level_black, config.level_white);
    let v = gamma_corrected(unit, v, config.gamma);
    let v = amplified(unit, v, gain, offset);
    let v = contrasted(unit, v, config.contrast);
    let v = brightened(unit, v, config.brightness);
    let v = posterized(unit, v, config.posterize_levels);
    solarized(unit, v, config.solarize_value)
}

/// The output of a channel for the input `t`.
pub open spec fn channel_value(
    unit: spec_fn(Arith) -> Double,
    t: Double,
    gain: Double,
    offset: Double,
    config: Config,
) -> Double {
    let v = shaped(unit, t, gain, offset, config);
    if config.invert {
        unit(Arith::Sub(double::one(), v))
    } else {
        v
    }
}

/// The last index of a ramp of `size` entries, or 1 where that is less.
pub open spec fn last_step(size: int) -> int {
    if size >= 2 {
        size - 1
    } else {
        1
    }
}

/// The input of entry `i` in a ramp of `size` entries.
pub open spec fn input_at(unit: spec_fn(Arith) -> Double, i: int, size: int) -> Double {
    unit(Arith::Div(unit(Arith::FromInt(i as u64)), unit(Arith::FromInt(last_step(size) as u64))))
}

/// The factor of a channel among those of a colour temperature.
pub open spec fn factor_of(rgb: (Double, Double, Double), channel: Channel) -> Double {
    match channel {
        Channel::Red => rgb.0,
        Channel::Green => rgb.1,
        Channel::Blue => rgb.2,
    }
}

/// The level of a channel for the input `t`: its value in steps of 1 / 65535,
/// or zero where the channel is switched off.
pub open spec fn level_of(
    unit: spec_fn(Arith) -> Double,
    t: Double,
    channel: Channel,
    factor: Double,
    config: Config,
) -> u16 {
    if config.spec_disabled(channel) {
        0
    } else {
        let gain = unit(Arith::Mul(factor, config.spec_gain(channel)));
        let value = channel_value(unit, t, gain, config.spec_offset(channel), config);
        unit(Arith::Mul(value, Double { bits: FULL_LEVEL_BITS })).truncated() as u16
    }
}

/// The ramp of one channel.
pub open spec fn ramp(
    unit: spec_fn(Arith) -> Double,
    size: nat,
    channel: Channel,
    config: Config,
) -> Seq<u16> {
    let factor = factor_of(rgb_of(unit, config.temp), channel);
    Seq::new(size, |i: int| level_of(unit, input_at(unit, i, size as int), channel, factor, config))
}

/// The three ramps one behind the other: red, green, blue.
pub open spec fn table(unit: spec_fn(Arith) -> Double, size: nat, config: Config) -> Seq<u16> {
    ramp(unit, size, Channel::Red, config) + ramp(unit, size, Channel::Green, config) + ramp(
        unit,
        size,
        Channel::Blue,
        config,
    )
}

fn apply_power_curve<F: Fn(Arith) -> Double>(f: &F, temp: Double, scale: u64, power: u64) -> (r:
    Double)
    requires
        arith::accepts_all(*f),
    ensures
        forall|unit: spec_fn(Arith) -> Double| #[trigger]
            arith::computes(*f, unit) ==> r == power_curve(unit, temp, scale, power),
{
    let distance = f(Arith::Sub(temp, Double { bits: SIXTY_BITS }));
    let base = f(Arith::Mul(Double { bits: scale }, distance));
    let raised = f(Arith::Pow(base, Double { bits: power }));
    f(Arith::Div(raised, Double { bits: BYTE_BITS })).clamp_to_unit()
}

fn apply_log_curve<F: Fn(Arith) -> Double>(f: &F, x: Double, scale: u64, shift: u64) -> (r: Double)
    requires
        arith::accepts_all(*f),
    ensures
        forall|unit: spec_fn(Arith) -> Double| #[trigger]
            arith::computes(*f, unit) ==> r == log_curve(unit, x, scale, shift),
{
    let log = f(Arith::Ln(x));
    let scaled = f(Arith::Mul(Double { bits: scale }, log));
    let shifted = f(Arith::Sub(scaled, Double { bits: shift }));
    f(Arith::Div(shifted, Double { bits: BYTE_BITS })).clamp_to_unit()
}

/// Converts a colour temperature in kelvin to factors for red, green and blue.
pub fn kelvin_to_rgb<F: Fn(Arith) -> Double>(f: &F, kelvin: Double) -> (rgb: (
    Double,
    Double,
    Double,
))
    requires
        arith::accepts_all(*f),
    ensures
        forall|unit: spec_fn(Arith) -> Double| #[trigger]
            arith::computes(*f, unit) ==> rgb == rgb_of(unit, kelvin),
{
    let coldest = Double { bits: COLDEST_BITS };
    let hottest = Double { bits: HOTTEST_BITS };
    proof {
        double::lemma_key_order(hottest, coldest);
    }
    let kelvin = kelvin.clamp(coldest, hottest);
    let temp = f(Arith::Div(kelvin, Double { bits: HUNDRED_BITS }));
    let white = Double { bits: WHITE_POINT_BITS };

    let r = if temp.le(white) {
        Double { bits: ONE_BITS }
    } else {
        apply_power_curve(f, temp, RED_SCALE_BITS, RED_POWER_BITS)
    };

    let g = if temp.le(white) {
        apply_log_curve(f, temp, GREEN_LOG_SCALE_BITS, GREEN_LOG_SHIFT_BITS)
    } else {
        apply_power_curve(f, temp, GREEN_SCALE_BITS, GREEN_POWER_BITS)
    };

    let b = if white.le(temp) {
        Double { bits: ONE_BITS }
    } else if temp.le(Double { bits: NO_BLUE_BITS }) {
        Double { bits: ZERO_BITS }
    } else {
        let x = f(Arith::Sub(temp, Double { bits: TEN_BITS }));
        apply_log_curve(f, x, BLUE_LOG_SCALE_BITS, BLUE_LOG_SHIFT_BITS)
    };

    (r, g, b)
}

/// Input levels: remaps `[black, white]` to `[0, 1]`, and clamps outside that
/// range. `black == white` is a no-op.
pub fn apply_levels<F: Fn(Arith) -> Double>(
    f: &F,
    t: Double,
    black: Double,
    white: Double,
) -> (r: Double)
    requires
        arith::accepts_all(*f),
    ensures
        forall|unit: spec_fn(Arith) -> Double| #[trigger]
            arith::computes(*f, unit) ==> r == leveled(unit, t, black, white),
{
    let range = f(Arith::Sub(white, black));
    if range.abs().lt(Double { bits: EPSILON_BITS }) {
        return t;
    }
    let distance = f(Arith::Sub(t, black));
    f(Arith::Div(distance, range)).clamp_to_unit()
}

/// Power curve: `t ^ (1 / exp)`. `exp == 1.0` is a no-op.
pub fn apply_gamma<F: Fn(Arith) -> Double>(f: &F, t: Double, exp: Double) -> (r: Double)
    requires
        arith::accepts_all(*f),
    ensures
        forall|unit: spec_fn(Arith) -> Double| #[trigger]
            arith::computes(*f, unit) ==> r == gamma_corrected(unit, t, exp),
{
    let one = Double { bits: ONE_BITS };
    let distance = f(Arith::Sub(exp, one));
    if distance.abs().lt(Double { bits: EPSILON_BITS }) {
        return t;
    }
    let power = f(Arith::Div(one, exp));
    f(Arith::Pow(t.max_zero(), power))
}

fn apply_sigmoid<F: Fn(Arith) -> Double>(f: &F, k: Double, x: Double) -> (r: Double)
    requires
        arith::accepts_all(*f),
    ensures
        forall|unit: spec_fn(Arith) -> Double| #[trigger]
            arith::computes(*f, unit) ==> r == sigmoid(unit, k, x),
{
    let one = Double { bits: ONE_BITS };
    let centered = f(Arith::Sub(x, Double { bits: HALF_BITS }));
    let product = f(Arith::Mul(k.neg(), centered));
    let grown = f(Arith::Exp(product));
    let divisor = f(Arith::Add(one, grown));
    f(Arith::Div(one, divisor))
}

fn apply_logit<F: Fn(Arith) -> Double>(f: &F, k: Double, x: Double) -> (r: Double)
    requires
        arith::accepts_all(*f),
    ensures
        forall|unit: spec_fn(Arith) -> Double| #[trigger]
            arith::computes(*f, unit) ==> r == logit(unit, k, x),
{
    let x = x.clamp_to_unit();
    let low = apply_sigmoid(f, k, Double { bits: ZERO_BITS });
    let high = apply_sigmoid(f, k, Double { bits: ONE_BITS });
    let span = f(Arith::Sub(high, low));
    let part = f(Arith::Mul(x, span));
    let y = f(Arith::Add(low, part));
    let distance = f(Arith::Sub(Double { bits: ONE_BITS }, x));
    let part = f(Arith::Mul(distance, span));
    let rest = f(Arith::Add(low, part));
    let odds = f(Arith::Div(y, rest));
    f(Arith::Ln(odds))
}

fn apply_contrast_curve<F: Fn(Arith) -> Double>(f: &F, amount: Double, x: Double) -> (r: Double)
    requires
        arith::accepts_all(*f),
    ensures
        forall|unit: spec_fn(Arith) -> Double| #[trigger]
            arith::computes(*f, unit) ==> r == contrast_curve(unit, amount, x),
{
    let zero = Double { bits: ZERO_BITS };
    let ten = Double { bits: TEN_BITS };
    if amount.lt(zero) {
        let strongest = Double { bits: MAX_STRENGTH_BITS };
        proof {
            double::lemma_key_order(strongest, zero);
        }
        let k = f(Arith::Mul(amount.neg(), ten)).clamp(zero, strongest);
        apply_logit(f, k, x)
    } else {
        let k = f(Arith::Mul(amount, ten));
        apply_sigmoid(f, k, x)
    }
}

/// Sigmoid contrast: pushes values away from the midpoint (`amount > 0`) or
/// toward it (`amount < 0`), renormalized so that `[0, 1]` still maps onto
/// `[0, 1]`. `amount == 0.0` is a no-op: the sigmoid would be flat.
pub fn apply_contrast<F: Fn(Arith) -> Double>(f: &F, t: Double, amount: Double) -> (r: Double)
    requires
        arith::accepts_all(*f),
    ensures
        forall|unit: spec_fn(Arith) -> Double| #[trigger]
            arith::computes(*f, unit) ==> r == contrasted(unit, t, amount),
{
    if amount.abs().lt(Double { bits: NO_CONTRAST_BITS }) {
        return t;
    }
    let low = apply_contrast_curve(f, amount, Double { bits: ZERO_BITS });
    let high = apply_contrast_curve(f, amount, Double { bits: ONE_BITS });
    let here = apply_contrast_curve(f, amount, t);
    let rise = f(Arith::Sub(here, low));
    let span = f(Arith::Sub(high, low));
    f(Arith::Div(rise, span)).clamp_to_unit()
}

/// Rounds to one of `levels` evenly spaced values; less than two disable it.
pub fn apply_posterize<F: Fn(Arith) -> Double>(f: &F, t: Double, levels: u32) -> (r: Double)
    requires
        arith::accepts_all(*f),
    ensures
        forall|unit: spec_fn(Arith) -> Double| #[trigger]
            arith::computes(*f, unit) ==> r == posterized(unit, t, levels),
{
    if levels < 2 {
        return t;
    }
    let steps = f(Arith::FromInt((levels - 1) as u64));
    let scaled = f(Arith::Mul(t, steps));
    let whole = f(Arith::Round(scaled));
    f(Arith::Div(whole, steps))
}

/// Runs the input `t` of one channel through every step. `gain` is the
/// channel's colour factor times its gain setting, `offset` its offset setting.
pub fn compute_channel_value<F: Fn(Arith) -> Double>(
    f: &F,
    t: Double,
    gain: Double,
    offset: Double,
    config: &Config,
) -> (r: Double)
    requires
        arith::accepts_all(*f),
    ensures
        forall|unit: spec_fn(Arith) -> Double| #[trigger]
            arith::computes(*f, unit) ==> r == channel_value(unit, t, gain, offset, *config),
{
    let one = Double { bits: ONE_BITS };
    let v = apply_levels(f, t, config.level_black, config.level_white);
    let v = apply_gamma(f, v, config.gamma);
    let product = f(Arith::Mul(v, gain));
    let v = f(Arith::Add(product, offset)).clamp_to_unit();
    let v = apply_contrast(f, v, config.contrast);
    let v = f(Arith::Mul(v, config.brightness)).clamp_to_unit();
    let v = apply_posterize(f, v, config.posterize_levels);
    let v = if config.solarize_value.lt(v) {
        f(Arith::Sub(one, v))
    } else {
        v
    };
    if config.invert {
        f(Arith::Sub(one, v))
    } else {
        v
    }
}

/// The level of one channel for the input `t`.
fn channel_level<F: Fn(Arith) -> Double>(
    f: &F,
    t: Double,
    channel: Channel,
    factor: Double,
    config: &Config,
) -> (r: u16)
    requires
        arith::accepts_all(*f),
    ensures
        forall|unit: spec_fn(Arith) -> Double| #[trigger]
            arith::computes(*f, unit) ==> r == level_of(unit, t, channel, factor, *config),
{
    if config.disabled(channel) {
        return 0;
    }
    let gain = f(Arith::Mul(factor, config.gain(channel)));
    let value = compute_channel_value(f, t, gain, config.offset(channel), config);
    f(Arith::Mul(value, Double { bits: FULL_LEVEL_BITS })).to_u16()
}

/// Computes the table for ramps of `size` entries.
pub fn gamma_table<F: Fn(Arith) -> Double>(f: &F, size: usize, config: &Config) -> (t: Vec<u16>)
    requires
        arith::accepts_all(*f),
        3 * size <= usize::MAX,
    ensures
        t@.len() == 3 * size,
        forall|unit: spec_fn(Arith) -> Double| #[trigger]
            arith::computes(*f, unit) ==> t@ == table(unit, size as nat, *config),
{
    let (r_factor, g_factor, b_factor) = kelvin_to_rgb(f, config.temp);
    let last: usize = if size >= 2 { size - 1 } else { 1 };
    let mut t: Vec<u16> = vec![0; 3 * size];
    let mut i: usize = 0;
    while i < size
        invariant
            i <= size,
            3 * size <= usize::MAX,
            last == last_step(size as int),
            t@.len() == 3 * size,
            arith::accepts_all(*f),
            forall|unit: spec_fn(Arith) -> Double| #[trigger]
                arith::computes(*f, unit) ==> (r_factor, g_factor, b_factor) == rgb_of(
                    unit,
                    config.temp,
                ),
            forall|unit: spec_fn(Arith) -> Double, j: int|
                #![trigger arith::computes(*f, unit), t@[j]]
                arith::computes(*f, unit) && 0 <= j < i ==> t@[j] == ramp(
                    unit,
                    size as nat,
                    Channel::Red,
                    *config,
                )[j],
            forall|unit: spec_fn(Arith) -> Double, j: int|
                #![trigger arith::computes(*f, unit), t@[j]]
                arith::computes(*f, unit) && size <= j < size + i ==> t@[j] == ramp(
                    unit,
                    size as nat,
                    Channel::Green,
                    *config,
                )[j - size],
            forall|unit: spec_fn(Arith) -> Double, j: int|
                #![trigger arith::computes(*f, unit), t@[j]]
                arith::computes(*f, unit) && 2 * size <= j < 2 * size + i ==> t@[j] == ramp(
                    unit,
                    size as nat,
                    Channel::Blue,
                    *config,
                )[j - 2 * size],
        decreases size - i,
    {
        let numerator = f(Arith::FromInt(i as u64));
        let denominator = f(Arith::FromInt(last as u64));
        let input = f(Arith::Div(numerator, denominator));
        let r: u16 = channel_level(f, input, Channel::Red, r_factor, config);
        let g: u16 = channel_level(f, input, Channel::Green, g_factor, config);
        let b: u16 = channel_level(f, input, Channel::Blue, b_factor, config);
        t.set(i, r);
        t.set(size + i, g);
        t.set(2 * size + i, b);
        i = i + 1;
    }
    t
}

} // verus!
