//! Laws on the order of colour factors and of whole ramps, and on how many
//! entries a ramp can hold.

use vstd::prelude::*;
use vstd::arithmetic::power2::*;
use vstd::arithmetic::div_mod::*;
use crate::arith;
use crate::arith::Arith;
use crate::closeness::lemma_error;
use crate::config::{Channel, Config};
use crate::double;
use crate::double::{in_unit, Double};
use crate::gamma;
use crate::laws::law_posterize_levels;
use crate::order::{
    finite_settings, law_channel_is_a_number, law_channel_order, law_posterize_order,
    lemma_brightened_in_unit, brightened_value,
};
use crate::rounding::{
    lemma_above_white_point, lemma_add_order, lemma_at_least, lemma_at_most, lemma_between,
    lemma_clamp_order, lemma_constants, lemma_div_order, lemma_infinity, lemma_mul_order,
    lemma_mul_unit, lemma_power, lemma_truncation_order, lemma_whole_bounds,
};

verus! {

/// The temperature that the curve is read at, in hundreds of kelvin.
pub open spec fn temperature(unit: spec_fn(Arith) -> Double, kelvin: Double) -> Double {
    unit(
        Arith::Div(
            kelvin.clamped(
                Double { bits: gamma::COLDEST_BITS },
                Double { bits: gamma::HOTTEST_BITS },
            ),
            Double { bits: gamma::HUNDRED_BITS },
        ),
    )
}

/// Temperatures stand in the order of the kelvin they come from, and within
/// the curve.
proof fn lemma_temperature(unit: spec_fn(Arith) -> Double, a: Double, b: Double)
    requires
        arith::follows_ieee(unit),
        a.at_most(b),
    ensures
        temperature(unit, a).at_most(temperature(unit, b)),
        (Double { bits: gamma::TEN_BITS }).at_most(temperature(unit, a)),
        temperature(unit, b).at_most(double::power(9)),
        b.at_most(Double { bits: 0x40B9_C800_0000_0000 }) ==> temperature(unit, b).at_most(
            Double { bits: gamma::WHITE_POINT_BITS },
        ),
{
    let coldest = Double { bits: gamma::COLDEST_BITS };
    let hottest = Double { bits: gamma::HOTTEST_BITS };
    let hundred = Double { bits: gamma::HUNDRED_BITS };
    let ten = Double { bits: gamma::TEN_BITS };
    let white = Double { bits: gamma::WHITE_POINT_BITS };
    let s: int = double::one().units();
    lemma_constants();
    double::lemma_zero_one();
    lemma_power(0);
    lemma_power(9);
    lemma2_to64();
    lemma_pow2_adds(1074, 9);
    assert(double::power(0) == double::one());
    let (x, y) = (a.clamped(coldest, hottest), b.clamped(coldest, hottest));
    lemma_between(coldest, x, hottest);
    lemma_between(coldest, y, hottest);
    lemma_div_order(unit, x, y, hundred);
    let (m, n): (int, int) = (x.units(), y.units());
    assert((10 * s) * (100 * s) <= m * s) by (nonlinear_arith)
        requires
            m >= 1000 * s,
            s > 0,
    ;
    lemma_at_least(unit, Arith::Div(x, hundred), ten);
    assert(n * s <= (512 * s) * (100 * s)) by (nonlinear_arith)
        requires
            n <= 40000 * s,
            s > 0,
    ;
    lemma_at_most(unit, Arith::Div(y, hundred), double::power(9));
    if b.at_most(Double { bits: 0x40B9_C800_0000_0000 }) {
        assert(n * s <= (66 * s) * (100 * s)) by (nonlinear_arith)
            requires
                n <= 6600 * s,
                s > 0,
        ;
        lemma_at_most(unit, Arith::Div(y, hundred), white);
    }
}

/// Temperatures above 6600 kelvin lie above the white point, also once they are
/// rounded.
proof fn lemma_above_white(unit: spec_fn(Arith) -> Double, kelvin: Double)
    requires
        arith::follows_ieee(unit),
        arith::rounds_closely(unit),
        (Double { bits: 0x40B9_C800_0000_0000 }).below(kelvin),
    ensures
        (Double { bits: gamma::WHITE_POINT_BITS }).below(temperature(unit, kelvin)),
{
    let hottest = Double { bits: gamma::HOTTEST_BITS };
    let hundred = Double { bits: gamma::HUNDRED_BITS };
    let white = Double { bits: 0x40B9_C800_0000_0000 };
    let next = Double { bits: 0x40B9_C800_0000_0001 };
    let s: int = double::one().units();
    lemma_constants();
    lemma_above_white_point();
    lemma_error();
    double::lemma_zero_one();
    let x = kelvin.clamped(Double { bits: gamma::COLDEST_BITS }, hottest);
    lemma_between(white, x, hottest);
    double::lemma_key_order(white, x);
    double::lemma_key_order(x, next);
    assert(next.units() <= x.units());
    let op = Arith::Div(x, hundred);
    let (n, r): (int, int) = (x.units(), unit(op).units());
    assert(arith::exact(op) == (n * s, 100 * s));
    assert(0 <= n * s <= 0x10_0000_0000 * s * (100 * s)) by (nonlinear_arith)
        requires
            0 <= n <= 40000 * s,
            s > 0,
    ;
    reveal(arith::rounds_closely);
    assert(arith::basic(op));
    assert(0x20_0000_0000_0000 * (n - 100 * r) <= n + 0x20_0000_0000_0000 * 100)
        by (nonlinear_arith)
        requires
            0x20_0000_0000_0000 * (n * s - r * (100 * s)) <= n * s + 0x20_0000_0000_0000 * (100
                * s),
            s > 0,
    ;
}

/// The logarithmic curve keeps the order of positive numbers.
proof fn lemma_log_curve(
    unit: spec_fn(Arith) -> Double,
    x: Double,
    y: Double,
    scale: u64,
    shift: u64,
)
    requires
        arith::follows_ieee(unit),
        arith::ln_in_order(unit),
        double::zero().below(x),
        x.at_most(y),
        y.finite(),
        scale <= 0x4080_0000_0000_0000,
        shift < double::INFINITY_BITS,
    ensures
        gamma::log_curve(unit, x, scale, shift).at_most(gamma::log_curve(unit, y, scale, shift)),
        in_unit(gamma::log_curve(unit, x, scale, shift)),
        in_unit(gamma::log_curve(unit, y, scale, shift)),
{
    let k = Double { bits: scale };
    let h = Double { bits: shift };
    let most = double::power(10);
    let bound = double::power(20);
    let s: int = double::one().units();
    lemma_constants();
    double::lemma_zero_one();
    lemma_power(0);
    lemma_power(9);
    lemma_power(10);
    lemma_power(20);
    lemma2_to64();
    lemma_pow2_adds(1074, 9);
    lemma_pow2_adds(1074, 10);
    lemma_pow2_adds(1074, 20);
    assert(double::power(0) == double::one());
    lemma_infinity(most);
    lemma_infinity(bound);
    double::lemma_key_order(double::power(9), k);
    double::lemma_key_order(k, double::zero());
    assert(0 <= k.units() <= 512 * s);
    lemma_between(double::zero(), x, y);
    let (a, b) = (unit(Arith::Ln(x)), unit(Arith::Ln(y)));
    assert(a.at_most(b));
    lemma_between(most.negated(), a, most);
    lemma_between(most.negated(), b, most);
    lemma_mul_order(unit, a, b, k);
    let (c, m, n): (int, int, int) = (k.units(), a.units(), b.units());
    assert(-(0x10_0000 * s) * s <= c * m && c * n <= (0x10_0000 * s) * s) by (nonlinear_arith)
        requires
            0 <= c <= 512 * s,
            -(1024 * s) <= m,
            n <= 1024 * s,
            s > 0,
    ;
    lemma_at_least(unit, Arith::Mul(k, a), bound.negated());
    lemma_at_most(unit, Arith::Mul(k, b), bound);
    let (p, q) = (unit(Arith::Mul(k, a)), unit(Arith::Mul(k, b)));
    lemma_between(bound.negated(), p, bound);
    lemma_between(bound.negated(), q, bound);
    lemma_add_order(unit, p, q, h);
    let (u, v) = (unit(Arith::Sub(p, h)), unit(Arith::Sub(q, h)));
    let byte = Double { bits: gamma::BYTE_BITS };
    lemma_div_order(unit, u, v, byte);
    lemma_clamp_order(unit(Arith::Div(u, byte)), unit(Arith::Div(v, byte)));
}

/// The power curve reverses the order of temperatures above the white point,
/// and does not reach zero.
proof fn lemma_power_curve(
    unit: spec_fn(Arith) -> Double,
    x: Double,
    y: Double,
    scale: u64,
    power: u64,
)
    requires
        arith::follows_ieee(unit),
        arith::pow_in_order(unit),
        (Double { bits: gamma::WHITE_POINT_BITS }).at_most(x),
        x.at_most(y),
        y.at_most(double::power(9)),
        double::ONE_BITS <= scale <= 0x4080_0000_0000_0000,
        double::SIGN_BIT < power <= 0xBFF0_0000_0000_0000,
    ensures
        gamma::power_curve(unit, y, scale, power).at_most(
            gamma::power_curve(unit, x, scale, power),
        ),
        in_unit(gamma::power_curve(unit, x, scale, power)),
        in_unit(gamma::power_curve(unit, y, scale, power)),
        double::zero().below(gamma::power_curve(unit, x, scale, power)),
        double::zero().below(gamma::power_curve(unit, y, scale, power)),
{
    let one = double::one();
    let k = Double { bits: scale };
    let e = Double { bits: power };
    let sixty = Double { bits: gamma::SIXTY_BITS };
    let byte = Double { bits: gamma::BYTE_BITS };
    let s: int = one.units();
    lemma_constants();
    double::lemma_zero_one();
    lemma_power(-30);
    lemma_power(-21);
    lemma_power(0);
    lemma_power(9);
    lemma_power(18);
    lemma_power(20);
    lemma2_to64();
    lemma_pow2_adds(1074, 9);
    lemma_pow2_adds(1074, 18);
    lemma_pow2_strictly_increases(1092, 1094);
    lemma_pow2_adds(1044, 9);
    assert(double::power(0) == one);
    double::lemma_key_order(double::power(9), k);
    double::lemma_key_order(k, one);
    assert(s <= k.units() <= 512 * s);
    double::lemma_key_order(e, one.negated());
    double::lemma_key_order(e, double::zero());
    assert(one.negated().at_most(e) && e.below(double::zero()));
    lemma_between(Double { bits: gamma::WHITE_POINT_BITS }, x, double::power(9));
    lemma_between(Double { bits: gamma::WHITE_POINT_BITS }, y, double::power(9));
    // The distances.
    lemma_add_order(unit, x, y, sixty);
    let (a, b) = (unit(Arith::Sub(x, sixty)), unit(Arith::Sub(y, sixty)));
    lemma_whole_bounds(unit, Arith::Sub(x, sixty), one);
    lemma_whole_bounds(unit, Arith::Sub(y, sixty), double::power(9));
    lemma_between(one, a, double::power(9));
    lemma_between(one, b, double::power(9));
    // The bases.
    lemma_mul_order(unit, a, b, k);
    let (c, m, n): (int, int, int) = (k.units(), a.units(), b.units());
    assert(s * s <= c * m && c * n <= (0x4_0000 * s) * s) by (nonlinear_arith)
        requires
            s <= c <= 512 * s,
            s <= m,
            0 < n <= 512 * s,
            s > 0,
    ;
    lemma_at_least(unit, Arith::Mul(k, a), one);
    lemma_at_most(unit, Arith::Mul(k, b), double::power(18));
    let (p, q) = (unit(Arith::Mul(k, a)), unit(Arith::Mul(k, b)));
    assert(one.at_most(p) && p.at_most(q) && q.at_most(double::power(20)));
    // The powers.
    let (u, v) = (unit(Arith::Pow(p, e)), unit(Arith::Pow(q, e)));
    assert(v.at_most(u));
    assert(u.at_most(unit(Arith::Pow(one, e))));
    assert(double::power(-21).at_most(v));
    lemma_between(double::power(-21), u, one);
    lemma_between(double::power(-21), v, one);
    lemma_div_order(unit, v, u, byte);
    let (least, z): (int, int) = (double::power(-30).units(), v.units());
    assert(least * (255 * s) <= z * s) by (nonlinear_arith)
        requires
            z >= 512 * least,
            least > 0,
            s > 0,
    ;
    lemma_at_least(unit, Arith::Div(v, byte), double::power(-30));
    lemma_clamp_order(unit(Arith::Div(v, byte)), unit(Arith::Div(u, byte)));
}

/// Up to the white point green and blue do not fall as the temperature rises,
/// and all factors lie in `[0, 1]`.
proof fn lemma_rgb_low(unit: spec_fn(Arith) -> Double, x: Double, y: Double)
    requires
        arith::follows_ieee(unit),
        arith::ln_in_order(unit),
        (Double { bits: gamma::TEN_BITS }).at_most(x),
        x.at_most(y),
        y.at_most(Double { bits: gamma::WHITE_POINT_BITS }),
    ensures
        ({
            let (a, b) = (gamma::rgb_at(unit, x), gamma::rgb_at(unit, y));
            &&& a.0 == double::one()
            &&& b.0 == double::one()
            &&& a.1.at_most(b.1)
            &&& a.2.at_most(b.2)
            &&& in_unit(a.1)
            &&& in_unit(a.2)
            &&& in_unit(b.1)
            &&& in_unit(b.2)
        }),
{
    let ten = Double { bits: gamma::TEN_BITS };
    let white = Double { bits: gamma::WHITE_POINT_BITS };
    let no_blue = Double { bits: gamma::NO_BLUE_BITS };
    lemma_constants();
    double::lemma_zero_one();
    lemma_between(ten, x, white);
    lemma_between(ten, y, white);
    lemma_log_curve(unit, x, y, gamma::GREEN_LOG_SCALE_BITS, gamma::GREEN_LOG_SHIFT_BITS);
    if no_blue.below(x) {
        lemma_blue(unit, x, y);
    } else if no_blue.below(y) {
        lemma_blue(unit, y, y);
    }
}

/// The blue curve between its ends.
proof fn lemma_blue(unit: spec_fn(Arith) -> Double, x: Double, y: Double)
    requires
        arith::follows_ieee(unit),
        arith::ln_in_order(unit),
        (Double { bits: gamma::NO_BLUE_BITS }).below(x),
        x.at_most(y),
        y.at_most(Double { bits: gamma::WHITE_POINT_BITS }),
    ensures
        ({
            let ten = Double { bits: gamma::TEN_BITS };
            let a = gamma::log_curve(
                unit,
                unit(Arith::Sub(x, ten)),
                gamma::BLUE_LOG_SCALE_BITS,
                gamma::BLUE_LOG_SHIFT_BITS,
            );
            let b = gamma::log_curve(
                unit,
                unit(Arith::Sub(y, ten)),
                gamma::BLUE_LOG_SCALE_BITS,
                gamma::BLUE_LOG_SHIFT_BITS,
            );
            a.at_most(b) && in_unit(a) && in_unit(b)
        }),
{
    let ten = Double { bits: gamma::TEN_BITS };
    let white = Double { bits: gamma::WHITE_POINT_BITS };
    let no_blue = Double { bits: gamma::NO_BLUE_BITS };
    lemma_constants();
    double::lemma_zero_one();
    lemma_between(no_blue, x, white);
    lemma_between(no_blue, y, white);
    lemma_add_order(unit, x, y, ten);
    lemma_whole_bounds(unit, Arith::Sub(x, ten), double::one());
    lemma_whole_bounds(unit, Arith::Sub(y, ten), white);
    let (a, b) = (unit(Arith::Sub(x, ten)), unit(Arith::Sub(y, ten)));
    lemma_between(double::one(), b, white);
    lemma_log_curve(unit, a, b, gamma::BLUE_LOG_SCALE_BITS, gamma::BLUE_LOG_SHIFT_BITS);
}

/// Above the white point red and green do not rise as the temperature does,
/// and do not reach zero.
proof fn lemma_rgb_high(unit: spec_fn(Arith) -> Double, x: Double, y: Double)
    requires
        arith::follows_ieee(unit),
        arith::pow_in_order(unit),
        (Double { bits: gamma::WHITE_POINT_BITS }).below(x),
        x.at_most(y),
        y.at_most(double::power(9)),
    ensures
        ({
            let (a, b) = (gamma::rgb_at(unit, x), gamma::rgb_at(unit, y));
            &&& b.0.at_most(a.0)
            &&& b.1.at_most(a.1)
            &&& a.2 == double::one()
            &&& b.2 == double::one()
            &&& in_unit(a.0)
            &&& in_unit(a.1)
            &&& double::zero().below(b.0)
            &&& double::zero().below(b.1)
        }),
{
    lemma_power_curve(unit, x, y, gamma::RED_SCALE_BITS, gamma::RED_POWER_BITS);
    lemma_power_curve(unit, x, y, gamma::GREEN_SCALE_BITS, gamma::GREEN_POWER_BITS);
}

/// Up to 6600 kelvin, cooler light loses no red, green or blue.
pub proof fn law_factors_rise(unit: spec_fn(Arith) -> Double, a: Double, b: Double)
    requires
        arith::follows_ieee(unit),
        arith::library_in_order(unit),
        a.at_most(b),
        b.at_most(Double { bits: 0x40B9_C800_0000_0000 }),
    ensures
        ({
            let (x, y) = (gamma::rgb_of(unit, a), gamma::rgb_of(unit, b));
            x.0 == y.0 && x.1.at_most(y.1) && x.2.at_most(y.2)
        }),
{
    lemma_temperature(unit, a, b);
    lemma_rgb_low(unit, temperature(unit, a), temperature(unit, b));
}

/// Above 6600 kelvin, cooler light gains no red or green, loses neither
/// altogether, and keeps full blue.
pub proof fn law_factors_fall(unit: spec_fn(Arith) -> Double, a: Double, b: Double)
    requires
        arith::follows_ieee(unit),
        arith::rounds_closely(unit),
        arith::library_in_order(unit),
        a.at_most(b),
        (Double { bits: 0x40B9_C800_0000_0000 }).below(a),
    ensures
        ({
            let (x, y) = (gamma::rgb_of(unit, a), gamma::rgb_of(unit, b));
            &&& y.0.at_most(x.0)
            &&& y.1.at_most(x.1)
            &&& x.2 == y.2
            &&& double::zero().below(y.0)
            &&& double::zero().below(y.1)
        }),
{
    lemma_temperature(unit, a, b);
    lemma_above_white(unit, a);
    lemma_rgb_high(unit, temperature(unit, a), temperature(unit, b));
}

/// Every temperature that is a number gives factors in `[0, 1]`, never NaN.
pub proof fn law_factors_are_numbers(unit: spec_fn(Arith) -> Double, kelvin: Double)
    requires
        arith::follows_ieee(unit),
        arith::library_in_order(unit),
        !kelvin.nan(),
    ensures
        ({
            let rgb = gamma::rgb_of(unit, kelvin);
            in_unit(rgb.0) && in_unit(rgb.1) && in_unit(rgb.2)
        }),
{
    let white = Double { bits: gamma::WHITE_POINT_BITS };
    let t = temperature(unit, kelvin);
    double::lemma_zero_one();
    lemma_constants();
    lemma_temperature(unit, kelvin, kelvin);
    if t.at_most(white) {
        lemma_rgb_low(unit, t, t);
    } else {
        lemma_rgb_high(unit, t, t);
    }
}

/// The inputs of a ramp lie in `[0, 1]` and do not fall.
pub proof fn law_inputs_rise(unit: spec_fn(Arith) -> Double, i: int, j: int, size: int)
    requires
        arith::follows_ieee(unit),
        0 <= i <= j < size <= u64::MAX,
    ensures
        in_unit(gamma::input_at(unit, i, size)),
        in_unit(gamma::input_at(unit, j, size)),
        gamma::input_at(unit, i, size).at_most(gamma::input_at(unit, j, size)),
{
    let last: u64 = gamma::last_step(size) as u64;
    let (l, a, b, zero) = (
        unit(Arith::FromInt(last)),
        unit(Arith::FromInt(i as u64)),
        unit(Arith::FromInt(j as u64)),
        unit(Arith::FromInt(0)),
    );
    double::lemma_zero_one();
    assert(zero.at_most(a) && a.at_most(b) && b.at_most(l)) by {
        reveal(arith::keeps_order);
    }
    assert(l.finite() && l.units() > 0);
    lemma_div_order(unit, zero, a, l);
    lemma_div_order(unit, a, b, l);
    lemma_div_order(unit, b, l, l);
    assert(unit(Arith::Div(zero, l)) == double::zero());
    assert(unit(Arith::Div(l, l)) == double::one());
}

/// The gain of a channel: its colour factor times its setting.
pub open spec fn full_gain(unit: spec_fn(Arith) -> Double, channel: Channel, config: Config) -> Double {
    unit(
        Arith::Mul(
            gamma::factor_of(gamma::rgb_of(unit, config.temp), channel),
            config.spec_gain(channel),
        ),
    )
}

/// Whether all settings that a channel depends on are finite and its contrast
/// within range. A negative gamma goes together with a gain other than zero.
pub open spec fn plain_settings(
    unit: spec_fn(Arith) -> Double,
    channel: Channel,
    config: Config,
) -> bool {
    &&& finite_settings(unit, config)
    &&& !config.temp.nan()
    &&& config.spec_gain(channel).finite()
    &&& config.spec_offset(channel).finite()
    &&& config.gamma.negative() ==> full_gain(unit, channel, config).units() != 0
}

/// A ramp does not decrease where no setting turns the order round: levels in
/// order, gamma, gain and brightness not negative, and neither solarizing nor
/// inversion.
pub proof fn law_ramp_does_not_decrease(
    unit: spec_fn(Arith) -> Double,
    size: nat,
    channel: Channel,
    config: Config,
)
    requires
        arith::follows_ieee(unit),
        arith::library_in_order(unit),
        plain_settings(unit, channel, config),
        size <= u64::MAX,
        config.level_black.at_most(config.level_white),
        !config.gamma.negative(),
        config.spec_gain(channel).units() >= 0,
        config.brightness.units() >= 0,
        double::one().at_most(config.solarize_value),
        !config.invert,
    ensures
        ({
            let r = gamma::ramp(unit, size, channel, config);
            forall|i: int, j: int| 0 <= i <= j < size ==> r[i] <= r[j]
        }),
{
    let r = gamma::ramp(unit, size, channel, config);
    let full = Double { bits: gamma::FULL_LEVEL_BITS };
    law_factors_are_numbers(unit, config.temp);
    let factor = gamma::factor_of(gamma::rgb_of(unit, config.temp), channel);
    lemma_mul_unit(unit, factor, config.spec_gain(channel));
    let gain = full_gain(unit, channel, config);
    let offset = config.spec_offset(channel);
    lemma_constants();
    double::lemma_zero_one();
    assert forall|i: int, j: int| 0 <= i <= j < size implies r[i] <= r[j] by {
        if !config.spec_disabled(channel) {
            let (t, u) = (
                gamma::input_at(unit, i, size as int),
                gamma::input_at(unit, j, size as int),
            );
            law_inputs_rise(unit, i, j, size as int);
            law_channel_order(unit, t, u, gain, offset, config);
            law_channel_is_a_number(unit, t, gain, offset, config);
            law_channel_is_a_number(unit, u, gain, offset, config);
            let (a, b) = (
                gamma::channel_value(unit, t, gain, offset, config),
                gamma::channel_value(unit, u, gain, offset, config),
            );
            lemma_between(double::zero(), a, double::one());
            lemma_between(double::zero(), b, double::one());
            lemma_mul_order(unit, a, b, full);
            let (p, q) = (unit(Arith::Mul(a, full)), unit(Arith::Mul(b, full)));
            lemma_truncation_order(p, q);
            lemma_truncated_range(p);
            lemma_truncated_range(q);
        }
    }
}

/// What truncation gives fits a level.
proof fn lemma_truncated_range(d: Double)
    ensures
        0 <= d.truncated() <= u16::MAX,
{
    lemma_pow2_pos(1074);
    if d.units() > 0 {
        lemma_div_pos_is_pos(d.units(), pow2(1074) as int);
    }
}

/// The entry that a posterized value ends up as.
pub open spec fn entry_of(unit: spec_fn(Arith) -> Double, v: Double, config: Config) -> u16 {
    let v = gamma::solarized(unit, v, config.solarize_value);
    let v = if config.invert {
        unit(Arith::Sub(double::one(), v))
    } else {
        v
    };
    unit(Arith::Mul(v, Double { bits: gamma::FULL_LEVEL_BITS })).truncated() as u16
}

/// The distance to 1 depends on the value alone.
proof fn lemma_distance_by_value(unit: spec_fn(Arith) -> Double, v: Double, w: Double)
    requires
        arith::follows_ieee(unit),
        in_unit(v),
        in_unit(w),
        v.units() == w.units(),
    ensures
        unit(Arith::Sub(double::one(), v)).units() == unit(Arith::Sub(double::one(), w)).units(),
        in_unit(unit(Arith::Sub(double::one(), v))),
        in_unit(unit(Arith::Sub(double::one(), w))),
{
    double::lemma_zero_one();
    lemma_between(double::zero(), v, double::one());
    lemma_between(double::zero(), w, double::one());
    lemma_add_order(unit, v, w, double::one());
    lemma_add_order(unit, w, v, double::one());
}

/// The entry depends on the value alone: `-0.0` and `0.0` end up as the same.
proof fn lemma_entry_by_value(
    unit: spec_fn(Arith) -> Double,
    v: Double,
    w: Double,
    config: Config,
)
    requires
        arith::follows_ieee(unit),
        in_unit(v),
        in_unit(w),
        v.units() == w.units(),
    ensures
        entry_of(unit, v, config) == entry_of(unit, w, config),
{
    let full = Double { bits: gamma::FULL_LEVEL_BITS };
    lemma_constants();
    double::lemma_zero_one();
    lemma_distance_by_value(unit, v, w);
    let a = gamma::solarized(unit, v, config.solarize_value);
    let b = gamma::solarized(unit, w, config.solarize_value);
    assert(a.units() == b.units() && in_unit(a) && in_unit(b));
    lemma_distance_by_value(unit, a, b);
    let (x, y) = if config.invert {
        (unit(Arith::Sub(double::one(), a)), unit(Arith::Sub(double::one(), b)))
    } else {
        (a, b)
    };
    lemma_between(double::zero(), x, double::one());
    lemma_between(double::zero(), y, double::one());
    lemma_mul_order(unit, x, y, full);
    lemma_mul_order(unit, y, x, full);
}

/// A posterized ramp holds at most as many different entries as there are
/// levels.
pub proof fn law_ramp_levels(
    unit: spec_fn(Arith) -> Double,
    size: nat,
    channel: Channel,
    config: Config,
)
    requires
        arith::follows_ieee(unit),
        arith::library_in_order(unit),
        plain_settings(unit, channel, config),
        size <= u64::MAX,
        config.posterize_levels >= 2,
        !config.spec_disabled(channel),
    ensures
        gamma::ramp(unit, size, channel, config).to_set().finite(),
        gamma::ramp(unit, size, channel, config).to_set().len() <= config.posterize_levels,
{
    let r = gamma::ramp(unit, size, channel, config);
    let levels: u32 = config.posterize_levels;
    let last: u32 = (levels - 1) as u32;
    let steps = unit(Arith::FromInt(last as u64));
    let level = |k: int| unit(Arith::Div(unit(Arith::FromInt(k as u64)), steps));
    let palette = Seq::new(levels as nat, |k: int| entry_of(unit, level(k), config));
    law_factors_are_numbers(unit, config.temp);
    let factor = gamma::factor_of(gamma::rgb_of(unit, config.temp), channel);
    lemma_mul_unit(unit, factor, config.spec_gain(channel));
    let gain = full_gain(unit, channel, config);
    let offset = config.spec_offset(channel);
    double::lemma_zero_one();
    assert forall|i: int| 0 <= i < size implies palette.contains(#[trigger] r[i]) by {
        let t = gamma::input_at(unit, i, size as int);
        law_inputs_rise(unit, i, i, size as int);
        lemma_brightened_in_unit(unit, t, gain, offset, config);
        let v = brightened_value(unit, t, gain, offset, config);
        let p = gamma::posterized(unit, v, levels);
        law_posterize_order(unit, v, v, levels);
        law_posterize_levels(unit, v, levels);
        let k = choose|k: u32|
            k < levels && p.units() == unit(
                Arith::Div(
                    #[trigger] unit(Arith::FromInt(k as u64)),
                    unit(Arith::FromInt((levels - 1) as u64)),
                ),
            ).units();
        lemma_level_in_unit(unit, k, last);
        lemma_entry_by_value(unit, p, level(k as int), config);
        assert(r[i] == entry_of(unit, p, config));
        assert(palette[k as int] == r[i]);
    }
    assert(r.to_set().subset_of(palette.to_set())) by {
        assert forall|x: u16| r.to_set().contains(x) implies palette.to_set().contains(x) by {
            let i = choose|i: int| 0 <= i < r.len() && r[i] == x;
            assert(palette.contains(r[i]));
        }
    }
    vstd::seq_lib::seq_to_set_is_finite(r);
    vstd::seq_lib::seq_to_set_is_finite(palette);
    palette.lemma_cardinality_of_set();
    vstd::set_lib::lemma_len_subset(r.to_set(), palette.to_set());
}

/// The levels of a posterized channel lie in `[0, 1]`.
proof fn lemma_level_in_unit(unit: spec_fn(Arith) -> Double, k: u32, last: u32)
    requires
        arith::follows_ieee(unit),
        k <= last,
        last > 0,
    ensures
        in_unit(
            unit(Arith::Div(unit(Arith::FromInt(k as u64)), unit(Arith::FromInt(last as u64)))),
        ),
{
    let (zero, a, l) = (
        unit(Arith::FromInt(0)),
        unit(Arith::FromInt(k as u64)),
        unit(Arith::FromInt(last as u64)),
    );
    double::lemma_zero_one();
    assert(zero.at_most(a) && a.at_most(l)) by {
        reveal(arith::keeps_order);
    }
    lemma_div_order(unit, zero, a, l);
    lemma_div_order(unit, a, l, l);
    assert(unit(Arith::Div(zero, l)) == double::zero());
    assert(unit(Arith::Div(l, l)) == double::one());
}

} // verus!
