//! Laws of the ramps.
//!
//! Those that rest on exact results of the arithmetic assume
//! [`arith::exact_where_ieee_is`](crate::arith::exact_where_ieee_is) of it.

use vstd::prelude::*;
use crate::arith;
use crate::arith::Arith;
use crate::config;
use crate::config::{Channel, Config};
use crate::double;
use crate::double::{in_unit, Double};
use crate::gamma;
use crate::upload;

verus! {

/// Every colour factor lies in `[0, 1]`, unless the arithmetic gave NaN.
pub proof fn law_factors_in_unit(unit: spec_fn(Arith) -> Double, kelvin: Double)
    ensures
        ({
            let (r, g, b) = gamma::rgb_of(unit, kelvin);
            &&& r.nan() || in_unit(r)
            &&& g.nan() || in_unit(g)
            &&& b.nan() || in_unit(b)
        }),
{
    double::lemma_zero_one();
}

/// Temperatures beyond the ends of the curve count as its ends.
pub proof fn law_temperature_saturates(unit: spec_fn(Arith) -> Double, kelvin: Double)
    ensures
        ({
            let coldest = Double { bits: gamma::COLDEST_BITS };
            let hottest = Double { bits: gamma::HOTTEST_BITS };
            &&& kelvin.below(coldest) ==> gamma::rgb_of(unit, kelvin) == gamma::rgb_of(
                unit,
                coldest,
            )
            &&& hottest.below(kelvin) ==> gamma::rgb_of(unit, kelvin) == gamma::rgb_of(
                unit,
                hottest,
            )
        }),
{
    let coldest = Double { bits: gamma::COLDEST_BITS };
    let hottest = Double { bits: gamma::HOTTEST_BITS };
    double::lemma_key_order(coldest, hottest);
    double::lemma_key_order(hottest, coldest);
}

/// Red is full up to the white point and blue from it on, so that both are at
/// the white point itself; blue is absent up to 1900 kelvin.
pub proof fn law_white_point(unit: spec_fn(Arith) -> Double, temp: Double)
    ensures
        ({
            let white = Double { bits: gamma::WHITE_POINT_BITS };
            let (r, _, b) = gamma::rgb_at(unit, temp);
            &&& temp.at_most(white) ==> r == double::one()
            &&& white.at_most(temp) ==> b == double::one()
            &&& temp.at_most(Double { bits: gamma::NO_BLUE_BITS }) ==> b == double::zero()
        }),
{
    double::lemma_key_order(
        Double { bits: gamma::NO_BLUE_BITS },
        Double { bits: gamma::WHITE_POINT_BITS },
    );
}

/// Input levels with `black == white` change nothing.
pub proof fn law_equal_levels(unit: spec_fn(Arith) -> Double, t: Double, level: Double)
    requires
        arith::exact_where_ieee_is(unit),
        level.finite(),
    ensures
        gamma::leveled(unit, t, level, level) == t,
{
    double::lemma_key_order(double::zero(), Double { bits: gamma::EPSILON_BITS });
    assert(unit(Arith::Sub(level, level)) == double::zero());
}

/// Input levels map black to 0 and white to 1.
pub proof fn law_levels_ends(unit: spec_fn(Arith) -> Double, black: Double, white: Double)
    requires
        arith::exact_where_ieee_is(unit),
        black.finite(),
        unit(Arith::Sub(white, black)).finite(),
        !gamma::negligible(unit(Arith::Sub(white, black))),
    ensures
        gamma::leveled(unit, black, black, white).units() == 0,
        gamma::leveled(unit, white, black, white) == double::one(),
{
    let range = unit(Arith::Sub(white, black));
    double::lemma_zero_one();
    lemma_not_negligible(range);
    assert(unit(Arith::Sub(black, black)) == double::zero());
    let low = unit(Arith::Div(double::zero(), range));
    double::lemma_zero_units(low);
    assert(unit(Arith::Div(range, range)) == double::one());
}

/// A number that counts as a difference is not zero.
pub proof fn lemma_not_negligible(d: Double)
    requires
        !d.nan(),
        !gamma::negligible(d),
    ensures
        d.units() != 0,
{
    let epsilon = Double { bits: gamma::EPSILON_BITS };
    double::lemma_key_order(d.absolute(), epsilon);
    double::lemma_zero_units(d);
}

/// A gamma of 1.0 changes nothing.
pub proof fn law_unit_gamma(unit: spec_fn(Arith) -> Double, t: Double)
    requires
        arith::exact_where_ieee_is(unit),
    ensures
        gamma::gamma_corrected(unit, t, double::one()) == t,
{
    double::lemma_key_order(double::zero(), Double { bits: gamma::EPSILON_BITS });
    assert(unit(Arith::Sub(double::one(), double::one())) == double::zero());
}

/// A contrast of 0.0, of either sign, changes nothing.
pub proof fn law_zero_contrast(unit: spec_fn(Arith) -> Double, t: Double, amount: Double)
    requires
        amount.units() == 0,
    ensures
        gamma::contrasted(unit, t, amount) == t,
{
    double::lemma_zero_units(amount);
    double::lemma_key_order(amount.absolute(), Double { bits: gamma::NO_CONTRAST_BITS });
}

/// Contrast keeps 0 at 0 and 1 at 1, as long as its curve is neither flat nor
/// out of range.
pub proof fn law_contrast_ends(unit: spec_fn(Arith) -> Double, amount: Double)
    requires
        arith::exact_where_ieee_is(unit),
        ({
            let low = gamma::contrast_curve(unit, amount, double::zero());
            let high = gamma::contrast_curve(unit, amount, double::one());
            let span = unit(Arith::Sub(high, low));
            low.finite() && span.finite() && span.units() != 0
        }),
    ensures
        gamma::contrasted(unit, double::zero(), amount).units() == 0,
        gamma::contrasted(unit, double::one(), amount) == double::one(),
{
    let low = gamma::contrast_curve(unit, amount, double::zero());
    let high = gamma::contrast_curve(unit, amount, double::one());
    let span = unit(Arith::Sub(high, low));
    double::lemma_zero_one();
    assert(unit(Arith::Sub(low, low)) == double::zero());
    double::lemma_zero_units(unit(Arith::Div(double::zero(), span)));
    assert(unit(Arith::Div(span, span)) == double::one());
}

/// Less than two levels disable posterizing.
pub proof fn law_posterize_disabled(unit: spec_fn(Arith) -> Double, t: Double, levels: u32)
    requires
        levels < 2,
    ensures
        gamma::posterized(unit, t, levels) == t,
{
}

/// Posterizing gives one of `levels` values: the whole numbers below `levels`,
/// each divided by the last of them.
pub proof fn law_posterize_levels(unit: spec_fn(Arith) -> Double, t: Double, levels: u32)
    requires
        arith::follows_ieee(unit),
        levels >= 2,
        in_unit(t),
    ensures
        !gamma::posterized(unit, t, levels).nan(),
        exists|k: u32|
            k < levels && gamma::posterized(unit, t, levels).units() == unit(
                Arith::Div(
                    #[trigger] unit(Arith::FromInt(k as u64)),
                    unit(Arith::FromInt((levels - 1) as u64)),
                ),
            ).units(),
{
    let last: u32 = (levels - 1) as u32;
    let steps = unit(Arith::FromInt(last as u64));
    double::lemma_zero_one();
    if t.negative() {
        lemma_posterized_nothing(unit, t, levels);
        assert(unit(Arith::FromInt(0u32 as u64)) == double::zero());
        assert(unit(Arith::Div(double::zero(), steps)) == double::zero());
        double::lemma_zero_units(double::negative_zero());
        assert(0u32 < levels && gamma::posterized(unit, t, levels).units() == unit(
            Arith::Div(unit(Arith::FromInt(0u32 as u64)), unit(Arith::FromInt((levels - 1) as u64))),
        ).units());
    } else {
        let rounded = unit(Arith::Round(unit(Arith::Mul(t, steps))));
        let k = choose|k: u32| k <= last && #[trigger] unit(Arith::FromInt(k as u64)) == rounded;
        assert(k < levels && gamma::posterized(unit, t, levels).units() == unit(
            Arith::Div(unit(Arith::FromInt(k as u64)), unit(Arith::FromInt((levels - 1) as u64))),
        ).units());
        assert(unit(Arith::Mul(t, unit(Arith::FromInt(last as u64)))) == unit(Arith::Mul(t, steps)));
    }
}

/// Posterizing leaves `-0.0` alone.
pub proof fn lemma_posterized_nothing(unit: spec_fn(Arith) -> Double, t: Double, levels: u32)
    requires
        arith::returns_parts(unit),
        levels >= 2,
        in_unit(t),
        t.negative(),
    ensures
        t == double::negative_zero(),
        gamma::posterized(unit, t, levels) == t,
{
    let last: u32 = (levels - 1) as u32;
    double::lemma_zero_one();
    double::lemma_zero_units(t);
    double::lemma_key_order(t, double::zero());
    reveal(arith::returns_parts);
    assert(unit(Arith::FromInt(last as u64)) == unit(Arith::FromInt((levels - 1) as u64)));
}

/// Posterizing twice changes nothing more.
pub proof fn law_posterize_twice(unit: spec_fn(Arith) -> Double, t: Double, levels: u32)
    requires
        arith::rounds_like_ieee(unit),
        arith::returns_parts(unit),
        in_unit(t),
    ensures
        gamma::posterized(unit, gamma::posterized(unit, t, levels), levels) == gamma::posterized(
            unit,
            t,
            levels,
        ),
{
    if levels >= 2 {
        let last: u32 = (levels - 1) as u32;
        let steps = unit(Arith::FromInt(last as u64));
        if t.negative() {
            lemma_posterized_nothing(unit, t, levels);
        } else {
            let rounded = unit(Arith::Round(unit(Arith::Mul(t, steps))));
            let k = choose|k: u32|
                k <= last && #[trigger] unit(Arith::FromInt(k as u64)) == rounded;
            reveal(arith::returns_parts);
            assert(unit(
                Arith::Div(unit(Arith::FromInt(k as u64)), unit(Arith::FromInt(last as u64))),
            ) == gamma::posterized(unit, t, levels));
        }
    }
}

/// Posterizing keeps 0 at 0 and 1 at 1.
pub proof fn law_posterize_ends(unit: spec_fn(Arith) -> Double, levels: u32)
    requires
        arith::exact_where_ieee_is(unit),
        arith::rounds_like_ieee(unit),
    ensures
        gamma::posterized(unit, double::zero(), levels) == double::zero(),
        gamma::posterized(unit, double::one(), levels) == double::one(),
{
    if levels >= 2 {
        let count: u32 = (levels - 1) as u32;
        let steps = unit(Arith::FromInt(count as u64));
        double::lemma_zero_one();
        assert(unit(Arith::Mul(double::zero(), steps)) == double::zero());
        assert(unit(Arith::FromInt(0u32 as u64)) == double::zero());
        assert(unit(Arith::Round(unit(Arith::FromInt(0u32 as u64)))) == double::zero());
        assert(unit(Arith::Div(double::zero(), steps)) == double::zero());
        assert(unit(Arith::Mul(double::one(), steps)) == steps);
        assert(unit(Arith::Round(unit(Arith::FromInt(count as u64)))) == steps);
        assert(unit(Arith::Div(steps, steps)) == double::one());
    }
}

/// A brightness of 1.0 changes nothing in `[0, 1]`.
pub proof fn law_unit_brightness(unit: spec_fn(Arith) -> Double, v: Double)
    requires
        arith::exact_where_ieee_is(unit),
        in_unit(v),
    ensures
        gamma::brightened(unit, v, double::one()) == v,
{
}

/// Brightness scales what the channel gives at brightness 1, as long as no step
/// behind it is in use.
pub proof fn law_brightness_scales(
    unit: spec_fn(Arith) -> Double,
    t: Double,
    gain: Double,
    offset: Double,
    config: Config,
)
    requires
        arith::exact_where_ieee_is(unit),
        config.posterize_levels < 2,
        double::one().at_most(config.solarize_value),
        !config.invert,
        in_unit(
            gamma::channel_value(
                unit,
                t,
                gain,
                offset,
                Config { brightness: double::one(), ..config },
            ),
        ),
    ensures
        gamma::channel_value(unit, t, gain, offset, config) == gamma::brightened(
            unit,
            gamma::channel_value(
                unit,
                t,
                gain,
                offset,
                Config { brightness: double::one(), ..config },
            ),
            config.brightness,
        ),
{
    double::lemma_zero_one();
    let v = gamma::leveled(unit, t, config.level_black, config.level_white);
    let v = gamma::gamma_corrected(unit, v, config.gamma);
    let v = gamma::amplified(unit, v, gain, offset);
    let v = gamma::contrasted(unit, v, config.contrast);
    assert(v.nan() || in_unit(v));
    let plain = gamma::brightened(unit, v, double::one());
    assert(v.nan() ==> plain.nan());
    assert(plain.nan() || in_unit(plain));
    let scaled = gamma::brightened(unit, v, config.brightness);
    assert(scaled.nan() || in_unit(scaled));
}

/// A solarize threshold of 1.0 changes nothing up to 1, nor NaN.
pub proof fn law_unit_solarize(unit: spec_fn(Arith) -> Double, v: Double)
    requires
        v.nan() || v.at_most(double::one()),
    ensures
        gamma::solarized(unit, v, double::one()) == v,
{
}

/// The steps that clamp give values in `[0, 1]`, unless the arithmetic gave NaN.
pub proof fn law_steps_in_unit(
    unit: spec_fn(Arith) -> Double,
    v: Double,
    gain: Double,
    offset: Double,
    brightness: Double,
)
    ensures
        ({
            let a = gamma::amplified(unit, v, gain, offset);
            a.nan() || in_unit(a)
        }),
        ({
            let b = gamma::brightened(unit, v, brightness);
            b.nan() || in_unit(b)
        }),
{
    double::lemma_zero_one();
}

/// Whatever the settings, a channel gives a value in `[0, 1]`, unless the
/// arithmetic gave NaN.
pub proof fn law_channel_in_unit(
    unit: spec_fn(Arith) -> Double,
    t: Double,
    gain: Double,
    offset: Double,
    config: Config,
)
    requires
        arith::keeps_unit(unit),
    ensures
        ({
            let v = gamma::channel_value(unit, t, gain, offset, config);
            v.nan() || in_unit(v)
        }),
{
    double::lemma_zero_one();
    let v = gamma::leveled(unit, t, config.level_black, config.level_white);
    let v = gamma::gamma_corrected(unit, v, config.gamma);
    let v = gamma::amplified(unit, v, gain, offset);
    let v = gamma::contrasted(unit, v, config.contrast);
    let v = gamma::brightened(unit, v, config.brightness);
    assert(v.nan() || in_unit(v));
    let p = gamma::posterized(unit, v, config.posterize_levels);
    assert(p.nan() || in_unit(p)) by {
        if config.posterize_levels >= 2 {
            let n: u32 = (config.posterize_levels - 1) as u32;
            assert(n as u64 == (config.posterize_levels - 1) as u64);
            let steps = unit(Arith::FromInt(n as u64));
            let q = unit(Arith::Div(unit(Arith::Round(unit(Arith::Mul(v, steps)))), steps));
            assert(v.nan() ==> q.nan());
        }
    }
    let s = gamma::solarized(unit, p, config.solarize_value);
    assert(s.nan() || in_unit(s));
}

/// With the default settings a channel is its input times its gain.
pub proof fn law_neutral_channel(unit: spec_fn(Arith) -> Double, t: Double, gain: Double)
    requires
        arith::exact_where_ieee_is(unit),
        in_unit(t),
        !unit(Arith::Mul(t, gain)).nan(),
    ensures
        gamma::channel_value(unit, t, gain, double::zero(), config::neutral()) == gamma::amplified(
            unit,
            t,
            gain,
            double::zero(),
        ),
{
    let (zero, one) = (double::zero(), double::one());
    double::lemma_zero_one();
    double::lemma_key_order(one, Double { bits: gamma::EPSILON_BITS });
    assert(unit(Arith::Sub(one, zero)) == one);
    assert(unit(Arith::Sub(t, zero)) == t);
    assert(unit(Arith::Div(t, one)) == t);
    assert(gamma::leveled(unit, t, zero, one) == t);
    law_unit_gamma(unit, t);
    let v = gamma::amplified(unit, t, gain, zero);
    let product = unit(Arith::Mul(t, gain));
    assert(!unit(Arith::Add(product, zero)).nan()) by {
        if product.units() == 0 {
            assert(unit(Arith::Add(product, zero)) == zero);
        } else {
            assert(unit(Arith::Add(product, zero)) == product);
        }
    }
    double::lemma_clamp(unit(Arith::Add(product, zero)), zero, one);
    law_zero_contrast(unit, v, zero);
    law_unit_brightness(unit, v);
    law_unit_solarize(unit, v);
}

/// Inversion takes the distance to 1 of what the channel gives without it.
pub proof fn law_inversion(
    unit: spec_fn(Arith) -> Double,
    t: Double,
    gain: Double,
    offset: Double,
    config: Config,
)
    ensures
        gamma::channel_value(unit, t, gain, offset, Config { invert: true, ..config }) == unit(
            Arith::Sub(
                double::one(),
                gamma::channel_value(unit, t, gain, offset, Config { invert: false, ..config }),
            ),
        ),
{
}

/// A channel that is switched off has a ramp of zeros.
pub proof fn law_disabled_ramp(
    unit: spec_fn(Arith) -> Double,
    size: nat,
    channel: Channel,
    config: Config,
)
    requires
        config.spec_disabled(channel),
    ensures
        gamma::ramp(unit, size, channel, config) == Seq::new(size, |i: int| 0u16),
{
    assert(gamma::ramp(unit, size, channel, config) =~= Seq::new(size, |i: int| 0u16));
}

/// Whether two settings differ at most in the gain, offset and switch of
/// channels other than the given one.
pub open spec fn agree_for(channel: Channel, a: Config, b: Config) -> bool {
    &&& a.spec_gain(channel) == b.spec_gain(channel)
    &&& a.spec_offset(channel) == b.spec_offset(channel)
    &&& a.spec_disabled(channel) == b.spec_disabled(channel)
    &&& b == Config {
        gain_r: b.gain_r,
        gain_g: b.gain_g,
        gain_b: b.gain_b,
        offset_r: b.offset_r,
        offset_g: b.offset_g,
        offset_b: b.offset_b,
        disable_r: b.disable_r,
        disable_g: b.disable_g,
        disable_b: b.disable_b,
        ..a
    }
}

/// The gain, offset and switch of one channel leave the others' ramps alone.
pub proof fn law_channels_are_independent(
    unit: spec_fn(Arith) -> Double,
    size: nat,
    channel: Channel,
    a: Config,
    b: Config,
)
    requires
        agree_for(channel, a, b),
    ensures
        gamma::ramp(unit, size, channel, a) == gamma::ramp(unit, size, channel, b),
{
    assert(gamma::ramp(unit, size, channel, a) =~= gamma::ramp(unit, size, channel, b));
}

/// A table holds the red, the green and the blue ramp, one behind the other.
pub proof fn law_table_layout(unit: spec_fn(Arith) -> Double, size: nat, config: Config)
    ensures
        ({
            let t = gamma::table(unit, size, config);
            let n = size as int;
            &&& t.len() == 3 * n
            &&& t.subrange(0, n) == gamma::ramp(unit, size, Channel::Red, config)
            &&& t.subrange(n, 2 * n) == gamma::ramp(unit, size, Channel::Green, config)
            &&& t.subrange(2 * n, 3 * n) == gamma::ramp(unit, size, Channel::Blue, config)
        }),
{
    let t = gamma::table(unit, size, config);
    let n: int = size as int;
    assert(t.subrange(0, n) =~= gamma::ramp(unit, size, Channel::Red, config));
    assert(t.subrange(n, 2 * n) =~= gamma::ramp(unit, size, Channel::Green, config));
    assert(t.subrange(2 * n, 3 * n) =~= gamma::ramp(unit, size, Channel::Blue, config));
}

/// A table is exactly as long as the file that is made for it.
pub proof fn law_table_fills_file(unit: spec_fn(Arith) -> Double, size: nat, config: Config)
    ensures
        2 * gamma::table(unit, size, config).len() == upload::spec_table_bytes(size as int),
{
}

/// With the default settings at any temperature, the ramp of a channel that
/// the temperature leaves full runs from 0 to 65535.
pub proof fn law_neutral_ramp_ends(
    unit: spec_fn(Arith) -> Double,
    size: nat,
    channel: Channel,
    temp: Double,
)
    requires
        arith::exact_where_ieee_is(unit),
        2 <= size <= u64::MAX,
        gamma::factor_of(gamma::rgb_of(unit, temp), channel) == double::one(),
    ensures
        ({
            let r = gamma::ramp(unit, size, channel, Config { temp, ..config::neutral() });
            r[0] == 0 && r[size - 1] == u16::MAX
        }),
{
    let (zero, one) = (double::zero(), double::one());
    let config = Config { temp, ..config::neutral() };
    let full = Double { bits: gamma::FULL_LEVEL_BITS };
    let last = unit(Arith::FromInt((size - 1) as u64));
    double::lemma_zero_one();
    assert(unit(Arith::Mul(one, one)) == one);
    assert(gamma::input_at(unit, 0, size as int) == zero) by {
        assert(unit(Arith::Div(zero, last)) == zero);
    }
    assert(gamma::input_at(unit, size - 1, size as int) == one) by {
        assert(unit(Arith::Div(last, last)) == one);
    }
    assert(unit(Arith::Mul(zero, one)) == zero);
    law_neutral_channel(unit, zero, one);
    law_neutral_channel(unit, one, one);
    assert(gamma::channel_value(unit, zero, one, zero, config) == gamma::channel_value(
        unit,
        zero,
        one,
        zero,
        config::neutral(),
    ));
    assert(gamma::channel_value(unit, one, one, zero, config) == gamma::channel_value(
        unit,
        one,
        one,
        zero,
        config::neutral(),
    ));
    assert(unit(Arith::Add(zero, zero)) == zero);
    assert(unit(Arith::Add(one, zero)) == one);
    double::lemma_key_order(zero, full);
    assert(unit(Arith::Mul(zero, full)) == zero);
    assert(unit(Arith::Mul(one, full)) == full);
    double::lemma_truncated_full();
}

} // verus!
