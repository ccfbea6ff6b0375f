//! Laws on the order and the range of the steps, the channels and the ramps.
//!
//! They hold of arithmetic that [follows IEEE
//! 754](crate::arith::follows_ieee); those that go through a function of the C
//! library assume [its order](crate::arith::library_in_order) too.

use vstd::prelude::*;
use vstd::arithmetic::power2::*;
use crate::arith;
use crate::arith::Arith;
use crate::config::Config;
use crate::curves::{lemma_contrast_curve, within_range};
use crate::double;
use crate::double::{in_unit, Double};
use crate::gamma;
use crate::laws::{law_contrast_ends, lemma_not_negligible};
use crate::rounding::{
    lemma_add_order, lemma_at_least, lemma_between, lemma_clamp_order, lemma_constants,
    lemma_div_order, lemma_infinity, lemma_mul_order, lemma_mul_unit, lemma_power,
    lemma_reciprocal_order, lemma_whole_bounds,
};

verus! {

/// Input levels keep the order of finite inputs, or reverse it where black lies
/// above white, and give values in `[0, 1]`.
pub proof fn law_levels_order(
    unit: spec_fn(Arith) -> Double,
    t: Double,
    u: Double,
    black: Double,
    white: Double,
)
    requires
        arith::follows_ieee(unit),
        t.finite(),
        u.finite(),
        t.at_most(u),
        black.finite(),
        white.finite(),
        unit(Arith::Sub(white, black)).finite(),
    ensures
        ({
            let (x, y) = (
                gamma::leveled(unit, t, black, white),
                gamma::leveled(unit, u, black, white),
            );
            &&& black.at_most(white) ==> x.at_most(y)
            &&& !gamma::negligible(unit(Arith::Sub(white, black))) ==> {
                &&& in_unit(x)
                &&& in_unit(y)
                &&& white.at_most(black) ==> y.at_most(x)
            }
        }),
{
    let range = unit(Arith::Sub(white, black));
    double::lemma_zero_one();
    if !gamma::negligible(range) {
        lemma_infinity(range);
        lemma_not_negligible(range);
        lemma_whole_bounds(unit, Arith::Sub(white, black), double::zero());
        lemma_add_order(unit, t, u, black);
        let (a, b) = (unit(Arith::Sub(t, black)), unit(Arith::Sub(u, black)));
        lemma_div_order(unit, a, b, range);
        let (p, q) = (unit(Arith::Div(a, range)), unit(Arith::Div(b, range)));
        if range.units() > 0 {
            lemma_clamp_order(p, q);
        } else {
            lemma_clamp_order(q, p);
        }
    }
}

/// The same for inputs in `[0, 1]`, however far the levels lie apart.
proof fn lemma_levels_unit(
    unit: spec_fn(Arith) -> Double,
    t: Double,
    u: Double,
    black: Double,
    white: Double,
)
    requires
        arith::follows_ieee(unit),
        in_unit(t),
        in_unit(u),
        t.at_most(u),
        black.finite(),
        white.finite(),
    ensures
        ({
            let (x, y) = (
                gamma::leveled(unit, t, black, white),
                gamma::leveled(unit, u, black, white),
            );
            &&& in_unit(x)
            &&& in_unit(y)
            &&& black.at_most(white) ==> x.at_most(y)
        }),
{
    let range = unit(Arith::Sub(white, black));
    double::lemma_zero_one();
    lemma_between(double::zero(), t, double::one());
    lemma_between(double::zero(), u, double::one());
    if range.finite() {
        law_levels_order(unit, t, u, black, white);
    } else {
        assert(!range.nan());
        lemma_infinity(range);
        let (a, b) = (unit(Arith::Sub(t, black)), unit(Arith::Sub(u, black)));
        assert(a.finite() && b.finite());
        let (p, q) = (unit(Arith::Div(a, range)), unit(Arith::Div(b, range)));
        assert(p.units() == 0 && q.units() == 0);
        lemma_clamp_order(p, q);
        let epsilon = Double { bits: gamma::EPSILON_BITS };
        double::lemma_key_order(range.absolute(), epsilon);
        double::lemma_key_order(range, range);
        assert(!gamma::negligible(range));
    }
}

/// What the power curve raises to.
proof fn lemma_exponent(unit: spec_fn(Arith) -> Double, exp: Double)
    requires
        arith::follows_ieee(unit),
        exp.finite(),
        !exp.negative(),
    ensures
        double::zero().below(unit(Arith::Div(double::one(), exp))),
{
    let one = double::one();
    let s: int = one.units();
    double::lemma_zero_one();
    double::lemma_zero_units(exp);
    double::lemma_key_order(exp, double::zero());
    lemma_infinity(exp);
    if exp.units() == 0 {
        assert(exp == double::zero());
        double::lemma_key_order(double::zero(), double::infinity());
    } else {
        let least = Double { bits: 0x4_0000_0000_0000 };
        let n: int = double::FRACTIONS as int;
        lemma_power(0);
        assert(double::power(0) == one);
        lemma2_to64();
        lemma2_to64_rest();
        lemma_pow2_adds(52, 2046);
        lemma_pow2_adds(50, 2098);
        lemma_pow2_adds(1074, 1074);
        assert(least.units() == pow2(50));
        assert(double::infinity().units() == n * pow2(2046));
        let (x, a): (int, int) = (exp.units(), least.units());
        assert(a * x <= s * s) by (nonlinear_arith)
            requires
                0 < x < pow2(2098),
                a == pow2(50),
                a > 0,
                pow2(50) * pow2(2098) == s * s,
        ;
        lemma_at_least(unit, Arith::Div(one, exp), least);
    }
}

/// The power curve keeps the order on `[0, 1]` and stays there, for an exponent
/// that is not negative.
pub proof fn law_gamma_order(unit: spec_fn(Arith) -> Double, t: Double, u: Double, exp: Double)
    requires
        arith::follows_ieee(unit),
        arith::pow_in_order(unit),
        in_unit(t),
        in_unit(u),
        t.at_most(u),
        exp.finite(),
        !exp.negative(),
    ensures
        gamma::gamma_corrected(unit, t, exp).at_most(gamma::gamma_corrected(unit, u, exp)),
        in_unit(gamma::gamma_corrected(unit, t, exp)),
        in_unit(gamma::gamma_corrected(unit, u, exp)),
{
    double::lemma_zero_one();
    lemma_exponent(unit, exp);
    let y = unit(Arith::Div(double::one(), exp));
    let (a, b) = (t.floored_at_zero(), u.floored_at_zero());
    assert(double::zero().at_most(a) && a.at_most(b) && b.at_most(double::one()));
    assert(unit(Arith::Pow(a, y)).at_most(unit(Arith::Pow(b, y))));
    assert(unit(Arith::Pow(b, y)).at_most(unit(Arith::Pow(double::one(), y))));
}

/// The power curve keeps 0 at 0 and 1 at 1.
pub proof fn law_gamma_ends(unit: spec_fn(Arith) -> Double, exp: Double)
    requires
        arith::follows_ieee(unit),
        arith::pow_in_order(unit),
        exp.finite(),
        !exp.negative(),
    ensures
        gamma::gamma_corrected(unit, double::zero(), exp) == double::zero(),
        gamma::gamma_corrected(unit, double::one(), exp) == double::one(),
{
    double::lemma_zero_one();
    lemma_exponent(unit, exp);
}

/// An exponent from 1 on raises what lies between 0 and 1, one up to 1 lowers
/// it.
pub proof fn law_gamma_direction(unit: spec_fn(Arith) -> Double, t: Double, exp: Double)
    requires
        arith::follows_ieee(unit),
        arith::pow_in_order(unit),
        in_unit(t),
        double::zero().below(t),
        exp.finite(),
        double::zero().below(exp),
    ensures
        double::one().at_most(exp) ==> t.at_most(gamma::gamma_corrected(unit, t, exp)),
        exp.at_most(double::one()) ==> gamma::gamma_corrected(unit, t, exp).at_most(t),
{
    let one = double::one();
    let s: int = one.units();
    let x: int = exp.units();
    double::lemma_zero_one();
    lemma_between(double::zero(), t, one);
    let y = unit(Arith::Div(one, exp));
    assert(unit(Arith::Pow(t, one)) == t);
    if one.at_most(exp) {
        lemma_reciprocal_order(unit, exp, exp);
        assert(unit(Arith::Pow(t, one)).at_most(unit(Arith::Pow(t, y))));
    }
    if exp.at_most(one) {
        assert(s * x <= s * s) by (nonlinear_arith)
            requires
                x <= s,
                s > 0,
        ;
        lemma_at_least(unit, Arith::Div(one, exp), one);
        assert(unit(Arith::Pow(t, y)).at_most(unit(Arith::Pow(t, one))));
    }
}

/// Contrast keeps the order on `[0, 1]` and stays there.
pub proof fn law_contrast_order(
    unit: spec_fn(Arith) -> Double,
    t: Double,
    u: Double,
    amount: Double,
)
    requires
        arith::follows_ieee(unit),
        arith::library_in_order(unit),
        in_unit(t),
        in_unit(u),
        t.at_most(u),
        within_range(unit, amount),
    ensures
        gamma::contrasted(unit, t, amount).at_most(gamma::contrasted(unit, u, amount)),
        in_unit(gamma::contrasted(unit, t, amount)),
        in_unit(gamma::contrasted(unit, u, amount)),
{
    if !amount.absolute().below(Double { bits: gamma::NO_CONTRAST_BITS }) {
        lemma_contrast_curve(unit, amount, t, u);
        let low = gamma::contrast_curve(unit, amount, double::zero());
        let high = gamma::contrast_curve(unit, amount, double::one());
        let span = unit(Arith::Sub(high, low));
        let (a, b) = (
            gamma::contrast_curve(unit, amount, t),
            gamma::contrast_curve(unit, amount, u),
        );
        lemma_add_order(unit, a, b, low);
        let (p, q) = (unit(Arith::Sub(a, low)), unit(Arith::Sub(b, low)));
        lemma_div_order(unit, p, q, span);
        lemma_clamp_order(unit(Arith::Div(p, span)), unit(Arith::Div(q, span)));
    }
}

/// Contrast keeps 0 at 0 and 1 at 1 for every amount within range.
pub proof fn law_contrast_keeps_ends(unit: spec_fn(Arith) -> Double, amount: Double)
    requires
        arith::follows_ieee(unit),
        arith::library_in_order(unit),
        within_range(unit, amount),
    ensures
        gamma::contrasted(unit, double::zero(), amount).units() == 0,
        gamma::contrasted(unit, double::one(), amount) == double::one(),
{
    double::lemma_zero_one();
    if !amount.absolute().below(Double { bits: gamma::NO_CONTRAST_BITS }) {
        lemma_contrast_curve(unit, amount, double::zero(), double::one());
        law_contrast_ends(unit, amount);
    }
}

/// Every amount of contrast in `[-1, 1]` is within range.
pub proof fn law_documented_contrast(unit: spec_fn(Arith) -> Double, amount: Double)
    requires
        arith::follows_ieee(unit),
        double::one().negated().at_most(amount),
        amount.at_most(double::one()),
    ensures
        within_range(unit, amount),
{
    let one = double::one();
    double::lemma_zero_one();
    lemma_constants();
    lemma_infinity(one);
    lemma_between(one.negated(), amount, one);
    if amount.units() > 0 {
        lemma_mul_unit(unit, amount, Double { bits: gamma::TEN_BITS });
    }
}

/// Posterizing keeps the order on `[0, 1]` and stays there.
pub proof fn law_posterize_order(
    unit: spec_fn(Arith) -> Double,
    t: Double,
    u: Double,
    levels: u32,
)
    requires
        arith::follows_ieee(unit),
        in_unit(t),
        in_unit(u),
        t.at_most(u),
    ensures
        gamma::posterized(unit, t, levels).at_most(gamma::posterized(unit, u, levels)),
        in_unit(gamma::posterized(unit, t, levels)),
        in_unit(gamma::posterized(unit, u, levels)),
{
    if levels >= 2 {
        let last: u32 = (levels - 1) as u32;
        let steps = unit(Arith::FromInt(last as u64));
        double::lemma_zero_one();
        lemma_between(double::zero(), t, double::one());
        lemma_between(double::zero(), u, double::one());
        lemma_mul_order(unit, t, u, steps);
        let (a, b) = (unit(Arith::Mul(t, steps)), unit(Arith::Mul(u, steps)));
        assert(unit(Arith::Round(a)).at_most(unit(Arith::Round(b)))) by {
            reveal(arith::keeps_order);
        }
        lemma_div_order(unit, unit(Arith::Round(a)), unit(Arith::Round(b)), steps);
        assert(in_unit(gamma::posterized(unit, t, levels)));
        assert(in_unit(gamma::posterized(unit, u, levels)));
    }
}

/// A brightness that is not negative keeps the order, and any finite one stays
/// in `[0, 1]`.
pub proof fn law_brightness_order(
    unit: spec_fn(Arith) -> Double,
    t: Double,
    u: Double,
    brightness: Double,
)
    requires
        arith::follows_ieee(unit),
        in_unit(t),
        in_unit(u),
        t.at_most(u),
        brightness.finite(),
    ensures
        in_unit(gamma::brightened(unit, t, brightness)),
        in_unit(gamma::brightened(unit, u, brightness)),
        brightness.units() >= 0 ==> gamma::brightened(unit, t, brightness).at_most(
            gamma::brightened(unit, u, brightness),
        ),
{
    double::lemma_zero_one();
    lemma_between(double::zero(), t, double::one());
    lemma_between(double::zero(), u, double::one());
    lemma_mul_unit(unit, t, brightness);
    lemma_mul_unit(unit, u, brightness);
    let (a, b) = (unit(Arith::Mul(t, brightness)), unit(Arith::Mul(u, brightness)));
    lemma_infinity(a);
    lemma_infinity(b);
    lemma_clamp_order(a, a);
    lemma_clamp_order(b, b);
    if brightness.units() >= 0 {
        lemma_mul_order(unit, t, u, brightness);
        lemma_clamp_order(a, b);
    }
}

/// Whether the settings that all channels share are finite, and the contrast
/// within range.
pub open spec fn finite_settings(unit: spec_fn(Arith) -> Double, config: Config) -> bool {
    &&& config.level_black.finite()
    &&& config.level_white.finite()
    &&& config.gamma.finite()
    &&& config.brightness.finite()
    &&& within_range(unit, config.contrast)
}

/// The steps of a channel up to brightness.
pub open spec fn brightened_value(
    unit: spec_fn(Arith) -> Double,
    t: Double,
    gain: Double,
    offset: Double,
    config: Config,
) -> Double {
    let v = gamma::leveled(unit, t, config.level_black, config.level_white);
    let v = gamma::gamma_corrected(unit, v, config.gamma);
    let v = gamma::amplified(unit, v, gain, offset);
    let v = gamma::contrasted(unit, v, config.contrast);
    gamma::brightened(unit, v, config.brightness)
}

/// The steps up to brightness give values in `[0, 1]`.
pub proof fn lemma_brightened_in_unit(
    unit: spec_fn(Arith) -> Double,
    t: Double,
    gain: Double,
    offset: Double,
    config: Config,
)
    requires
        arith::follows_ieee(unit),
        arith::library_in_order(unit),
        in_unit(t),
        gain.finite(),
        offset.finite(),
        finite_settings(unit, config),
        config.gamma.negative() ==> gain.units() != 0,
    ensures
        in_unit(brightened_value(unit, t, gain, offset, config)),
{
    let one = double::one();
    double::lemma_zero_one();
    lemma_levels_unit(unit, t, t, config.level_black, config.level_white);
    let v = gamma::leveled(unit, t, config.level_black, config.level_white);
    let w = gamma::gamma_corrected(unit, v, config.gamma);
    lemma_between(double::zero(), v, one);
    assert(!w.nan() && (w.finite() || gain.units() != 0)) by {
        if config.gamma.negative() {
            let y = unit(Arith::Div(one, config.gamma));
            assert(!y.nan());
            double::lemma_key_order(v.floored_at_zero(), double::zero());
            double::lemma_key_order(double::zero(), v.floored_at_zero());
            assert(!v.floored_at_zero().negative());
            assert(double::zero().at_most(unit(Arith::Pow(v.floored_at_zero(), y))));
        } else {
            law_gamma_order(unit, v, v, config.gamma);
            lemma_between(double::zero(), w, one);
        }
    }
    let product = unit(Arith::Mul(w, gain));
    assert(!product.nan());
    let sum = unit(Arith::Add(product, offset));
    assert(!sum.nan());
    lemma_clamp_order(sum, sum);
    let a = gamma::amplified(unit, w, gain, offset);
    law_contrast_order(unit, a, a, config.contrast);
    let c = gamma::contrasted(unit, a, config.contrast);
    law_brightness_order(unit, c, c, config.brightness);
}

/// Finite settings give values in `[0, 1]`, never NaN. Left out: a negative
/// gamma together with a gain of zero, which multiplies infinity by zero.
pub proof fn law_channel_is_a_number(
    unit: spec_fn(Arith) -> Double,
    t: Double,
    gain: Double,
    offset: Double,
    config: Config,
)
    requires
        arith::follows_ieee(unit),
        arith::library_in_order(unit),
        in_unit(t),
        gain.finite(),
        offset.finite(),
        finite_settings(unit, config),
        config.gamma.negative() ==> gain.units() != 0,
    ensures
        in_unit(gamma::channel_value(unit, t, gain, offset, config)),
{
    lemma_brightened_in_unit(unit, t, gain, offset, config);
    let v = brightened_value(unit, t, gain, offset, config);
    law_posterize_order(unit, v, v, config.posterize_levels);
    let p = gamma::posterized(unit, v, config.posterize_levels);
    let s = gamma::solarized(unit, p, config.solarize_value);
    assert(in_unit(s));
}

/// A channel does not fall as its input rises, where no setting turns the
/// order round: levels in order, gamma, gain and brightness not negative, and
/// neither solarizing nor inversion.
pub proof fn law_channel_order(
    unit: spec_fn(Arith) -> Double,
    t: Double,
    u: Double,
    gain: Double,
    offset: Double,
    config: Config,
)
    requires
        arith::follows_ieee(unit),
        arith::library_in_order(unit),
        in_unit(t),
        in_unit(u),
        t.at_most(u),
        gain.finite(),
        gain.units() >= 0,
        offset.finite(),
        finite_settings(unit, config),
        config.level_black.at_most(config.level_white),
        !config.gamma.negative(),
        config.brightness.units() >= 0,
        double::one().at_most(config.solarize_value),
        !config.invert,
    ensures
        gamma::channel_value(unit, t, gain, offset, config).at_most(
            gamma::channel_value(unit, u, gain, offset, config),
        ),
{
    let one = double::one();
    double::lemma_zero_one();
    lemma_levels_unit(unit, t, u, config.level_black, config.level_white);
    let a = gamma::leveled(unit, t, config.level_black, config.level_white);
    let b = gamma::leveled(unit, u, config.level_black, config.level_white);
    law_gamma_order(unit, a, b, config.gamma);
    let a = gamma::gamma_corrected(unit, a, config.gamma);
    let b = gamma::gamma_corrected(unit, b, config.gamma);
    lemma_between(double::zero(), a, one);
    lemma_between(double::zero(), b, one);
    lemma_mul_order(unit, a, b, gain);
    lemma_mul_unit(unit, a, gain);
    lemma_mul_unit(unit, b, gain);
    lemma_add_order(unit, unit(Arith::Mul(a, gain)), unit(Arith::Mul(b, gain)), offset);
    lemma_clamp_order(
        unit(Arith::Add(unit(Arith::Mul(a, gain)), offset)),
        unit(Arith::Add(unit(Arith::Mul(b, gain)), offset)),
    );
    let a = gamma::amplified(unit, a, gain, offset);
    let b = gamma::amplified(unit, b, gain, offset);
    law_contrast_order(unit, a, b, config.contrast);
    let a = gamma::contrasted(unit, a, config.contrast);
    let b = gamma::contrasted(unit, b, config.contrast);
    law_brightness_order(unit, a, b, config.brightness);
    let a = gamma::brightened(unit, a, config.brightness);
    let b = gamma::brightened(unit, b, config.brightness);
    law_posterize_order(unit, a, b, config.posterize_levels);
}

} // verus!
