//! What the entries of a table are.

use vstd::prelude::*;
use crate::arith;
use crate::arith::Arith;
use crate::closeness::{error, lemma_close, lemma_error};
use crate::config;
use crate::config::{Channel, Config};
use crate::double;
use crate::double::{in_unit, law_truncated, Double};
use crate::gamma;
use crate::laws::law_neutral_channel;
use crate::ramps::{law_factors_are_numbers, law_inputs_rise};
use crate::rounding::{lemma_between, lemma_constants, lemma_infinity, lemma_mul_unit};

verus! {

/// The inputs of a ramp are evenly spaced from 0 to 1: the input of entry `i`,
/// times the index of the last entry, is `i`, up to rounding.
pub proof fn law_inputs_are_even(unit: spec_fn(Arith) -> Double, i: int, size: int)
    requires
        arith::follows_ieee(unit),
        arith::rounds_closely(unit),
        arith::rounds_to_nearest(unit),
        0 <= i < size <= 0x1_0000_0000,
    ensures
        in_unit(gamma::input_at(unit, i, size)),
        size == 1 ==> gamma::input_at(unit, i, size).units() == 0,
        ({
            let off = gamma::input_at(unit, i, size).units() * (size - 1) - i
                * double::one().units();
            -((size - 1) * error()) <= off <= (size - 1) * error()
        }),
{
    let (s, e): (int, int) = (double::one().units(), error());
    let n: int = if size >= 2 {
        size - 1
    } else {
        1
    };
    lemma_error();
    double::lemma_zero_one();
    law_inputs_rise(unit, i, i, size);
    let (m, k): (u32, u32) = (n as u32, i as u32);
    let (steps, part) = (unit(Arith::FromInt(m as u64)), unit(Arith::FromInt(k as u64)));
    assert(m as u64 == n as u64 && k as u64 == i as u64);
    assert(steps.units() == n * s);
    assert(part.units() == i * s);
    let op = Arith::Div(part, steps);
    assert(gamma::input_at(unit, i, size) == unit(op));
    let v: int = unit(op).units();
    if i == 0 {
        assert(unit(Arith::FromInt(0)) == double::zero());
        assert(unit(Arith::Div(double::zero(), steps)) == double::zero());
        assert(0 * (size - 1) == 0 && 0 * s == 0 && 0 <= (size - 1) * e) by (nonlinear_arith)
            requires
                size >= 1,
                e > 0,
        ;
    } else {
        assert(part.finite() && steps.finite());
        let (p, q): (int, int) = ((i * s) * s, n * s);
        assert(q > 0 && 0 <= p <= 0x10_0000_0000 * s * q) by (nonlinear_arith)
            requires
                p == (i * s) * s,
                q == n * s,
                0 < i <= n,
                s > 0,
        ;
        assert(arith::exact(op) == (p, q));
        reveal(arith::rounds_closely);
        assert(arith::basic(op));
        let d: int = v * n - i * s;
        assert(v * q - p == d * s) by (nonlinear_arith)
            requires
                d == v * n - i * s,
                p == (i * s) * s,
                q == n * s,
        ;
        assert(-(n * e) <= d <= n * e) by (nonlinear_arith)
            requires
                0x20_0000_0000_0000 * (d * s) <= p + 0x20_0000_0000_0000 * q,
                -(0x20_0000_0000_0000 * (d * s)) <= p + 0x20_0000_0000_0000 * q,
                p == (i * s) * s,
                q == n * s,
                0 < i <= n,
                s == 0x10_0000_0000_0000 * e,
                e > 0x20_0000_0000_0000,
        ;
    }
}

/// Whether an entry is the level of a value: its 65535 parts of 1, without the
/// fraction, up to rounding.
pub open spec fn level_of_value(entry: int, value: int) -> bool {
    let (s, e) = (double::one().units(), error());
    &&& 0 <= entry <= 65535
    &&& entry * s <= 65535 * value + 0x1_0000 * e
    &&& 65535 * value <= (entry + 1) * s + 0x1_0000 * e
}

/// The level of a value in `[0, 1]`.
proof fn lemma_level(unit: spec_fn(Arith) -> Double, v: Double)
    requires
        arith::follows_ieee(unit),
        arith::rounds_closely(unit),
        in_unit(v),
    ensures
        level_of_value(
            unit(Arith::Mul(v, Double { bits: gamma::FULL_LEVEL_BITS })).truncated(),
            v.units(),
        ),
{
    let full = Double { bits: gamma::FULL_LEVEL_BITS };
    let (s, e): (int, int) = (double::one().units(), error());
    lemma_error();
    lemma_constants();
    double::lemma_zero_one();
    lemma_between(double::zero(), v, double::one());
    let op = Arith::Mul(v, full);
    let x: int = v.units();
    assert(arith::exact(op) == (x * (65535 * s), s));
    assert(0 <= x * (65535 * s) <= 0x1_0000 * s * s) by (nonlinear_arith)
        requires
            0 <= x <= s,
            s > 0,
    ;
    lemma_infinity(full);
    lemma_close(unit, op, 0x1_0000);
    let m: int = unit(op).units();
    assert(-(0x1_0000 * e) <= m - 65535 * x <= 0x1_0000 * e) by (nonlinear_arith)
        requires
            -(0x1_0000 * e * s) <= m * s - x * (65535 * s) <= 0x1_0000 * e * s,
            s > 0,
    ;
    law_truncated(unit(op));
    let entry: int = unit(op).truncated();
    assert(entry == 65535 ==> 65535 * x <= (entry + 1) * s);
    assert(entry == 0 ==> entry * s == 0) by (nonlinear_arith);
}

/// Whether an entry is what a channel makes of the `i`th of the evenly spaced
/// inputs: the channel's gain is its colour factor times its gain setting.
pub open spec fn entry_comes_from(
    unit: spec_fn(Arith) -> Double,
    entry: int,
    i: int,
    size: int,
    factor: Double,
    gain: Double,
    offset: Double,
    config: Config,
) -> bool {
    let (s, e) = (double::one().units(), error());
    exists|t: Double, full: Double|
        {
            let value = #[trigger] gamma::channel_value(unit, t, full, offset, config);
            let off = t.units() * (size - 1) - i * s;
            let gap = full.units() * s - factor.units() * gain.units();
            &&& in_unit(t)
            &&& size == 1 ==> t.units() == 0
            &&& -((size - 1) * e) <= off <= (size - 1) * e
            &&& full.finite()
            &&& -(1024 * (e * s)) <= gap <= 1024 * (e * s)
            &&& in_unit(value) ==> level_of_value(entry, value.units())
        }
}

/// One channel's entry.
proof fn lemma_entry(
    unit: spec_fn(Arith) -> Double,
    size: nat,
    channel: Channel,
    config: Config,
    i: int,
)
    requires
        arith::follows_ieee(unit),
        arith::rounds_closely(unit),
        arith::rounds_to_nearest(unit),
        0 <= i < size <= 0x1_0000_0000,
        in_unit(gamma::factor_of(gamma::rgb_of(unit, config.temp), channel)),
        config.spec_gain(channel).finite(),
        -(1024 * double::one().units()) <= config.spec_gain(channel).units() <= 1024
            * double::one().units(),
        !config.spec_disabled(channel),
    ensures
        entry_comes_from(
            unit,
            gamma::ramp(unit, size, channel, config)[i] as int,
            i,
            size as int,
            gamma::factor_of(gamma::rgb_of(unit, config.temp), channel),
            config.spec_gain(channel),
            config.spec_offset(channel),
            config,
        ),
{
    let (s, e): (int, int) = (double::one().units(), error());
    let factor = gamma::factor_of(gamma::rgb_of(unit, config.temp), channel);
    let gain = config.spec_gain(channel);
    let offset = config.spec_offset(channel);
    lemma_error();
    double::lemma_zero_one();
    law_inputs_are_even(unit, i, size as int);
    let t = gamma::input_at(unit, i, size as int);
    lemma_between(double::zero(), factor, double::one());
    let op = Arith::Mul(factor, gain);
    let (a, b): (int, int) = (factor.units(), gain.units());
    assert(arith::exact(op) == (a * b, s));
    assert(-(1024 * s * s) <= a * b <= 1024 * s * s) by (nonlinear_arith)
        requires
            0 <= a <= s,
            -(1024 * s) <= b <= 1024 * s,
    ;
    lemma_close(unit, op, 1024);
    let full = unit(op);
    assert(1024 * e * s == 1024 * (e * s)) by (nonlinear_arith);
    let value = gamma::channel_value(unit, t, full, offset, config);
    let product = unit(Arith::Mul(value, Double { bits: gamma::FULL_LEVEL_BITS }));
    law_truncated(product);
    if in_unit(value) {
        lemma_level(unit, value);
    }
}

/// A table holds three ramps of `size` entries. The entries of the first are
/// what the red channel makes of the evenly spaced inputs, with the red factor
/// of the colour temperature and the red gain and offset; so are those of the
/// second for green and those of the third for blue. A channel that is switched
/// off has zeros.
pub proof fn law_table_entries(unit: spec_fn(Arith) -> Double, size: nat, config: Config, i: int)
    requires
        arith::follows_ieee(unit),
        arith::rounds_closely(unit),
        arith::rounds_to_nearest(unit),
        arith::library_in_order(unit),
        0 <= i < size <= 0x1_0000_0000,
        !config.temp.nan(),
        config.gain_r.finite() && config.gain_g.finite() && config.gain_b.finite(),
        -(1024 * double::one().units()) <= config.gain_r.units() <= 1024 * double::one().units(),
        -(1024 * double::one().units()) <= config.gain_g.units() <= 1024 * double::one().units(),
        -(1024 * double::one().units()) <= config.gain_b.units() <= 1024 * double::one().units(),
    ensures
        ({
            let table = gamma::table(unit, size, config);
            let (r, g, b) = gamma::rgb_of(unit, config.temp);
            let n = size as int;
            &&& table.len() == 3 * n
            &&& if config.disable_r {
                table[i] == 0
            } else {
                entry_comes_from(
                    unit,
                    table[i] as int,
                    i,
                    n,
                    r,
                    config.gain_r,
                    config.offset_r,
                    config,
                )
            }
            &&& if config.disable_g {
                table[n + i] == 0
            } else {
                entry_comes_from(
                    unit,
                    table[n + i] as int,
                    i,
                    n,
                    g,
                    config.gain_g,
                    config.offset_g,
                    config,
                )
            }
            &&& if config.disable_b {
                table[2 * n + i] == 0
            } else {
                entry_comes_from(
                    unit,
                    table[2 * n + i] as int,
                    i,
                    n,
                    b,
                    config.gain_b,
                    config.offset_b,
                    config,
                )
            }
        }),
{
    law_factors_are_numbers(unit, config.temp);
    if !config.disable_r {
        lemma_entry(unit, size, Channel::Red, config, i);
    }
    if !config.disable_g {
        lemma_entry(unit, size, Channel::Green, config, i);
    }
    if !config.disable_b {
        lemma_entry(unit, size, Channel::Blue, config, i);
    }
}

/// Whether an entry is the `i`th of `n` even steps up to a factor: 65535 times
/// the factor times `i / n`, without the fraction, up to rounding.
pub open spec fn even_step(entry: int, i: int, n: int, factor: int) -> bool {
    let (s, e) = (double::one().units(), error());
    &&& entry * (n * s) <= 65535 * (i * factor) + 0x4_0000 * (n * e)
    &&& 65535 * (i * factor) <= (entry + 1) * (n * s) + 0x4_0000 * (n * e)
}

/// One entry of a ramp without settings.
proof fn lemma_even_step(
    unit: spec_fn(Arith) -> Double,
    size: nat,
    channel: Channel,
    temp: Double,
    i: int,
)
    requires
        arith::follows_ieee(unit),
        arith::rounds_closely(unit),
        arith::rounds_to_nearest(unit),
        0 <= i < size,
        2 <= size <= 0x1_0000_0000,
        in_unit(gamma::factor_of(gamma::rgb_of(unit, temp), channel)),
    ensures
        even_step(
            gamma::ramp(unit, size, channel, Config { temp, ..config::neutral() })[i] as int,
            i,
            size - 1,
            gamma::factor_of(gamma::rgb_of(unit, temp), channel).units(),
        ),
{
    let (zero, one) = (double::zero(), double::one());
    let (s, e): (int, int) = (one.units(), error());
    let config = Config { temp, ..config::neutral() };
    let factor = gamma::factor_of(gamma::rgb_of(unit, temp), channel);
    lemma_error();
    double::lemma_zero_one();
    law_inputs_are_even(unit, i, size as int);
    let t = gamma::input_at(unit, i, size as int);
    lemma_between(zero, factor, one);
    lemma_between(zero, t, one);
    assert(unit(Arith::Mul(factor, one)) == factor);
    let op = Arith::Mul(t, factor);
    let (x, f): (int, int) = (t.units(), factor.units());
    assert(arith::exact(op) == (x * f, s));
    assert(0 <= x * f <= 1 * s * s) by (nonlinear_arith)
        requires
            0 <= x <= s,
            0 <= f <= s,
    ;
    lemma_close(unit, op, 1);
    lemma_mul_unit(unit, t, factor);
    let product = unit(op);
    law_neutral_channel(unit, t, factor);
    let value = gamma::channel_value(unit, t, factor, zero, config);
    assert(value == gamma::channel_value(unit, t, factor, zero, config::neutral()));
    assert(unit(Arith::Add(product, zero)).units() == product.units());
    assert(in_unit(value) && value.units() == product.units());
    lemma_level(unit, value);
    law_truncated(unit(Arith::Mul(value, Double { bits: gamma::FULL_LEVEL_BITS })));
    let entry: int = gamma::ramp(unit, size, channel, config)[i] as int;
    let v: int = value.units();
    let n: int = size - 1;
    assert(level_of_value(entry, v));
    let ne: int = n * e;
    let d: int = v * n - i * f;
    let (a, b): (int, int) = (v * s - x * f, x * n - i * s);
    assert(d * s == n * a + f * b) by (nonlinear_arith)
        requires
            d == v * n - i * f,
            a == v * s - x * f,
            b == x * n - i * s,
    ;
    assert(-(ne * s) <= n * a <= ne * s) by (nonlinear_arith)
        requires
            -(1 * e * s) <= a <= 1 * e * s,
            ne == n * e,
            n > 0,
    ;
    assert(-(ne * s) <= f * b <= ne * s) by (nonlinear_arith)
        requires
            -ne <= b <= ne,
            0 <= f <= s,
    ;
    assert(-(2 * ne) <= d <= 2 * ne) by (nonlinear_arith)
        requires
            -(2 * (ne * s)) <= d * s <= 2 * (ne * s),
            s > 0,
    ;
    assert((entry * s) * n <= (65535 * v + 0x1_0000 * e) * n && (65535 * v) * n <= ((entry + 1) * s
        + 0x1_0000 * e) * n) by (nonlinear_arith)
        requires
            entry * s <= 65535 * v + 0x1_0000 * e,
            65535 * v <= (entry + 1) * s + 0x1_0000 * e,
            n > 0,
    ;
    let vn: int = v * n;
    assert((entry * s) * n == entry * (n * s) && (65535 * v + 0x1_0000 * e) * n == 65535 * vn
        + 0x1_0000 * ne && (65535 * v) * n == 65535 * vn && ((entry + 1) * s + 0x1_0000 * e) * n
        == (entry + 1) * (n * s) + 0x1_0000 * ne) by (nonlinear_arith)
        requires
            vn == v * n,
            ne == n * e,
    ;
    assert(ne > 0) by (nonlinear_arith)
        requires
            ne == n * e,
            n > 0,
            e > 0,
    ;
}

/// Without settings other than the temperature, every ramp climbs in even steps
/// from 0 to the factor that its colour has at that temperature. Where the
/// factor is 1, entry `i` is 65535 times `i` over the index of the last entry,
/// without the fraction, or one below that.
pub proof fn law_neutral_table(unit: spec_fn(Arith) -> Double, size: nat, temp: Double, i: int)
    requires
        arith::follows_ieee(unit),
        arith::rounds_closely(unit),
        arith::rounds_to_nearest(unit),
        arith::library_in_order(unit),
        0 <= i < size,
        2 <= size <= 0x1_0000_0000,
        !temp.nan(),
    ensures
        ({
            let table = gamma::table(unit, size, Config { temp, ..config::neutral() });
            let (r, g, b) = gamma::rgb_of(unit, temp);
            let (n, last) = (size as int, size - 1);
            let s = double::one().units();
            &&& even_step(table[i] as int, i, last, r.units())
            &&& even_step(table[n + i] as int, i, last, g.units())
            &&& even_step(table[2 * n + i] as int, i, last, b.units())
            &&& r.units() == s ==> table[i] * last <= 65535 * i <= (table[i] + 1) * last
            &&& g.units() == s ==> table[n + i] * last <= 65535 * i <= (table[n + i] + 1) * last
            &&& b.units() == s ==> table[2 * n + i] * last <= 65535 * i <= (table[2 * n + i] + 1)
                * last
        }),
{
    let config = Config { temp, ..config::neutral() };
    let table = gamma::table(unit, size, config);
    let (r, g, b) = gamma::rgb_of(unit, temp);
    let (n, last): (int, int) = (size as int, size - 1);
    law_factors_are_numbers(unit, temp);
    lemma_even_step(unit, size, Channel::Red, temp, i);
    lemma_even_step(unit, size, Channel::Green, temp, i);
    lemma_even_step(unit, size, Channel::Blue, temp, i);
    assert(table[i] == gamma::ramp(unit, size, Channel::Red, config)[i]);
    assert(table[n + i] == gamma::ramp(unit, size, Channel::Green, config)[i]);
    assert(table[2 * n + i] == gamma::ramp(unit, size, Channel::Blue, config)[i]);
    lemma_whole_step(table[i] as int, i, last, r.units());
    lemma_whole_step(table[n + i] as int, i, last, g.units());
    lemma_whole_step(table[2 * n + i] as int, i, last, b.units());
}

/// With a factor of 1 the rounding is too small to matter.
proof fn lemma_whole_step(entry: int, i: int, n: int, factor: int)
    requires
        even_step(entry, i, n, factor),
        1 <= n <= 0xFFFF_FFFF,
    ensures
        factor == double::one().units() ==> entry * n <= 65535 * i <= (entry + 1) * n,
{
    let (s, e): (int, int) = (double::one().units(), error());
    lemma_error();
    if factor == s {
        let (a, b): (int, int) = (entry * n, (entry + 1) * n);
        assert(entry * (n * s) == a * s && (entry + 1) * (n * s) == b * s) by (nonlinear_arith)
            requires
                a == entry * n,
                b == (entry + 1) * n,
        ;
        assert(0x4_0000 * (n * e) < s) by (nonlinear_arith)
            requires
                n <= 0xFFFF_FFFF,
                s == 0x10_0000_0000_0000 * e,
                e > 0,
        ;
        assert(a <= 65535 * i) by (nonlinear_arith)
            requires
                a * s < 65535 * (i * s) + s,
                s > 0,
        ;
        assert(65535 * i <= b) by (nonlinear_arith)
            requires
                65535 * (i * s) < b * s + s,
                s > 0,
        ;
    }
}

} // verus!
