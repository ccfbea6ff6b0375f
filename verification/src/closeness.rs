//! Laws that hold up to rounding.

use vstd::prelude::*;
use vstd::arithmetic::power2::*;
use crate::arith;
use crate::arith::Arith;
use crate::config;
use crate::config::Config;
use crate::double;
use crate::double::{in_unit, Double};
use crate::gamma;
use crate::laws::{
    law_unit_brightness, law_unit_gamma, law_unit_solarize, law_zero_contrast,
    lemma_posterized_nothing,
};
use crate::rounding::{lemma_between, lemma_infinity, lemma_power};

verus! {

/// 2 to the power -52, in units: what a result up to 1 can be off by.
pub open spec fn error() -> int {
    pow2(1022) as int
}

/// 1 in terms of that error.
pub proof fn lemma_error()
    ensures
        error() > 0x20_0000_0000_0000,
        double::one().units() == 0x10_0000_0000_0000 * error(),
        double::power(-52).units() == error(),
{
    lemma2_to64();
    lemma2_to64_rest();
    lemma_power(0);
    lemma_power(-52);
    assert(double::power(0) == double::one());
    lemma_pow2_adds(52, 1022);
    lemma_pow2_strictly_increases(53, 1022);
}

/// A result whose exact value is at most `limit` in size is finite, and off by
/// at most `limit` errors.
pub proof fn lemma_close(unit: spec_fn(Arith) -> Double, op: Arith, limit: int)
    requires
        arith::rounds_closely(unit),
        arith::basic(op),
        1 <= limit <= 0x10_0000,
        arith::exact(op).1 > 0,
        -(limit * double::one().units() * arith::exact(op).1) <= arith::exact(op).0 <= limit
            * double::one().units() * arith::exact(op).1,
    ensures
        unit(op).finite(),
        -(limit * error() * arith::exact(op).1) <= unit(op).units() * arith::exact(op).1
            - arith::exact(op).0 <= limit * error() * arith::exact(op).1,
        -(2 * limit * double::one().units()) <= unit(op).units() <= 2 * limit
            * double::one().units(),
{
    lemma_error();
    let (p, q) = arith::exact(op);
    let (s, e): (int, int) = (double::one().units(), error());
    let r: int = unit(op).units();
    let size: int = if p < 0 {
        -p
    } else {
        p
    };
    assert(size <= limit * s * q);
    assert(limit * s * q <= 0x10_0000_0000 * s * q) by (nonlinear_arith)
        requires
            1 <= limit <= 0x10_0000,
            s > 0,
            q > 0,
    ;
    reveal(arith::rounds_closely);
    let d: int = r * q - p;
    assert(!unit(op).nan());
    assert(0x20_0000_0000_0000 * d <= size + 0x20_0000_0000_0000 * q);
    assert(-(0x20_0000_0000_0000 * d) <= size + 0x20_0000_0000_0000 * q);
    assert(-(limit * e * q) <= d <= limit * e * q) by (nonlinear_arith)
        requires
            0x20_0000_0000_0000 * d <= size + 0x20_0000_0000_0000 * q,
            -(0x20_0000_0000_0000 * d) <= size + 0x20_0000_0000_0000 * q,
            size <= limit * s * q,
            s == 0x10_0000_0000_0000 * e,
            e > 0x20_0000_0000_0000,
            limit >= 1,
            q > 0,
    ;
    assert(-(2 * limit * s) <= r <= 2 * limit * s) by (nonlinear_arith)
        requires
            r * q - p == d,
            -(limit * e * q) <= d <= limit * e * q,
            -(limit * s * q) <= p <= limit * s * q,
            s == 0x10_0000_0000_0000 * e,
            e > 0,
            limit >= 1,
            q > 0,
    ;
    lemma_small(unit(op), limit);
}

/// A number of moderate size is finite.
proof fn lemma_small(d: Double, limit: int)
    requires
        !d.nan(),
        1 <= limit <= 0x10_0000,
        -(2 * limit * double::one().units()) <= d.units() <= 2 * limit * double::one().units(),
    ensures
        d.finite(),
{
    let s: int = double::one().units();
    double::lemma_zero_one();
    lemma_power(0);
    lemma_power(30);
    lemma2_to64();
    lemma_pow2_adds(1074, 30);
    assert(double::power(0) == double::one());
    lemma_infinity(d);
    lemma_infinity(double::power(30));
    assert(2 * limit * s < 0x4000_0000 * s) by (nonlinear_arith)
        requires
            1 <= limit <= 0x10_0000,
            s > 0,
    ;
}

/// A result that is not negative and far from vanishing is off by a part in 2
/// to the power 52 at most.
pub proof fn lemma_relative(unit: spec_fn(Arith) -> Double, op: Arith)
    requires
        arith::rounds_closely(unit),
        arith::basic(op),
        arith::exact(op).1 > 0,
        0x20_0000_0000_0000 * arith::exact(op).1 <= arith::exact(op).0,
        arith::exact(op).0 <= 0x10_0000_0000 * double::one().units() * arith::exact(op).1,
    ensures
        unit(op).finite(),
        ({
            let (p, q) = arith::exact(op);
            -p <= 0x10_0000_0000_0000 * (unit(op).units() * q - p) <= p
        }),
{
    let (p, q) = arith::exact(op);
    let (s, r): (int, int) = (double::one().units(), unit(op).units());
    lemma_error();
    reveal(arith::rounds_closely);
    assert(!unit(op).nan());
    assert(-(0x40_0000_0000 * s) <= r <= 0x40_0000_0000 * s) by (nonlinear_arith)
        requires
            0x20_0000_0000_0000 * (r * q - p) <= p + 0x20_0000_0000_0000 * q,
            0x20_0000_0000_0000 * (p - r * q) <= p + 0x20_0000_0000_0000 * q,
            0x20_0000_0000_0000 * q <= p,
            p <= 0x10_0000_0000 * s * q,
            q > 0,
            s > 0,
    ;
    lemma_moderate(unit(op));
}

/// The exact part of the law on gain and offset, over whole numbers.
proof fn lemma_affine(
    t: int,
    b: int,
    g: int,
    d: int,
    range: int,
    p: int,
    o: int,
    sum: int,
    quotient: int,
    s: int,
    e: int,
)
    requires
        s > 0,
        e > 0,
        -s <= t - b <= s,
        0 < range,
        s <= 128 * range,
        -(128 * e * range) <= g * range - s * s <= 128 * e * range,
        -(256 * e * s) <= p * s - t * g <= 256 * e * s,
        -(256 * e * s) <= o * s - (-b) * g <= 256 * e * s,
        -(1024 * e) <= sum - (p + o) <= 1024 * e,
        -e <= d - (t - b) <= e,
        -(256 * e * range) <= quotient * range - d * s <= 256 * e * range,
    ensures
        -(2048 * e) <= sum - quotient <= 2048 * e,
{
    let k: int = t - b;
    // What the sum lies off the exact transform.
    let x: int = sum * s - k * g;
    assert(-(1536 * e * s) <= x <= 1536 * e * s) by (nonlinear_arith)
        requires
            x == sum * s - k * g,
            k == t - b,
            s > 0,
            -(256 * e * s) <= p * s - t * g <= 256 * e * s,
            -(256 * e * s) <= o * s - (-b) * g <= 256 * e * s,
            -(1024 * e) <= sum - (p + o) <= 1024 * e,
    ;
    let y: int = g * range - s * s;
    let z: int = k - d;
    let w: int = d * s - quotient * range;
    let (gr, ss): (int, int) = (g * range, s * s);
    assert(range * x == (s * range) * sum - k * gr) by (nonlinear_arith)
        requires
            x == sum * s - k * g,
            gr == g * range,
    ;
    assert(k * y == k * gr - k * ss) by (nonlinear_arith)
        requires
            y == gr - ss,
    ;
    assert(ss * z == k * ss - ss * d) by (nonlinear_arith)
        requires
            z == k - d,
    ;
    assert(s * w == ss * d - (s * range) * quotient) by (nonlinear_arith)
        requires
            w == d * s - quotient * range,
            ss == s * s,
    ;
    assert((s * range) * (sum - quotient) == (s * range) * sum - (s * range) * quotient)
        by (nonlinear_arith);
    let area: int = s * range;
    let u: int = e * area;
    assert(-(1536 * u) <= range * x <= 1536 * u) by (nonlinear_arith)
        requires
            -(1536 * e * s) <= x <= 1536 * e * s,
            u == e * area,
            area == s * range,
            range > 0,
    ;
    assert(-(128 * u) <= k * y <= 128 * u) by (nonlinear_arith)
        requires
            -(128 * e * range) <= y <= 128 * e * range,
            u == e * area,
            area == s * range,
            -s <= k <= s,
            s > 0,
            e > 0,
            range > 0,
    ;
    assert(-(128 * u) <= ss * z <= 128 * u) by (nonlinear_arith)
        requires
            -e <= z <= e,
            ss == s * s,
            u == e * area,
            area == s * range,
            s <= 128 * range,
            s > 0,
            e > 0,
            range > 0,
    ;
    assert(-(256 * u) <= s * w <= 256 * u) by (nonlinear_arith)
        requires
            -(256 * e * range) <= w <= 256 * e * range,
            u == e * area,
            area == s * range,
            s > 0,
    ;
    let diff: int = sum - quotient;
    assert(-(2048 * e) <= diff <= 2048 * e) by (nonlinear_arith)
        requires
            -(2048 * u) <= area * diff <= 2048 * u,
            u == e * area,
            area == s * range,
            s > 0,
            range > 0,
    ;
}

/// Settings in which only the levels differ from the default ones give what
/// gain and offset make of the levelled input.
proof fn lemma_only_levels(
    unit: spec_fn(Arith) -> Double,
    t: Double,
    gain: Double,
    offset: Double,
    black: Double,
    white: Double,
)
    requires
        arith::follows_ieee(unit),
        !unit(
            Arith::Add(
                unit(Arith::Mul(gamma::leveled(unit, t, black, white), gain)),
                offset,
            ),
        ).nan(),
    ensures
        gamma::channel_value(
            unit,
            t,
            gain,
            offset,
            Config { level_black: black, level_white: white, ..config::neutral() },
        ) == gamma::amplified(unit, gamma::leveled(unit, t, black, white), gain, offset),
{
    let v = gamma::leveled(unit, t, black, white);
    law_unit_gamma(unit, v);
    double::lemma_zero_one();
    let a = gamma::amplified(unit, v, gain, offset);
    assert(in_unit(a));
    law_zero_contrast(unit, a, double::zero());
    law_unit_brightness(unit, a);
    law_unit_solarize(unit, a);
}

/// Gain and offset double as a black and white point: with a gain of
/// `1 / (white - black)` and an offset of `-black * gain` a channel gives what
/// the input levels give, up to 2 to the power -41, as long as the points lie
/// at least a hundredth apart.
pub proof fn law_gain_and_offset_as_levels(
    unit: spec_fn(Arith) -> Double,
    t: Double,
    black: Double,
    white: Double,
)
    requires
        arith::follows_ieee(unit),
        arith::rounds_closely(unit),
        in_unit(t),
        in_unit(black),
        in_unit(white),
        double::one().units() <= 100 * (white.units() - black.units()),
    ensures
        ({
            let gain = unit(Arith::Div(double::one(), unit(Arith::Sub(white, black))));
            let offset = unit(Arith::Mul(black.negated(), gain));
            let x = gamma::channel_value(unit, t, gain, offset, config::neutral());
            let y = gamma::channel_value(
                unit,
                t,
                double::one(),
                double::zero(),
                Config { level_black: black, level_white: white, ..config::neutral() },
            );
            &&& in_unit(x)
            &&& in_unit(y)
            &&& -(2048 * error()) <= x.units() - y.units() <= 2048 * error()
        }),
{
    let (zero, one) = (double::zero(), double::one());
    let (s, e): (int, int) = (one.units(), error());
    double::lemma_zero_one();
    lemma_error();
    lemma_between(zero, t, one);
    lemma_between(zero, black, one);
    lemma_between(zero, white, one);
    lemma_infinity(black);
    let (b, w, m): (int, int, int) = (black.units(), white.units(), t.units());
    // The range and the gain.
    let range_op = Arith::Sub(white, black);
    assert(arith::exact(range_op) == (w - b, 1int));
    lemma_close(unit, range_op, 1);
    let range = unit(range_op);
    let d: int = range.units();
    assert(s <= 128 * d);
    let gain_op = Arith::Div(one, range);
    assert(arith::exact(gain_op) == (s * s, d));
    assert(0 <= s * s <= 128 * s * d) by (nonlinear_arith)
        requires
            s <= 128 * d,
            s > 0,
    ;
    lemma_close(unit, gain_op, 128);
    let gain = unit(gain_op);
    let g: int = gain.units();
    // The product, the offset and their sum.
    let product_op = Arith::Mul(t, gain);
    assert(arith::exact(product_op) == (m * g, s));
    assert(-(256 * s * s) <= m * g <= 256 * s * s) by (nonlinear_arith)
        requires
            0 <= m <= s,
            -(256 * s) <= g <= 256 * s,
            s > 0,
    ;
    lemma_close(unit, product_op, 256);
    let offset_op = Arith::Mul(black.negated(), gain);
    assert(arith::exact(offset_op) == ((-b) * g, s));
    assert(-(256 * s * s) <= (-b) * g <= 256 * s * s) by (nonlinear_arith)
        requires
            0 <= b <= s,
            -(256 * s) <= g <= 256 * s,
            s > 0,
    ;
    lemma_close(unit, offset_op, 256);
    let (product, offset) = (unit(product_op), unit(offset_op));
    let sum_op = Arith::Add(product, offset);
    assert(arith::exact(sum_op) == (product.units() + offset.units(), 1int));
    lemma_close(unit, sum_op, 1024);
    let sum = unit(sum_op);
    // The levels.
    let distance_op = Arith::Sub(t, black);
    assert(arith::exact(distance_op) == (m - b, 1int));
    lemma_close(unit, distance_op, 1);
    let distance = unit(distance_op);
    let c: int = distance.units();
    let quotient_op = Arith::Div(distance, range);
    assert(arith::exact(quotient_op) == (c * s, d));
    assert(-(256 * s * d) <= c * s <= 256 * s * d) by (nonlinear_arith)
        requires
            -(2 * s) <= c <= 2 * s,
            s <= 128 * d,
            s > 0,
    ;
    lemma_close(unit, quotient_op, 256);
    let quotient = unit(quotient_op);
    lemma_affine(
        m,
        b,
        g,
        c,
        d,
        product.units(),
        offset.units(),
        sum.units(),
        quotient.units(),
        s,
        e,
    );
    // The channels.
    let epsilon = Double { bits: gamma::EPSILON_BITS };
    assert(epsilon == double::power(-52));
    assert(!gamma::negligible(range)) by {
        double::lemma_key_order(range, zero);
        assert(range.absolute() == range);
    }
    let leveled = gamma::leveled(unit, t, black, white);
    assert(leveled == quotient.clamped_to_unit());
    assert(in_unit(leveled));
    double::lemma_key_order(one, epsilon);
    assert(unit(Arith::Sub(one, zero)) == one);
    assert(unit(Arith::Sub(t, zero)) == t);
    assert(unit(Arith::Div(t, one)) == t);
    assert(gamma::leveled(unit, t, zero, one) == t);
    lemma_only_levels(unit, t, gain, offset, zero, one);
    assert(unit(Arith::Mul(leveled, one)) == leveled);
    assert(unit(Arith::Add(leveled, zero)).units() == leveled.units());
    lemma_only_levels(unit, t, one, zero, black, white);
}

/// How far two numbers lie apart.
pub open spec fn distance(a: Double, b: Double) -> int {
    if a.units() <= b.units() {
        b.units() - a.units()
    } else {
        a.units() - b.units()
    }
}

/// A share of a whole number of steps, up to rounding.
proof fn lemma_level(unit: spec_fn(Arith) -> Double, part: Double, last: u32)
    requires
        arith::follows_ieee(unit),
        arith::rounds_closely(unit),
        arith::rounds_to_nearest(unit),
        last > 0,
        part.finite(),
        0 <= part.units() <= 2 * last * double::one().units(),
    ensures
        ({
            let level = unit(Arith::Div(part, unit(Arith::FromInt(last as u64))));
            !level.nan() && -(2 * last * error()) <= level.units() * last - part.units() <= 2 * last
                * error()
        }),
{
    let (s, e): (int, int) = (double::one().units(), error());
    let n: int = last as int;
    let steps = unit(Arith::FromInt(last as u64));
    lemma_error();
    let op = Arith::Div(part, steps);
    let r: int = part.units();
    assert(n * s > 0 && 0 <= r * s <= 0x10_0000_0000 * s * (n * s)) by (nonlinear_arith)
        requires
            0 <= r <= 2 * n * s,
            0 < n,
            s > 0,
    ;
    assert(arith::exact(op) == (r * s, n * s));
    reveal(arith::rounds_closely);
    assert(arith::basic(op));
    let v: int = unit(op).units();
    assert(-(2 * n * e) <= v * n - r <= 2 * n * e) by (nonlinear_arith)
        requires
            0x20_0000_0000_0000 * (v * (n * s) - r * s) <= r * s + 0x20_0000_0000_0000 * (n * s),
            0x20_0000_0000_0000 * (r * s - v * (n * s)) <= r * s + 0x20_0000_0000_0000 * (n * s),
            0 <= r <= 2 * n * s,
            s == 0x10_0000_0000_0000 * e,
            e > 0x20_0000_0000_0000,
            n > 0,
    ;
}

/// Posterizing gives the nearest level, up to rounding: it lies at most half a
/// step away, and no other level lies nearer.
pub proof fn law_posterize_nearest(unit: spec_fn(Arith) -> Double, t: Double, levels: u32)
    requires
        arith::follows_ieee(unit),
        arith::rounds_closely(unit),
        arith::rounds_to_nearest(unit),
        levels >= 2,
        in_unit(t),
    ensures
        ({
            let v = gamma::posterized(unit, t, levels);
            let steps = unit(Arith::FromInt((levels - 1) as u64));
            &&& 2 * (levels - 1) * distance(v, t) <= double::one().units() + 8 * (levels - 1)
                * error()
            &&& forall|j: u32|
                j < levels ==> distance(v, t) <= distance(
                    unit(Arith::Div(#[trigger] unit(Arith::FromInt(j as u64)), steps)),
                    t,
                ) + 8 * error()
        }),
{
    let last: u32 = (levels - 1) as u32;
    let (s, e): (int, int) = (double::one().units(), error());
    let n: int = last as int;
    let steps = unit(Arith::FromInt(last as u64));
    let v = gamma::posterized(unit, t, levels);
    lemma_error();
    double::lemma_zero_one();
    lemma_between(double::zero(), t, double::one());
    assert(0 < n * e) by (nonlinear_arith)
        requires
            n > 0,
            e > 0,
    ;
    if t.negative() {
        lemma_posterized_nothing(unit, t, levels);
        assert(distance(v, t) == 0);
        assert(2 * n * 0 == 0) by (nonlinear_arith);
    } else {
        let op = Arith::Mul(t, steps);
        let m: int = t.units();
        assert(0 <= m * (n * s) <= 0x10_0000_0000 * s * s) by (nonlinear_arith)
            requires
                0 <= m <= s,
                0 <= n <= 0xFFFF_FFFF,
                s > 0,
        ;
        assert(arith::exact(op) == (m * (n * s), s));
        assert(-(n * e) <= unit(op).units() - m * n <= n * e) by {
            reveal(arith::rounds_closely);
            assert(arith::basic(op));
            let p: int = unit(op).units();
            assert(-(n * e) <= p - m * n <= n * e) by (nonlinear_arith)
                requires
                    0x20_0000_0000_0000 * (p * s - m * (n * s)) <= m * (n * s)
                        + 0x20_0000_0000_0000 * s,
                    0x20_0000_0000_0000 * (m * (n * s) - p * s) <= m * (n * s)
                        + 0x20_0000_0000_0000 * s,
                    0 <= m <= s,
                    s == 0x10_0000_0000_0000 * e,
                    e > 0x20_0000_0000_0000,
                    n > 0,
            ;
        }
        let product = unit(op);
        let p: int = product.units();
        assert(0 <= m * n <= n * s) by (nonlinear_arith)
            requires
                0 <= m <= s,
                n > 0,
        ;
        assert(n * e <= n * s && n * s <= 0xFFFF_FFFF * s && s <= n * s) by (nonlinear_arith)
            requires
                0 < n <= 0xFFFF_FFFF,
                0 < e <= s,
        ;
        lemma_moderate(product);
        let rounded = unit(Arith::Round(product));
        let k = choose|k: u32| k <= last && #[trigger] unit(Arith::FromInt(k as u64)) == rounded;
        let (r, i): (int, int) = (rounded.units(), k as int);
        assert(r == i * s);
        assert(0 <= i * s <= n * s && 2 * n * s == 2 * (n * s)) by (nonlinear_arith)
            requires
                0 <= i <= n,
                s > 0,
        ;
        lemma_level(unit, rounded, last);
        let w: int = v.units();
        assert(v == unit(Arith::Div(rounded, steps)));
        let off: int = (w - m) * n;
        assert(off == w * n - m * n) by (nonlinear_arith)
            requires
                off == (w - m) * n,
        ;
        assert(2 * n * e == 2 * (n * e)) by (nonlinear_arith);
        let d: int = distance(v, t);
        assert(2 * (n * d) <= s + 6 * (n * e)) by (nonlinear_arith)
            requires
                off == (w - m) * n,
                -(s + 6 * (n * e)) <= 2 * off <= s + 6 * (n * e),
                d == w - m || d == m - w,
        ;
        assert(2 * n * d == 2 * (n * d) && 8 * n * e == 8 * (n * e)) by (nonlinear_arith);
        assert forall|j: u32| j < levels implies distance(v, t) <= distance(
            unit(Arith::Div(#[trigger] unit(Arith::FromInt(j as u64)), steps)),
            t,
        ) + 8 * error() by {
            let part = unit(Arith::FromInt(j as u64));
            let other = unit(Arith::Div(part, steps));
            if j != k {
                let h: int = j as int;
                assert(part.units() == h * s);
                assert(0 <= h * s <= n * s) by (nonlinear_arith)
                    requires
                        0 <= h <= n,
                        s > 0,
                ;
                lemma_infinity(part);
                lemma_part(unit, j);
                lemma_level(unit, part, last);
                let x: int = other.units();
                let away: int = (x - m) * n;
                assert(away == x * n - m * n) by (nonlinear_arith)
                    requires
                        away == (x - m) * n,
                ;
                assert(h * s >= i * s + s || h * s <= i * s - s) by (nonlinear_arith)
                    requires
                        h >= i + 1 || h <= i - 1,
                        s > 0,
                ;
                assert(2 * away >= s - 6 * (n * e) || 2 * away <= -(s - 6 * (n * e)));
                let f: int = distance(other, t);
                assert(2 * (n * f) >= s - 6 * (n * e)) by (nonlinear_arith)
                    requires
                        away == (x - m) * n,
                        2 * away >= s - 6 * (n * e) || 2 * away <= -(s - 6 * (n * e)),
                        f == x - m || f == m - x,
                        f >= 0,
                        n > 0,
                ;
                assert(d <= f + 8 * e) by (nonlinear_arith)
                    requires
                        2 * (n * d) <= s + 6 * (n * e),
                        2 * (n * f) >= s - 6 * (n * e),
                        n > 0,
                        e > 0,
                ;
            }
        }
    }
}

/// A whole number is finite.
proof fn lemma_part(unit: spec_fn(Arith) -> Double, n: u32)
    requires
        arith::exact_where_ieee_is(unit),
    ensures
        unit(Arith::FromInt(n as u64)).finite(),
{
    double::lemma_zero_one();
    if n == 0 {
        assert(unit(Arith::FromInt(0)) == double::zero());
    } else {
        assert(n as u64 > 0);
    }
}

/// A number within what the largest integers span is finite.
proof fn lemma_moderate(d: Double)
    requires
        !d.nan(),
        -(0x40_0000_0000 * double::one().units()) <= d.units() <= 0x40_0000_0000
            * double::one().units(),
    ensures
        d.finite(),
{
    double::lemma_zero_one();
    lemma_power(0);
    lemma_power(40);
    lemma2_to64_rest();
    lemma_pow2_adds(1074, 40);
    assert(double::power(0) == double::one());
    lemma_infinity(d);
    lemma_infinity(double::power(40));
}

} // verus!
