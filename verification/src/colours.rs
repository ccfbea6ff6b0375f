//! What the colour factors of a temperature are.

use vstd::prelude::*;
use vstd::arithmetic::power2::*;
use crate::arith;
use crate::arith::Arith;
use crate::closeness::{error, lemma_close, lemma_error};
use crate::double;
use crate::double::Double;
use crate::gamma;
use crate::rounding::{
    decimal, lemma_above_white_point, lemma_at_least, lemma_at_most, lemma_between,
    lemma_constants, lemma_curve_constants, lemma_infinity, lemma_near_thresholds, lemma_power,
    lemma_whole_bounds,
};

verus! {

/// A temperature within the curve, in hundreds of kelvin: up to rounding it is
/// what it should be, and it lies on the same side of 1900 and of 6600 kelvin.
proof fn lemma_hundreds(unit: spec_fn(Arith) -> Double, kelvin: Double)
    requires
        arith::follows_ieee(unit),
        arith::rounds_closely(unit),
        !kelvin.nan(),
        1000 * double::one().units() <= kelvin.units() <= 40000 * double::one().units(),
    ensures
        ({
            let t = unit(Arith::Div(kelvin, Double { bits: gamma::HUNDRED_BITS }));
            let (s, e) = (double::one().units(), error());
            let k = kelvin.units();
            &&& t.finite()
            &&& kelvin.clamped(
                Double { bits: gamma::COLDEST_BITS },
                Double { bits: gamma::HOTTEST_BITS },
            ) == kelvin
            &&& -(51200 * e) <= 100 * t.units() - k <= 51200 * e
            &&& 10 * s <= t.units() <= 401 * s
            &&& k <= 6600 * s <==> t.units() <= 66 * s
            &&& k >= 6600 * s <==> t.units() >= 66 * s
            &&& k <= 1900 * s <==> t.units() <= 19 * s
        }),
{
    let hundred = Double { bits: gamma::HUNDRED_BITS };
    let (s, e): (int, int) = (double::one().units(), error());
    let k: int = kelvin.units();
    lemma_constants();
    lemma_error();
    lemma_above_white_point();
    lemma_near_thresholds();
    double::lemma_zero_one();
    lemma_between(
        Double { bits: gamma::COLDEST_BITS },
        kelvin,
        Double { bits: gamma::HOTTEST_BITS },
    );
    lemma_infinity(hundred);
    let op = Arith::Div(kelvin, hundred);
    assert(arith::exact(op) == (k * s, 100 * s));
    assert(0 <= k * s <= 512 * s * (100 * s) && 512 * s * (100 * s) <= 0x10_0000_0000 * s * (100
        * s)) by (nonlinear_arith)
        requires
            0 <= k <= 40000 * s,
            s > 0,
    ;
    lemma_close(unit, op, 512);
    let t: int = unit(op).units();
    assert(-(51200 * e) <= 100 * t - k <= 51200 * e) by (nonlinear_arith)
        requires
            -(512 * e * (100 * s)) <= t * (100 * s) - k * s <= 512 * e * (100 * s),
            s > 0,
    ;
    assert(0x20_0000_0000_0000 * (k - 100 * t) <= k + 0x20_0000_0000_0000 * 100
        && 0x20_0000_0000_0000 * (100 * t - k) <= k + 0x20_0000_0000_0000 * 100) by {
        reveal(arith::rounds_closely);
        assert(arith::basic(op));
        assert(0x20_0000_0000_0000 * (k - 100 * t) <= k + 0x20_0000_0000_0000 * 100
            && 0x20_0000_0000_0000 * (100 * t - k) <= k + 0x20_0000_0000_0000 * 100)
            by (nonlinear_arith)
            requires
                0x20_0000_0000_0000 * (k * s - t * (100 * s)) <= k * s + 0x20_0000_0000_0000 * (100
                    * s),
                0x20_0000_0000_0000 * (t * (100 * s) - k * s) <= k * s + 0x20_0000_0000_0000 * (100
                    * s),
                s > 0,
        ;
    }
    // Exact values stay exact, and the numbers next to them on their side.
    let (ten, nineteen, white) = (
        Double { bits: gamma::TEN_BITS },
        Double { bits: gamma::NO_BLUE_BITS },
        Double { bits: gamma::WHITE_POINT_BITS },
    );
    lemma_hundred_bounds(unit, kelvin, ten, 10);
    lemma_hundred_bounds(unit, kelvin, nineteen, 19);
    lemma_hundred_bounds(unit, kelvin, white, 66);
    let (exact, below, above) = (
        Double { bits: 0x40B9_C800_0000_0000 },
        Double { bits: 0x40B9_C7FF_FFFF_FFFF },
        Double { bits: 0x40B9_C800_0000_0001 },
    );
    double::lemma_key_order(kelvin, exact);
    double::lemma_key_order(exact, kelvin);
    double::lemma_key_order(below, kelvin);
    double::lemma_key_order(kelvin, above);
    let (none, some) = (
        Double { bits: 0x409D_B000_0000_0000 },
        Double { bits: 0x409D_B000_0000_0001 },
    );
    double::lemma_key_order(none, kelvin);
    double::lemma_key_order(kelvin, some);
    assert(k > 6600 * s ==> k >= above.units());
    assert(k < 6600 * s ==> k <= below.units());
    assert(k > 1900 * s ==> k >= some.units());
    assert(k > 6600 * s ==> t > 66 * s);
    assert(k < 6600 * s ==> t < 66 * s);
    assert(k > 1900 * s ==> t > 19 * s);
}

/// A hundredth lies on the same side of a whole number as the temperature does
/// of its hundredfold.
proof fn lemma_hundred_bounds(unit: spec_fn(Arith) -> Double, kelvin: Double, c: Double, n: int)
    requires
        arith::follows_ieee(unit),
        kelvin.finite(),
        c.finite(),
        c.units() == n * double::one().units(),
    ensures
        ({
            let t = unit(Arith::Div(kelvin, Double { bits: gamma::HUNDRED_BITS }));
            let (s, k) = (double::one().units(), kelvin.units());
            &&& k <= 100 * (n * s) ==> t.at_most(c)
            &&& k >= 100 * (n * s) ==> c.at_most(t)
        }),
{
    let hundred = Double { bits: gamma::HUNDRED_BITS };
    let (s, k): (int, int) = (double::one().units(), kelvin.units());
    lemma_constants();
    double::lemma_zero_one();
    lemma_infinity(hundred);
    let op = Arith::Div(kelvin, hundred);
    let m: int = n * s;
    assert(arith::exact(op) == (k * s, 100 * s));
    assert(k <= 100 * m ==> k * s <= m * (100 * s)) by (nonlinear_arith)
        requires
            s > 0,
    ;
    assert(k >= 100 * m ==> k * s >= m * (100 * s)) by (nonlinear_arith)
        requires
            s > 0,
    ;
    if k <= 100 * m {
        lemma_at_most(unit, op, c);
    }
    if k >= 100 * m {
        lemma_at_least(unit, op, c);
    }
}

/// Whether a factor is `(scale * log - shift) / 255`, restricted to `[0, 1]`, up
/// to 100 in 2 to the power 52. Scale and shift are given in parts of 10 to the
/// power 10.
pub open spec fn on_log_line(factor: int, log: int, scale: int, shift: int) -> bool {
    let (s, e) = (double::one().units(), error());
    let line = scale * log - shift * s;
    let full = 2_550_000_000_000 * s;
    let value = if line < 0 {
        0
    } else if line > full {
        full
    } else {
        line
    };
    -(255_000_000_000_000 * e) <= 2_550_000_000_000 * factor - value <= 255_000_000_000_000 * e
}

/// The logarithmic curve is such a line.
proof fn lemma_log_line(
    unit: spec_fn(Arith) -> Double,
    x: Double,
    scale: u64,
    shift: u64,
    k: int,
    c: int,
)
    requires
        arith::follows_ieee(unit),
        arith::rounds_closely(unit),
        arith::ln_in_shape(unit),
        x.finite(),
        double::one().units() <= x.units() <= 1024 * double::one().units(),
        decimal(Double { bits: scale }, k),
        decimal(Double { bits: shift }, c),
        0 <= k <= 1_400_000_000_000,
        0 <= c <= 3_100_000_000_000,
    ensures
        on_log_line(
            gamma::log_curve(unit, x, scale, shift).units(),
            unit(Arith::Ln(x)).units(),
            k,
            c,
        ),
{
    let (s, e): (int, int) = (double::one().units(), error());
    let (a, b) = (Double { bits: scale }, Double { bits: shift });
    let log = unit(Arith::Ln(x));
    let (m, n, l): (int, int, int) = (a.units(), b.units(), log.units());
    lemma_error();
    lemma_constants();
    double::lemma_zero_one();
    lemma_log_finite(log);
    let (ks, cs): (int, int) = (k * s, c * s);
    assert(0 <= ks <= 1_400_000_000_000 * s && 0 <= cs <= 3_100_000_000_000 * s)
        by (nonlinear_arith)
        requires
            ks == k * s,
            cs == c * s,
            0 <= k <= 1_400_000_000_000,
            0 <= c <= 3_100_000_000_000,
            s > 0,
    ;
    assert(m <= 141 * s && m >= -s && n <= 311 * s && n >= -s);
    let scaled_op = Arith::Mul(a, log);
    assert(arith::exact(scaled_op) == (m * l, s));
    assert(-(2048 * s * s) <= m * l <= 2048 * s * s) by (nonlinear_arith)
        requires
            -s <= m <= 141 * s,
            -(8 * s) <= l <= 8 * s,
            s > 0,
    ;
    lemma_close(unit, scaled_op, 2048);
    let scaled = unit(scaled_op);
    let p: int = scaled.units();
    assert(-(2048 * (e * s)) <= p * s - m * l <= 2048 * (e * s)) by (nonlinear_arith)
        requires
            -(2048 * e * s) <= p * s - m * l <= 2048 * e * s,
    ;
    assert(-(1200 * s) <= p <= 1200 * s) by (nonlinear_arith)
        requires
            -(2048 * (e * s)) <= p * s - m * l <= 2048 * (e * s),
            -s <= m <= 141 * s,
            -(8 * s) <= l <= 8 * s,
            2048 * e <= s,
            s > 0,
    ;
    let shifted_op = Arith::Sub(scaled, b);
    lemma_close(unit, shifted_op, 2048);
    let shifted = unit(shifted_op);
    let q: int = shifted.units();
    let byte = Double { bits: gamma::BYTE_BITS };
    lemma_infinity(byte);
    let op = Arith::Div(shifted, byte);
    assert(arith::exact(op) == (q * s, 255 * s));
    assert(-(8 * s * (255 * s)) <= q * s <= 8 * s * (255 * s)) by (nonlinear_arith)
        requires
            -(2040 * s) <= q <= 2040 * s,
            s > 0,
    ;
    lemma_close(unit, op, 8);
    let d: int = unit(op).units();
    assert(-(2040 * e) <= 255 * d - q <= 2040 * e) by (nonlinear_arith)
        requires
            -(8 * e * (255 * s)) <= d * (255 * s) - q * s <= 8 * e * (255 * s),
            s > 0,
    ;
    // In parts of 10 to the power 10.
    let f: int = 10_000_000_000;
    let line: int = k * l - c * s;
    let r: int = f * m - k * s;
    let rl: int = r * l;
    assert(f * (m * l) == k * (s * l) + rl) by (nonlinear_arith)
        requires
            r == f * m - k * s,
            rl == r * l,
    ;
    assert(-(8 * (s * s)) <= 1000 * rl <= 8 * (s * s)) by (nonlinear_arith)
        requires
            -s <= 1000 * r <= s,
            -(8 * s) <= l <= 8 * s,
            rl == r * l,
    ;
    let fp: int = f * p;
    let kl: int = k * l;
    assert(k * (s * l) == kl * s && f * (p * s) == fp * s) by (nonlinear_arith)
        requires
            kl == k * l,
            fp == f * p,
    ;
    assert(-(f * (204800 * e)) - s <= 100 * (fp - kl) && 100 * (fp - kl) <= f * (204800 * e) + s)
        by (nonlinear_arith)
        requires
            -(2048 * (e * s)) <= p * s - m * l <= 2048 * (e * s),
            f * (m * l) == kl * s + rl,
            f * (p * s) == fp * s,
            -(8 * (s * s)) <= 1000 * rl <= 8 * (s * s),
            f > 0,
            s > 0,
    ;
    let z: int = 2_550_000_000_000 * d;
    assert(-(255_000_000_000_000 * e) <= z - line <= 255_000_000_000_000 * e);
    assert(!unit(op).nan());
}

/// A logarithm is finite.
proof fn lemma_log_finite(d: Double)
    requires
        !d.nan(),
        -(8 * double::one().units()) <= d.units() <= 8 * double::one().units(),
    ensures
        d.finite(),
{
    lemma_power(0);
    lemma_power(4);
    lemma2_to64();
    lemma_pow2_adds(1074, 4);
    assert(double::power(0) == double::one());
    lemma_infinity(d);
    lemma_infinity(double::power(4));
}

/// What light from 1000 to 6600 kelvin is made of, where `T` is the temperature
/// in hundreds of kelvin: all the red, green by `99.4708025861 ln T -
/// 161.1195636025` in 255 parts, and blue by `138.5177312231 ln (T - 10) -
/// 305.0447927307` in 255 parts, none up to 1900 and all of it at 6600 kelvin.
pub proof fn law_warm_light(unit: spec_fn(Arith) -> Double, kelvin: Double)
    requires
        arith::follows_ieee(unit),
        arith::rounds_closely(unit),
        arith::ln_in_shape(unit),
        !kelvin.nan(),
        1000 * double::one().units() <= kelvin.units() <= 6600 * double::one().units(),
    ensures
        ({
            let (r, g, b) = gamma::rgb_of(unit, kelvin);
            let (s, e) = (double::one().units(), error());
            let k = kelvin.units();
            &&& r.units() == s && !r.nan()
            &&& exists|t: Double|
                {
                    &&& t.finite()
                    &&& -(51200 * e) <= 100 * t.units() - k <= 51200 * e
                    &&& on_log_line(
                        g.units(),
                        (#[trigger] unit(Arith::Ln(t))).units(),
                        994_708_025_861,
                        1_611_195_636_025,
                    )
                }
            &&& k <= 1900 * s ==> b.units() == 0 && !b.nan()
            &&& k == 6600 * s ==> b.units() == s && !b.nan()
            &&& 1900 * s < k < 6600 * s ==> exists|x: Double|
                {
                    &&& x.finite()
                    &&& -(102400 * e) <= 100 * (x.units() + 10 * s) - k <= 102400 * e
                    &&& on_log_line(
                        b.units(),
                        (#[trigger] unit(Arith::Ln(x))).units(),
                        1_385_177_312_231,
                        3_050_447_927_307,
                    )
                }
        }),
{
    let (s, e): (int, int) = (double::one().units(), error());
    let k: int = kelvin.units();
    lemma_error();
    lemma_constants();
    lemma_curve_constants();
    double::lemma_zero_one();
    lemma_hundreds(unit, kelvin);
    let t = unit(Arith::Div(kelvin, Double { bits: gamma::HUNDRED_BITS }));
    lemma_log_line(
        unit,
        t,
        gamma::GREEN_LOG_SCALE_BITS,
        gamma::GREEN_LOG_SHIFT_BITS,
        994_708_025_861,
        1_611_195_636_025,
    );
    assert(on_log_line(
        gamma::rgb_of(unit, kelvin).1.units(),
        unit(Arith::Ln(t)).units(),
        994_708_025_861,
        1_611_195_636_025,
    ));
    if 1900 * s < k < 6600 * s {
        let ten = Double { bits: gamma::TEN_BITS };
        lemma_infinity(ten);
        lemma_close(unit, Arith::Sub(t, ten), 512);
        let x = unit(Arith::Sub(t, ten));
        lemma_log_line(
            unit,
            x,
            gamma::BLUE_LOG_SCALE_BITS,
            gamma::BLUE_LOG_SHIFT_BITS,
            1_385_177_312_231,
            3_050_447_927_307,
        );
        assert(on_log_line(
            gamma::rgb_of(unit, kelvin).2.units(),
            unit(Arith::Ln(x)).units(),
            1_385_177_312_231,
            3_050_447_927_307,
        ));
    }
}

/// What the logarithm gains between two operands that lie at least 1 apart, up
/// to rounding.
proof fn lemma_gain(unit: spec_fn(Arith) -> Double, x: Double, y: Double)
    requires
        arith::ln_climbs(unit),
        x.finite(),
        y.finite(),
        double::one().units() <= x.units(),
        y.units() <= 67 * double::one().units(),
        double::one().units() - 2048 * error() <= y.units() - x.units(),
    ensures
        100 * (unit(Arith::Ln(y)).units() - unit(Arith::Ln(x)).units()) >= double::one().units(),
{
    let s: int = double::one().units();
    let (a, b): (int, int) = (x.units(), y.units());
    let gain: int = unit(Arith::Ln(y)).units() - unit(Arith::Ln(x)).units();
    lemma_error();
    lemma_infinity(x);
    lemma_infinity(y);
    let (d, p): (int, int) = ((b - a) * s, gain * b);
    assert(0x4000_0000_0000 * (d - p) <= s * b);
    assert(100 * gain >= s) by (nonlinear_arith)
        requires
            0x4000_0000_0000 * (d - p) <= s * b,
            d == (b - a) * s,
            p == gain * b,
            10 * (b - a) >= 9 * s,
            0 < b <= 67 * s,
            s > 0,
    ;
}

/// Two factors on a line keep the order of logarithms that lie a hundredth
/// apart, where neither end of the line is near.
proof fn lemma_line_rises(f: int, g: int, a: int, b: int, scale: int, shift: int)
    requires
        on_log_line(f, a, scale, shift),
        on_log_line(g, b, scale, shift),
        100 * (b - a) >= double::one().units(),
        scale >= 900_000_000_000,
    ensures
        f < g || f >= double::one().units() - 200 * error() || g <= 200 * error(),
{
    let s: int = double::one().units();
    lemma_error();
    double::lemma_zero_one();
    let (low, high): (int, int) = (scale * a - shift * s, scale * b - shift * s);
    assert(high - low >= 9_000_000_000 * s) by (nonlinear_arith)
        requires
            low == scale * a - shift * s,
            high == scale * b - shift * s,
            100 * (b - a) >= s,
            scale >= 900_000_000_000,
            s > 0,
    ;
}

/// The logarithm of 10 is at least 1.69, also of what rounds to 10.
proof fn lemma_log_of_ten(unit: spec_fn(Arith) -> Double, t: Double)
    requires
        arith::ln_in_order(unit),
        arith::ln_climbs(unit),
        t.finite(),
        10 * double::one().units() - 512 * error() <= t.units() <= 67 * double::one().units(),
    ensures
        100 * unit(Arith::Ln(t)).units() >= 169 * double::one().units(),
{
    let s: int = double::one().units();
    let (two, four, eight) = (double::power(1), double::power(2), double::power(3));
    lemma_error();
    double::lemma_zero_one();
    lemma_power(1);
    lemma_power(2);
    lemma_power(3);
    lemma2_to64();
    lemma_pow2_adds(1074, 1);
    lemma_pow2_adds(1074, 2);
    lemma_pow2_adds(1074, 3);
    lemma_power(0);
    assert(double::power(0) == double::one());
    lemma_infinity(double::one());
    lemma_infinity(two);
    lemma_infinity(four);
    lemma_infinity(eight);
    lemma_infinity(t);
    assert(two.units() == 2 * s && four.units() == 4 * s && eight.units() == 8 * s);
    let (l, m, n): (int, int, int) = (
        unit(Arith::Ln(two)).units(),
        unit(Arith::Ln(four)).units(),
        unit(Arith::Ln(eight)).units(),
    );
    let (x, y): (int, int) = (t.units(), unit(Arith::Ln(t)).units());
    assert(unit(Arith::Ln(double::one())).units() == 0);
    assert(1000 * l >= 499 * s) by (nonlinear_arith)
        requires
            0x4000_0000_0000 * ((2 * s - s) * s - (l - 0) * (2 * s)) <= s * (2 * s),
            s > 0,
    ;
    assert(1000 * (m - l) >= 499 * s) by (nonlinear_arith)
        requires
            0x4000_0000_0000 * ((4 * s - 2 * s) * s - (m - l) * (4 * s)) <= s * (4 * s),
            s > 0,
    ;
    assert(1000 * (n - m) >= 499 * s) by (nonlinear_arith)
        requires
            0x4000_0000_0000 * ((8 * s - 4 * s) * s - (n - m) * (8 * s)) <= s * (8 * s),
            s > 0,
    ;
    assert(1000 * (y - n) >= 199 * s) by (nonlinear_arith)
        requires
            0x4000_0000_0000 * ((x - 8 * s) * s - (y - n) * x) <= s * x,
            10_000 * x >= 99_999 * s,
            s > 0,
    ;
}

/// Between 1000 and 6600 kelvin, light that is at least 100 kelvin hotter holds
/// strictly more green, unless all of it was there, and strictly more blue,
/// unless all of it was there or none of it is yet, up to rounding.
pub proof fn law_warm_light_rises(unit: spec_fn(Arith) -> Double, a: Double, b: Double)
    requires
        arith::follows_ieee(unit),
        arith::rounds_closely(unit),
        arith::ln_in_order(unit),
        arith::ln_in_shape(unit),
        arith::ln_climbs(unit),
        !a.nan(),
        !b.nan(),
        1000 * double::one().units() <= a.units(),
        a.units() + 100 * double::one().units() <= b.units() <= 6600 * double::one().units(),
    ensures
        ({
            let (_, green, blue) = gamma::rgb_of(unit, a);
            let (_, more_green, more_blue) = gamma::rgb_of(unit, b);
            let (s, e) = (double::one().units(), error());
            &&& green.units() < more_green.units() || green.units() >= s - 200 * e
            &&& blue.units() < more_blue.units() || blue.units() >= s - 200 * e
                || more_blue.units() <= 200 * e
        }),
{
    let (s, e): (int, int) = (double::one().units(), error());
    let (green, blue) = (gamma::rgb_of(unit, a).1.units(), gamma::rgb_of(unit, a).2.units());
    let (more_green, more_blue) = (
        gamma::rgb_of(unit, b).1.units(),
        gamma::rgb_of(unit, b).2.units(),
    );
    lemma_error();
    double::lemma_zero_one();
    law_warm_light(unit, a);
    law_warm_light(unit, b);
    let t = choose|t: Double|
        {
            &&& t.finite()
            &&& -(51200 * e) <= 100 * t.units() - a.units() <= 51200 * e
            &&& on_log_line(
                green,
                (#[trigger] unit(Arith::Ln(t))).units(),
                994_708_025_861,
                1_611_195_636_025,
            )
        };
    let u = choose|u: Double|
        {
            &&& u.finite()
            &&& -(51200 * e) <= 100 * u.units() - b.units() <= 51200 * e
            &&& on_log_line(
                more_green,
                (#[trigger] unit(Arith::Ln(u))).units(),
                994_708_025_861,
                1_611_195_636_025,
            )
        };
    let (l, m): (int, int) = (unit(Arith::Ln(t)).units(), unit(Arith::Ln(u)).units());
    lemma_gain(unit, t, u);
    lemma_line_rises(green, more_green, l, m, 994_708_025_861, 1_611_195_636_025);
    lemma_log_of_ten(unit, u);
    assert(more_green > 200 * e);
    let (some, more) = (a.units() > 1900 * s, b.units() < 6600 * s);
    if some && more {
        let x = choose|x: Double|
            {
                &&& x.finite()
                &&& -(102400 * e) <= 100 * (x.units() + 10 * s) - a.units() <= 102400 * e
                &&& on_log_line(
                    blue,
                    (#[trigger] unit(Arith::Ln(x))).units(),
                    1_385_177_312_231,
                    3_050_447_927_307,
                )
            };
        let y = choose|y: Double|
            {
                &&& y.finite()
                &&& -(102400 * e) <= 100 * (y.units() + 10 * s) - b.units() <= 102400 * e
                &&& on_log_line(
                    more_blue,
                    (#[trigger] unit(Arith::Ln(y))).units(),
                    1_385_177_312_231,
                    3_050_447_927_307,
                )
            };
        let (p, q): (int, int) = (unit(Arith::Ln(x)).units(), unit(Arith::Ln(y)).units());
        lemma_gain(unit, x, y);
        lemma_line_rises(blue, more_blue, p, q, 1_385_177_312_231, 3_050_447_927_307);
    }
}

/// Whether a factor is a power of `scale * (T - 60)`, in 255 parts, up to
/// rounding, where `T` is a temperature in hundreds of kelvin. Scale and
/// exponent are given in parts of 10 to the power 10.
pub open spec fn on_power_line(
    unit: spec_fn(Arith) -> Double,
    factor: int,
    kelvin: int,
    scale: int,
    exponent: int,
) -> bool {
    let (s, e) = (double::one().units(), error());
    exists|base: Double, power: Double|
        {
            let off = 1_000_000_000_000 * base.units() - scale * (kelvin - 6000 * s);
            &&& decimal(power, exponent)
            &&& -(1_000_000_000_000 * (0x10_0000 * e)) <= off <= 1_000_000_000_000 * (0x10_0000 * e)
            &&& -(255 * e) <= 255 * factor - (#[trigger] unit(Arith::Pow(base, power))).units()
                <= 255 * e
        }
}

/// The power curve is such a line.
proof fn lemma_power_line(
    unit: spec_fn(Arith) -> Double,
    t: Double,
    kelvin: int,
    scale: u64,
    power: u64,
    k: int,
    p: int,
)
    requires
        arith::follows_ieee(unit),
        arith::rounds_closely(unit),
        arith::pow_in_order(unit),
        t.finite(),
        66 * double::one().units() <= t.units() <= 401 * double::one().units(),
        -(51200 * error()) <= 100 * t.units() - kelvin <= 51200 * error(),
        decimal(Double { bits: scale }, k),
        decimal(Double { bits: power }, p),
        2_000_000_000_000 <= k <= 3_300_000_000_000,
        -2_000_000_000 <= p <= -500_000_000,
    ensures
        on_power_line(unit, gamma::power_curve(unit, t, scale, power).units(), kelvin, k, p),
{
    let (zero, one) = (double::zero(), double::one());
    let (s, e): (int, int) = (one.units(), error());
    let (sixty, byte) = (Double { bits: gamma::SIXTY_BITS }, Double { bits: gamma::BYTE_BITS });
    let (a, y) = (Double { bits: scale }, Double { bits: power });
    lemma_error();
    lemma_constants();
    double::lemma_zero_one();
    lemma_infinity(sixty);
    lemma_infinity(byte);
    lemma_infinity(one);
    let distance_op = Arith::Sub(t, sixty);
    lemma_close(unit, distance_op, 512);
    lemma_whole_bounds(unit, distance_op, one);
    let distance = unit(distance_op);
    let (m, d): (int, int) = (a.units(), distance.units());
    let (ks, ps): (int, int) = (k * s, p * s);
    assert(2_000_000_000_000 * s <= ks <= 3_300_000_000_000 * s && ps <= -(500_000_000 * s))
        by (nonlinear_arith)
        requires
            ks == k * s,
            ps == p * s,
            2_000_000_000_000 <= k <= 3_300_000_000_000,
            p <= -500_000_000,
            s > 0,
    ;
    assert(199 * s <= m <= 331 * s);
    assert(s <= d <= 342 * s);
    let base_op = Arith::Mul(a, distance);
    assert(arith::exact(base_op) == (m * d, s));
    assert(s * s <= m * d <= 0x2_0000 * s * s) by (nonlinear_arith)
        requires
            199 * s <= m <= 331 * s,
            s <= d <= 342 * s,
            s > 0,
    ;
    lemma_close(unit, base_op, 0x2_0000);
    lemma_at_least(unit, base_op, one);
    let base = unit(base_op);
    let b: int = base.units();
    // The base, in parts.
    let f: int = 10_000_000_000;
    let r: int = f * m - k * s;
    let z: int = kelvin - 6000 * s;
    let q: int = 100 * d - z;
    assert(-(102400 * e) <= q <= 102400 * e);
    let off: int = 100 * (f * b) - k * z;
    let md: int = m * d;
    assert(f * md == k * (s * d) + r * d) by (nonlinear_arith)
        requires
            r == f * m - k * s,
            md == m * d,
    ;
    let g: int = b * s - md;
    assert(-(0x2_0000 * (e * s)) <= g <= 0x2_0000 * (e * s)) by (nonlinear_arith)
        requires
            -(0x2_0000 * e * s) <= g <= 0x2_0000 * e * s,
    ;
    assert(off * s == 100 * (f * g) + 100 * (r * d) + (k * q) * s) by (nonlinear_arith)
        requires
            off == 100 * (f * b) - k * z,
            g == b * s - md,
            f * md == k * (s * d) + r * d,
            q == 100 * d - z,
    ;
    let es: int = e * s;
    assert(-(342 * (s * s)) <= 1000 * (r * d) <= 342 * (s * s)) by (nonlinear_arith)
        requires
            -s <= 1000 * r <= s,
            0 <= d <= 342 * s,
    ;
    assert(s * s == 0x10_0000_0000_0000 * es) by (nonlinear_arith)
        requires
            s == 0x10_0000_0000_0000 * e,
            es == e * s,
    ;
    assert(-(337_920_000_000_000_000 * es) <= (k * q) * s <= 337_920_000_000_000_000 * es)
        by (nonlinear_arith)
        requires
            -(102400 * e) <= q <= 102400 * e,
            0 <= k <= 3_300_000_000_000,
            es == e * s,
            s > 0,
            e > 0,
    ;
    let bound: int = 1_000_000_000_000 * (0x10_0000 * e);
    assert(-(bound * s) <= off * s <= bound * s) by (nonlinear_arith)
        requires
            off * s == 100 * (f * g) + 100 * (r * d) + (k * q) * s,
            -(0x2_0000 * es) <= g <= 0x2_0000 * es,
            -(342 * (0x10_0000_0000_0000 * es)) <= 1000 * (r * d) <= 342 * (0x10_0000_0000_0000
                * es),
            -(337_920_000_000_000_000 * es) <= (k * q) * s <= 337_920_000_000_000_000 * es,
            bound == 1_000_000_000_000 * (0x10_0000 * e),
            es == e * s,
            f == 10_000_000_000,
            s > 0,
            e > 0,
    ;
    assert(-bound <= off <= bound) by (nonlinear_arith)
        requires
            -(bound * s) <= off * s <= bound * s,
            s > 0,
    ;
    // The power and its part.
    lemma_infinity(base);
    lemma_infinity(y);
    let raised = unit(Arith::Pow(base, y));
    assert(y.units() < 0);
    assert(y.below(zero));
    assert(!base.negative()) by {
        double::lemma_key_order(base, zero);
    }
    assert(zero.at_most(raised));
    assert(raised.at_most(unit(Arith::Pow(one, y))));
    assert(unit(Arith::Pow(one, y)) == one);
    lemma_between(zero, raised, one);
    let u: int = raised.units();
    let op = Arith::Div(raised, byte);
    assert(arith::exact(op) == (u * s, 255 * s));
    assert(0 <= u * s <= 1 * s * (255 * s) && 0 * (255 * s) == 0) by (nonlinear_arith)
        requires
            0 <= u <= s,
            s > 0,
    ;
    lemma_close(unit, op, 1);
    lemma_at_least(unit, op, zero);
    lemma_at_most(unit, op, one);
    let v: int = unit(op).units();
    assert(-(255 * e) <= 255 * v - u <= 255 * e) by (nonlinear_arith)
        requires
            -(1 * e * (255 * s)) <= v * (255 * s) - u * s <= 1 * e * (255 * s),
            s > 0,
    ;
    assert(1_000_000_000_000 * b == 100 * (f * b)) by (nonlinear_arith)
        requires
            f == 10_000_000_000,
    ;
}

/// What light above 6600 and up to 40000 kelvin is made of, where `T` is the
/// temperature in hundreds of kelvin: red by `329.698727446 (T - 60)` to the
/// power -0.1332047592 in 255 parts, green by `288.1221695283 (T - 60)` to the
/// power -0.0755148492 in 255 parts, and all the blue.
pub proof fn law_cool_light(unit: spec_fn(Arith) -> Double, kelvin: Double)
    requires
        arith::follows_ieee(unit),
        arith::rounds_closely(unit),
        arith::pow_in_order(unit),
        !kelvin.nan(),
        6600 * double::one().units() < kelvin.units() <= 40000 * double::one().units(),
    ensures
        ({
            let (r, g, b) = gamma::rgb_of(unit, kelvin);
            let k = kelvin.units();
            &&& on_power_line(unit, r.units(), k, 3_296_987_274_460, -1_332_047_592)
            &&& on_power_line(unit, g.units(), k, 2_881_221_695_283, -755_148_492)
            &&& b.units() == double::one().units() && !b.nan()
        }),
{
    lemma_error();
    lemma_constants();
    lemma_curve_constants();
    double::lemma_zero_one();
    lemma_hundreds(unit, kelvin);
    let t = unit(Arith::Div(kelvin, Double { bits: gamma::HUNDRED_BITS }));
    let k: int = kelvin.units();
    lemma_power_line(
        unit,
        t,
        k,
        gamma::RED_SCALE_BITS,
        gamma::RED_POWER_BITS,
        3_296_987_274_460,
        -1_332_047_592,
    );
    lemma_power_line(
        unit,
        t,
        k,
        gamma::GREEN_SCALE_BITS,
        gamma::GREEN_POWER_BITS,
        2_881_221_695_283,
        -755_148_492,
    );
}

/// Light below 1000 kelvin counts as light at 1000 kelvin, and light above
/// 40000 kelvin as light at 40000 kelvin.
pub proof fn law_extreme_light(unit: spec_fn(Arith) -> Double, kelvin: Double)
    requires
        !kelvin.nan(),
    ensures
        kelvin.units() <= 1000 * double::one().units() ==> gamma::rgb_of(unit, kelvin)
            == gamma::rgb_of(unit, Double { bits: 0x408F_4000_0000_0000 }),
        kelvin.units() >= 40000 * double::one().units() ==> gamma::rgb_of(unit, kelvin)
            == gamma::rgb_of(unit, Double { bits: 0x40E3_8800_0000_0000 }),
{
    let (coldest, hottest) = (
        Double { bits: 0x408F_4000_0000_0000 },
        Double { bits: 0x40E3_8800_0000_0000 },
    );
    lemma_constants();
    double::lemma_zero_one();
    double::lemma_key_order(kelvin, coldest);
    double::lemma_key_order(coldest, kelvin);
    double::lemma_key_order(kelvin, hottest);
    double::lemma_key_order(hottest, kelvin);
}

} // verus!
