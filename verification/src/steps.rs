//! What each step of a channel gives, as a number.

use vstd::prelude::*;
use crate::arith;
use crate::arith::Arith;
use crate::closeness::{error, lemma_close, lemma_error};
use crate::config::Config;
use crate::double;
use crate::double::{in_unit, Double};
use crate::gamma;
use crate::order::{
    law_contrast_order, law_documented_contrast, law_gamma_order, law_levels_order,
    law_posterize_order,
};
use crate::rounding::{lemma_at_least, lemma_at_most, lemma_between, lemma_infinity};

verus! {

/// A whole number restricted to a range that begins at 0.
pub open spec fn restricted(x: int, top: int) -> int {
    if x < 0 {
        0
    } else if x > top {
        top
    } else {
        x
    }
}

/// The quotient of two differences of which the second is not too small,
/// restricted to `[0, 1]`, over whole numbers: `n` and `d` are exact, `a` and
/// `r` their values rounded by at most `f`, and `v` the rounded quotient.
proof fn lemma_share_of_range(n: int, d: int, a: int, r: int, v: int, f: int, s: int, e: int)
    requires
        0 < e <= s,
        f > 0,
        0 < d,
        r > 0,
        e * r <= 2 * (f * s),
        -f <= a - n <= f,
        -f <= r - d <= f,
        0 <= v <= s,
        a <= 0 ==> v == 0,
        a >= r ==> v == s,
        0 < a < r ==> -(e * r) <= v * r - a * s <= e * r,
    ensures
        -(8 * (f * s)) <= v * d - restricted(n, d) * s <= 8 * (f * s),
{
    let fs: int = f * s;
    let c: int = restricted(n, d);
    assert(fs > 0) by (nonlinear_arith)
        requires
            fs == f * s,
            f > 0,
            s > 0,
    ;
    if a <= 0 {
        assert(0 <= c <= f);
        assert(0 * d == 0 && 0 <= c * s <= fs) by (nonlinear_arith)
            requires
                0 <= c <= f,
                fs == f * s,
                s > 0,
        ;
    } else if a >= r {
        assert(d - 2 * f <= c <= d);
        assert(0 <= s * d - c * s <= 2 * fs) by (nonlinear_arith)
            requires
                d - 2 * f <= c <= d,
                fs == f * s,
                s > 0,
        ;
    } else {
        assert(-(2 * f) <= n - c <= 2 * f);
        let (vr, x): (int, int) = (v * r, v * (d - r));
        assert(v * d == vr + x && -fs <= x <= fs) by (nonlinear_arith)
            requires
                vr == v * r,
                x == v * (d - r),
                0 <= v <= s,
                -f <= r - d <= f,
                fs == f * s,
                f > 0,
        ;
        assert(-(3 * fs) <= a * s - c * s <= 3 * fs) by (nonlinear_arith)
            requires
                -(3 * f) <= a - c <= 3 * f,
                fs == f * s,
                s > 0,
        ;
    }
}

/// Input levels give the share of the way from black to white at which the
/// input lies, restricted to `[0, 1]`, up to rounding: what they give times the
/// way is the way that the input has come, in proportion to a bound `m` of the
/// levels. Levels that lie less than half of 2 to the power -52 apart leave the
/// input alone.
#[verifier::rlimit(30)]
pub proof fn law_levels_value(
    unit: spec_fn(Arith) -> Double,
    t: Double,
    black: Double,
    white: Double,
    m: int,
)
    requires
        arith::follows_ieee(unit),
        arith::rounds_closely(unit),
        in_unit(t),
        1 <= m <= 0x4_0000,
        black.finite() && -(m * double::one().units()) <= black.units() <= m
            * double::one().units(),
        white.finite() && -(m * double::one().units()) <= white.units() <= m
            * double::one().units(),
    ensures
        ({
            let v = gamma::leveled(unit, t, black, white);
            let (way, come) = (white.units() - black.units(), t.units() - black.units());
            let (s, e) = (double::one().units(), error());
            &&& 2 * way < e && -(2 * way) < e ==> v == t
            &&& way >= 2 * e ==> -(8 * (2 * m * e * s)) <= v.units() * way - restricted(come, way)
                * s <= 8 * (2 * m * e * s)
            &&& -way >= 2 * e ==> -(8 * (2 * m * e * s)) <= v.units() * -way - restricted(
                -come,
                -way,
            ) * s <= 8 * (2 * m * e * s)
            &&& way >= 2 * e || -way >= 2 * e ==> in_unit(v)
        }),
{
    let (zero, one) = (double::zero(), double::one());
    let (s, e): (int, int) = (one.units(), error());
    let epsilon = Double { bits: gamma::EPSILON_BITS };
    lemma_error();
    double::lemma_zero_one();
    assert(epsilon == double::power(-52));
    lemma_between(zero, t, one);
    let (way, come): (int, int) = (white.units() - black.units(), t.units() - black.units());
    let range_op = Arith::Sub(white, black);
    let come_op = Arith::Sub(t, black);
    let l: int = 2 * m;
    let (ls, f): (int, int) = (l * s, l * e);
    assert(2 * (m * s) == ls && 2 * s <= ls <= 0x8_0000 * s && e <= f && l * s * 1 == ls && l * e
        * 1 == f) by (nonlinear_arith)
        requires
            ls == l * s,
            f == l * e,
            l == 2 * m,
            1 <= m <= 0x4_0000,
            s > 0,
            e > 0,
    ;
    lemma_close(unit, range_op, l);
    lemma_close(unit, come_op, l);
    let (range, distance) = (unit(range_op), unit(come_op));
    let (r, a): (int, int) = (range.units(), distance.units());
    let size: int = if way < 0 {
        -way
    } else {
        way
    };
    assert(0x20_0000_0000_0000 * (r - way) <= size + 0x20_0000_0000_0000 && 0x20_0000_0000_0000 * (
    way - r) <= size + 0x20_0000_0000_0000) by {
        reveal(arith::rounds_closely);
        assert(arith::basic(range_op));
        assert(arith::exact(range_op) == (way, 1int));
    }
    lemma_infinity(range);
    double::lemma_key_order(range, zero);
    double::law_signs(range);
    if size >= 2 * e {
        assert(-(e * size) <= s * (r - way) <= e * size) by (nonlinear_arith)
            requires
                0x20_0000_0000_0000 * (r - way) <= size + 0x20_0000_0000_0000,
                0x20_0000_0000_0000 * (way - r) <= size + 0x20_0000_0000_0000,
                s == 0x10_0000_0000_0000 * e,
                size >= 2 * e,
                e > 0x20_0000_0000_0000,
        ;
        assert(!gamma::negligible(range));
        let op = Arith::Div(distance, range);
        law_levels_order(unit, t, t, black, white);
        let v: int = gamma::leveled(unit, t, black, white).units();
        let (p, n): (int, int) = if r > 0 {
            (a, r)
        } else {
            (-a, -r)
        };
        assert((-a) * s == -(a * s)) by (nonlinear_arith);
        assert(arith::exact(op) == (p * s, n));
        assert(p <= 0 ==> p * s <= 0 * n) by (nonlinear_arith)
            requires
                s > 0,
        ;
        assert(p >= n ==> s * n <= p * s) by (nonlinear_arith)
            requires
                s > 0,
        ;
        assert(0 < p < n ==> 0 <= p * s <= 1 * s * n) by (nonlinear_arith)
            requires
                s > 0,
        ;
        assert(1 * e * n == e * n && 0 * n == 0) by (nonlinear_arith);
        if p <= 0 {
            lemma_at_most(unit, op, zero);
        } else if p >= n {
            lemma_at_least(unit, op, one);
        } else {
            lemma_close(unit, op, 1);
            assert(0 * n <= p * s && p * s <= s * n);
            lemma_at_least(unit, op, zero);
            lemma_at_most(unit, op, one);
        }
        let fs: int = f * s;
        assert(e * n <= 2 * fs && 2 * m * e * s == fs) by (nonlinear_arith)
            requires
                n <= 2 * l * s,
                fs == f * s,
                f == l * e,
                l == 2 * m,
                e > 0,
        ;
        if way > 0 {
            lemma_share_of_range(come, way, a, r, v, f, s, e);
        } else {
            lemma_share_of_range(-come, -way, -a, -r, v, f, s, e);
        }
    }
}

/// What a channel does to an input, step by step. The levels come first and
/// the power curve second. What they give is multiplied by the gain and the
/// offset added; contrast follows; that is multiplied by the brightness, and
/// then posterized. Both products are restricted to `[0, 1]`. A value above the
/// solarize threshold is taken from 1, and inversion takes the result from 1.
/// Up to rounding, in proportion to a bound `m` of levels, gain, offset and
/// brightness.
pub proof fn law_channel_steps(
    unit: spec_fn(Arith) -> Double,
    t: Double,
    gain: Double,
    offset: Double,
    config: Config,
    m: int,
)
    requires
        arith::follows_ieee(unit),
        arith::rounds_closely(unit),
        arith::library_in_order(unit),
        in_unit(t),
        config.gamma.finite(),
        !config.gamma.negative(),
        double::one().negated().at_most(config.contrast),
        config.contrast.at_most(double::one()),
        1 <= m <= 0x4_0000,
        config.level_black.finite() && -(m * double::one().units()) <= config.level_black.units()
            <= m * double::one().units(),
        config.level_white.finite() && -(m * double::one().units()) <= config.level_white.units()
            <= m * double::one().units(),
        gain.finite() && -(m * double::one().units()) <= gain.units() <= m * double::one().units(),
        offset.finite() && -(m * double::one().units()) <= offset.units() <= m
            * double::one().units(),
        config.brightness.finite() && -(m * double::one().units()) <= config.brightness.units() <= m
            * double::one().units(),
    ensures
        exists|a: Double, d: Double|
            {
                let (s, e) = (double::one().units(), error());
                let x = gamma::gamma_corrected(
                    unit,
                    gamma::leveled(unit, t, config.level_black, config.level_white),
                    config.gamma,
                );
                let y = #[trigger] gamma::contrasted(unit, a, config.contrast);
                let z = #[trigger] gamma::posterized(unit, d, config.posterize_levels);
                let r = gamma::channel_value(unit, t, gain, offset, config);
                let affine = restricted(x.units() * gain.units() + offset.units() * s, s * s);
                let scaled = restricted(y.units() * config.brightness.units(), s * s);
                let solarized = if config.solarize_value.below(z) {
                    s - z.units()
                } else {
                    z.units()
                };
                let inverted = if config.invert {
                    s - solarized
                } else {
                    solarized
                };
                &&& in_unit(x) && in_unit(a) && in_unit(y) && in_unit(d) && in_unit(z) && in_unit(r)
                &&& -(8 * m * (e * s)) <= a.units() * s - affine <= 8 * m * (e * s)
                &&& -(8 * m * (e * s)) <= d.units() * s - scaled <= 8 * m * (e * s)
                &&& -(2 * e) <= r.units() - inverted <= 2 * e
            },
{
    let (zero, one) = (double::zero(), double::one());
    let (s, e): (int, int) = (one.units(), error());
    lemma_error();
    double::lemma_zero_one();
    lemma_between(zero, t, one);
    let l: int = 2 * m;
    assert(2 * (m * s) == l * s * 1) by (nonlinear_arith)
        requires
            l == 2 * m,
    ;
    lemma_close(unit, Arith::Sub(config.level_white, config.level_black), l);
    law_levels_order(unit, t, t, config.level_black, config.level_white);
    let v = gamma::leveled(unit, t, config.level_black, config.level_white);
    assert(in_unit(v));
    law_gamma_order(unit, v, v, config.gamma);
    let x = gamma::gamma_corrected(unit, v, config.gamma);
    lemma_between(zero, x, one);
    // Gain and offset.
    let a = gamma::amplified(unit, x, gain, offset);
    lemma_affine_value(unit, x, gain, offset, m);
    law_documented_contrast(unit, config.contrast);
    law_contrast_order(unit, a, a, config.contrast);
    let y = gamma::contrasted(unit, a, config.contrast);
    // Brightness.
    let d = gamma::brightened(unit, y, config.brightness);
    lemma_scaled_value(unit, y, config.brightness, m);
    law_posterize_order(unit, d, d, config.posterize_levels);
    let z = gamma::posterized(unit, d, config.posterize_levels);
    // Solarizing and inversion.
    lemma_between(zero, z, one);
    lemma_close(unit, Arith::Sub(one, z), 1);
    let q = gamma::solarized(unit, z, config.solarize_value);
    assert(in_unit(q));
    lemma_between(zero, q, one);
    lemma_close(unit, Arith::Sub(one, q), 1);
    assert(in_unit(unit(Arith::Sub(one, q))));
}

/// A number restricted to `[0, 1]` lies as close to the restricted exact one as
/// it did before.
proof fn lemma_restricted(p: int, line: int, c: int, s: int, bound: int)
    requires
        s > 0,
        bound >= 0,
        -bound <= p * s - line <= bound,
        c == restricted(p, s),
    ensures
        -bound <= c * s - restricted(line, s * s) <= bound,
{
    assert(p < 0 ==> p * s < 0) by (nonlinear_arith)
        requires
            s > 0,
    ;
    assert(p > s ==> p * s > s * s) by (nonlinear_arith)
        requires
            s > 0,
    ;
    assert(0 <= p <= s ==> 0 <= p * s <= s * s) by (nonlinear_arith)
        requires
            s > 0,
    ;
    assert(0 * s == 0) by (nonlinear_arith);
}

/// Gain and offset, as numbers.
proof fn lemma_affine_value(
    unit: spec_fn(Arith) -> Double,
    x: Double,
    gain: Double,
    offset: Double,
    m: int,
)
    requires
        arith::follows_ieee(unit),
        arith::rounds_closely(unit),
        in_unit(x),
        1 <= m <= 0x4_0000,
        gain.finite() && -(m * double::one().units()) <= gain.units() <= m * double::one().units(),
        offset.finite() && -(m * double::one().units()) <= offset.units() <= m
            * double::one().units(),
    ensures
        ({
            let (s, e) = (double::one().units(), error());
            let a = gamma::amplified(unit, x, gain, offset);
            let affine = restricted(x.units() * gain.units() + offset.units() * s, s * s);
            in_unit(a) && -(8 * m * (e * s)) <= a.units() * s - affine <= 8 * m * (e * s)
        }),
{
    let (zero, one) = (double::zero(), double::one());
    let (s, e): (int, int) = (one.units(), error());
    lemma_error();
    double::lemma_zero_one();
    lemma_between(zero, x, one);
    let (b, g, o): (int, int, int) = (x.units(), gain.units(), offset.units());
    let product_op = Arith::Mul(x, gain);
    assert(arith::exact(product_op) == (b * g, s));
    assert(-(m * s * s) <= b * g <= m * s * s) by (nonlinear_arith)
        requires
            0 <= b <= s,
            -(m * s) <= g <= m * s,
            m >= 1,
    ;
    lemma_close(unit, product_op, m);
    let product = unit(product_op);
    let p: int = product.units();
    let sum_op = Arith::Add(product, offset);
    assert(-(4 * m * s * 1) <= p + o <= 4 * m * s * 1) by (nonlinear_arith)
        requires
            -(2 * m * s) <= p <= 2 * m * s,
            -(m * s) <= o <= m * s,
            m >= 1,
            s > 0,
    ;
    lemma_close(unit, sum_op, 4 * m);
    let q: int = unit(sum_op).units();
    let (line, bound): (int, int) = (b * g + o * s, 8 * m * (e * s));
    assert(-bound <= q * s - line <= bound && bound >= 0) by (nonlinear_arith)
        requires
            -(m * e * s) <= p * s - b * g <= m * e * s,
            -(4 * m * e * 1) <= q * 1 - (p + o) <= 4 * m * e * 1,
            line == b * g + o * s,
            bound == 8 * m * (e * s),
            m >= 1,
            s > 0,
            e > 0,
    ;
    let c: int = gamma::amplified(unit, x, gain, offset).units();
    lemma_restricted(q, line, c, s, bound);
}

/// A product restricted to `[0, 1]`, as a number.
proof fn lemma_scaled_value(unit: spec_fn(Arith) -> Double, y: Double, brightness: Double, m: int)
    requires
        arith::follows_ieee(unit),
        arith::rounds_closely(unit),
        in_unit(y),
        1 <= m <= 0x4_0000,
        brightness.finite() && -(m * double::one().units()) <= brightness.units() <= m
            * double::one().units(),
    ensures
        ({
            let (s, e) = (double::one().units(), error());
            let d = gamma::brightened(unit, y, brightness);
            let scaled = restricted(y.units() * brightness.units(), s * s);
            in_unit(d) && -(8 * m * (e * s)) <= d.units() * s - scaled <= 8 * m * (e * s)
        }),
{
    let (zero, one) = (double::zero(), double::one());
    let (s, e): (int, int) = (one.units(), error());
    lemma_error();
    double::lemma_zero_one();
    lemma_between(zero, y, one);
    let (b, g): (int, int) = (y.units(), brightness.units());
    let op = Arith::Mul(y, brightness);
    assert(arith::exact(op) == (b * g, s));
    assert(-(m * s * s) <= b * g <= m * s * s) by (nonlinear_arith)
        requires
            0 <= b <= s,
            -(m * s) <= g <= m * s,
            m >= 1,
    ;
    lemma_close(unit, op, m);
    let p: int = unit(op).units();
    let bound: int = 8 * m * (e * s);
    assert(m * e * s <= bound && bound >= 0) by (nonlinear_arith)
        requires
            bound == 8 * m * (e * s),
            m >= 1,
            e > 0,
            s > 0,
    ;
    let c: int = gamma::brightened(unit, y, brightness).units();
    lemma_restricted(p, b * g, c, s, bound);
}

} // verus!
