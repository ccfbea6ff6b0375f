//! The order of the contrast curves, and where they begin and end.

use vstd::prelude::*;
use vstd::arithmetic::power2::*;
use vstd::arithmetic::div_mod::*;
use crate::arith;
use crate::arith::Arith;
use crate::double;
use crate::double::{in_unit, Double, FRACTIONS};
use crate::gamma;
use crate::rounding::{
    grain, lemma_add_order, lemma_at_least, lemma_at_most, lemma_between, lemma_constants,
    lemma_infinity, lemma_mul_order, lemma_mul_unit, lemma_power, lemma_reciprocal_order,
    lemma_round, lemma_whole_bounds,
};

verus! {

/// Adding to 1 keeps the order of numbers that are not negative, and gives no
/// less than 1.
proof fn lemma_one_plus(unit: spec_fn(Arith) -> Double, a: Double, b: Double)
    requires
        arith::follows_ieee(unit),
        double::zero().at_most(a),
        a.at_most(b),
    ensures
        double::one().at_most(unit(Arith::Add(double::one(), a))),
        unit(Arith::Add(double::one(), a)).at_most(unit(Arith::Add(double::one(), b))),
        !b.finite() ==> unit(Arith::Add(double::one(), b)) == double::infinity(),
{
    let one = double::one();
    double::lemma_zero_one();
    lemma_infinity(a);
    lemma_infinity(b);
    lemma_infinity(one);
    if a.finite() {
        lemma_whole_bounds(unit, Arith::Add(one, a), one);
        lemma_infinity(unit(Arith::Add(one, a)));
        if b.finite() {
            lemma_add_order(unit, a, b, one);
        }
    }
}

/// The sigmoid keeps the order on `[0, 1]` and stays there.
pub proof fn lemma_sigmoid_order(
    unit: spec_fn(Arith) -> Double,
    k: Double,
    x: Double,
    y: Double,
)
    requires
        arith::follows_ieee(unit),
        arith::exp_in_order(unit),
        k.finite(),
        k.units() >= 0,
        in_unit(x),
        in_unit(y),
        x.at_most(y),
    ensures
        gamma::sigmoid(unit, k, x).at_most(gamma::sigmoid(unit, k, y)),
        in_unit(gamma::sigmoid(unit, k, x)),
        in_unit(gamma::sigmoid(unit, k, y)),
{
    let half = Double { bits: gamma::HALF_BITS };
    let one = double::one();
    lemma_constants();
    double::lemma_zero_one();
    lemma_between(double::zero(), x, one);
    lemma_between(double::zero(), y, one);
    lemma_add_order(unit, x, y, half);
    let (cx, cy) = (unit(Arith::Sub(x, half)), unit(Arith::Sub(y, half)));
    assert(cx.finite() && cy.finite());
    let nk = k.negated();
    lemma_infinity(k);
    let (p, q) = (Arith::Mul(nk, cy), Arith::Mul(nk, cx));
    let (a, b, c, s): (int, int, int, int) = (nk.units(), cx.units(), cy.units(), one.units());
    assert((a * c) * s <= (a * b) * s) by (nonlinear_arith)
        requires
            a <= 0,
            b <= c,
            s > 0,
    ;
    lemma_round(unit, p, q);
    let (ex, ey) = (unit(Arith::Exp(unit(q))), unit(Arith::Exp(unit(p))));
    assert(ey.at_most(ex));
    assert(double::zero().at_most(ey));
    lemma_one_plus(unit, ey, ex);
    lemma_reciprocal_order(unit, unit(Arith::Add(one, ey)), unit(Arith::Add(one, ex)));
}

/// What the sigmoid is computed from at 0.
proof fn lemma_sigmoid_start(unit: spec_fn(Arith) -> Double, k: Double) -> (arg: Double)
    requires
        arith::follows_ieee(unit),
        arith::exp_in_order(unit),
        k.finite(),
        k.units() >= 0,
    ensures
        gamma::sigmoid(unit, k, double::zero()) == unit(
            Arith::Div(
                double::one(),
                unit(Arith::Add(double::one(), unit(Arith::Exp(arg)))),
            ),
        ),
        double::power(-27).at_most(k) ==> double::power(-28).at_most(arg),
        k.at_most(Double { bits: gamma::MAX_STRENGTH_BITS }) ==> arg.at_most(double::power(9)),
{
    let half = Double { bits: gamma::HALF_BITS };
    let one = double::one();
    let zero = double::zero();
    let g: int = grain();
    lemma_constants();
    double::lemma_zero_one();
    lemma_infinity(half);
    lemma_infinity(k);
    let centered = unit(Arith::Sub(zero, half));
    lemma_whole_bounds(unit, Arith::Sub(zero, half), half.negated());
    lemma_between(half.negated(), centered, half.negated());
    let op = Arith::Mul(k.negated(), centered);
    let (a, h, s): (int, int, int) = (k.units(), half.units(), one.units());
    assert((-a) * (-h) == a * h) by (nonlinear_arith);
    if double::power(-27).at_most(k) {
        lemma_power(-28);
        assert((0x40 * g) * s <= a * h) by (nonlinear_arith)
            requires
                a >= 0x80 * g,
                h == 0x2_0000_0000 * g,
                s == 0x4_0000_0000 * g,
                g > 0,
        ;
        lemma_at_least(unit, op, double::power(-28));
    }
    if k.at_most(Double { bits: gamma::MAX_STRENGTH_BITS }) {
        lemma_power(9);
        lemma_power(0);
        lemma2_to64();
        lemma_pow2_adds(1074, 9);
        let t: int = double::power(9).units();
        assert(double::power(0) == one);
        assert(a * h <= t * s) by (nonlinear_arith)
            requires
                0 <= a <= 1024 * s,
                2 * h == s,
                t == s * 512,
                h > 0,
        ;
        lemma_at_most(unit, op, double::power(9));
    }
    unit(op)
}

/// The ends of a sigmoid lie apart, on both sides of a half.
pub proof fn lemma_sigmoid_ends(unit: spec_fn(Arith) -> Double, k: Double)
    requires
        arith::follows_ieee(unit),
        arith::exp_in_order(unit),
        k.finite(),
        double::power(-27).at_most(k),
    ensures
        ({
            let low = gamma::sigmoid(unit, k, double::zero());
            let high = gamma::sigmoid(unit, k, double::one());
            let span = unit(Arith::Sub(high, low));
            &&& in_unit(low)
            &&& in_unit(high)
            &&& low.units() <= 0x1_FFFF_FFFF * grain()
            &&& high.units() >= 0x2_0000_0000 * grain()
            &&& double::power(-34).at_most(span)
            &&& span.at_most(double::one())
            &&& span.finite()
        }),
{
    let half = Double { bits: gamma::HALF_BITS };
    let one = double::one();
    let zero = double::zero();
    let g: int = grain();
    let (h, s): (int, int) = (half.units(), one.units());
    lemma_constants();
    double::lemma_zero_one();
    lemma_sigmoid_order(unit, k, zero, one);
    let low = gamma::sigmoid(unit, k, zero);
    let high = gamma::sigmoid(unit, k, one);
    lemma_between(zero, low, one);
    lemma_between(zero, high, one);
    // The lower end.
    let arg = lemma_sigmoid_start(unit, k);
    let e = unit(Arith::Exp(arg));
    assert(arith::above_one().at_most(e));
    lemma_one_plus(unit, e, e);
    let d = unit(Arith::Add(one, e));
    let bound = Double { bits: 0x4000_0000_0020_0000 };
    let below_half = Double { bits: 0x3FDF_FFFF_FFF0_0000 };
    lemma_infinity(e);
    lemma_infinity(bound);
    lemma_infinity(d);
    if e.finite() {
        lemma_whole_bounds(unit, Arith::Add(one, e), bound);
    }
    if d.finite() {
        let x: int = d.units();
        let c: int = below_half.units();
        assert(s * s <= c * x) by (nonlinear_arith)
            requires
                s == 0x4_0000_0000 * g,
                c == 0x1_FFFF_FFFF * g,
                x >= 0x8_0000_0010 * g,
                g > 0,
        ;
        lemma_at_most(unit, Arith::Div(one, d), below_half);
    }
    assert(low.units() <= 0x1_FFFF_FFFF * g);
    // The upper end.
    let centered = unit(Arith::Sub(one, half));
    lemma_whole_bounds(unit, Arith::Sub(one, half), half);
    lemma_between(half, centered, half);
    lemma_infinity(k);
    let op = Arith::Mul(k.negated(), centered);
    assert((-k.units()) * h <= 0) by (nonlinear_arith)
        requires
            k.units() >= 0,
            h >= 0,
    ;
    lemma_at_most(unit, op, zero);
    let f = unit(Arith::Exp(unit(op)));
    assert(f.at_most(unit(Arith::Exp(zero))));
    lemma_between(zero, f, one);
    lemma_one_plus(unit, f, f);
    lemma_power(0);
    lemma_power(1);
    lemma_pow2_unfold(1075);
    assert(double::power(0) == one);
    let two = double::power(1);
    lemma_whole_bounds(unit, Arith::Add(one, f), two);
    let r = unit(Arith::Add(one, f));
    lemma_between(one, r, two);
    let y: int = r.units();
    assert(h * y <= s * s) by (nonlinear_arith)
        requires
            2 * h == s,
            y <= 2 * s,
            h > 0,
    ;
    lemma_at_least(unit, Arith::Div(one, r), half);
    // The distance.
    let gap = Arith::Sub(high, low);
    lemma_power(-34);
    lemma_whole_bounds(unit, gap, double::power(-34));
    lemma_whole_bounds(unit, gap, one);
    lemma_between(double::power(-34), unit(gap), one);
}

/// The lower end of a sigmoid of bounded strength does not vanish.
proof fn lemma_low_end(unit: spec_fn(Arith) -> Double, k: Double)
    requires
        arith::follows_ieee(unit),
        arith::exp_in_order(unit),
        k.finite(),
        double::power(-27).at_most(k),
        k.at_most(Double { bits: gamma::MAX_STRENGTH_BITS }),
    ensures
        double::power(-741).at_most(gamma::sigmoid(unit, k, double::zero())),
{
    let one = double::one();
    let s: int = one.units();
    lemma_constants();
    double::lemma_zero_one();
    lemma_power(-741);
    lemma_power(0);
    lemma_power(740);
    lemma_power(741);
    lemma_power(9);
    assert(double::power(0) == one);
    lemma_pow2_unfold(1815);
    lemma_pow2_strictly_increases(1074, 1814);
    lemma_pow2_adds(333, 1815);
    lemma_pow2_adds(1074, 1074);
    let arg = lemma_sigmoid_start(unit, k);
    let e = unit(Arith::Exp(arg));
    assert(double::zero().at_most(e));
    lemma_between(double::zero(), e, double::power(740));
    lemma_one_plus(unit, e, e);
    lemma_whole_bounds(unit, Arith::Add(one, e), double::power(741));
    let d = unit(Arith::Add(one, e));
    lemma_between(one, d, double::power(741));
    let (x, a, b): (int, int, int) = (
        d.units(),
        double::power(-741).units(),
        double::power(741).units(),
    );
    assert(a * x <= s * s) by (nonlinear_arith)
        requires
            x <= b,
            a * b == s * s,
            a > 0,
    ;
    lemma_at_least(unit, Arith::Div(one, d), double::power(-741));
}

/// The point between the ends of a sigmoid at `x`, and its bounds.
proof fn lemma_mix(unit: spec_fn(Arith) -> Double, low: Double, span: Double, x: Double)
    requires
        arith::follows_ieee(unit),
        double::power(-741).at_most(low),
        low.at_most(double::one()),
        double::zero().at_most(span),
        span.at_most(double::one()),
        in_unit(x),
    ensures
        ({
            let part = unit(Arith::Mul(x, span));
            let y = unit(Arith::Add(low, part));
            &&& part.finite()
            &&& y.finite()
            &&& low.at_most(y)
            &&& y.at_most(double::power(1))
        }),
{
    let one = double::one();
    double::lemma_zero_one();
    lemma_power(-741);
    lemma_power(0);
    lemma_power(1);
    lemma_pow2_unfold(1075);
    assert(double::power(0) == one);
    lemma_between(double::power(-741), low, one);
    lemma_between(double::zero(), span, one);
    lemma_mul_unit(unit, x, span);
    let op = Arith::Add(low, unit(Arith::Mul(x, span)));
    lemma_whole_bounds(unit, op, low);
    lemma_whole_bounds(unit, op, double::power(1));
    lemma_between(low, unit(op), double::power(1));
}

/// Quotients of two such points: their order and bounds.
proof fn lemma_odds(
    unit: spec_fn(Arith) -> Double,
    y1: Double,
    r1: Double,
    y2: Double,
    r2: Double,
)
    requires
        arith::follows_ieee(unit),
        double::power(-741).at_most(y1),
        y1.at_most(y2),
        y2.at_most(double::power(1)),
        double::power(-741).at_most(r2),
        r2.at_most(r1),
        r1.at_most(double::power(1)),
    ensures
        unit(Arith::Div(y1, r1)).at_most(unit(Arith::Div(y2, r2))),
        double::power(-742).at_most(unit(Arith::Div(y1, r1))),
        unit(Arith::Div(y2, r2)).at_most(double::power(742)),
        unit(Arith::Div(y1, r1)).finite(),
        unit(Arith::Div(y2, r2)).finite(),
        double::zero().below(unit(Arith::Div(y1, r1))),
        double::zero().below(unit(Arith::Div(y2, r2))),
{
    let one = double::one();
    let s: int = one.units();
    double::lemma_zero_one();
    lemma_power(-742);
    lemma_power(-741);
    lemma_power(0);
    lemma_power(1);
    lemma_power(742);
    assert(double::power(0) == one);
    lemma_pow2_unfold(1075);
    lemma_pow2_unfold(333);
    lemma_pow2_unfold(2149);
    lemma_pow2_adds(1074, 1074);
    lemma_pow2_adds(1816, 333);
    let (tiny, small, big): (int, int, int) = (
        double::power(-742).units(),
        double::power(-741).units(),
        double::power(742).units(),
    );
    lemma_between(double::power(-741), y1, double::power(1));
    lemma_between(double::power(-741), y2, double::power(1));
    lemma_between(double::power(-741), r1, double::power(1));
    lemma_between(double::power(-741), r2, double::power(1));
    let (p, q) = (Arith::Div(y1, r1), Arith::Div(y2, r2));
    let (a, b, c, d): (int, int, int, int) = (y1.units(), r1.units(), y2.units(), r2.units());
    assert((a * s) * d <= (c * s) * b) by (nonlinear_arith)
        requires
            0 < a <= c,
            0 < d <= b,
            s > 0,
    ;
    lemma_round(unit, p, q);
    assert(tiny * b <= a * s) by (nonlinear_arith)
        requires
            a >= small,
            small == 2 * tiny,
            0 < b <= 2 * s,
            tiny > 0,
            s > 0,
    ;
    lemma_at_least(unit, p, double::power(-742));
    assert(c * s <= big * d) by (nonlinear_arith)
        requires
            c <= 2 * s,
            d >= small,
            big * small == 2 * (s * s),
            big > 0,
            s > 0,
    ;
    lemma_at_most(unit, q, double::power(742));
    lemma_between(double::power(-742), unit(p), double::power(742));
    lemma_between(double::power(-742), unit(q), double::power(742));
}

/// The inverse of the sigmoid keeps the order on `[0, 1]` and is bounded.
proof fn lemma_logit_order(unit: spec_fn(Arith) -> Double, k: Double, x: Double, y: Double)
    requires
        arith::follows_ieee(unit),
        arith::exp_in_order(unit),
        arith::ln_in_order(unit),
        k.finite(),
        double::power(-27).at_most(k),
        k.at_most(Double { bits: gamma::MAX_STRENGTH_BITS }),
        in_unit(x),
        in_unit(y),
        x.at_most(y),
    ensures
        gamma::logit(unit, k, x).at_most(gamma::logit(unit, k, y)),
        double::power(10).negated().at_most(gamma::logit(unit, k, x)),
        gamma::logit(unit, k, y).at_most(double::power(10)),
{
    let one = double::one();
    let zero = double::zero();
    double::lemma_zero_one();
    lemma_constants();
    lemma_power(-34);
    let low = gamma::sigmoid(unit, k, zero);
    let high = gamma::sigmoid(unit, k, one);
    let span = unit(Arith::Sub(high, low));
    lemma_sigmoid_ends(unit, k);
    lemma_low_end(unit, k);
    lemma_between(zero, low, one);
    lemma_between(zero, x, one);
    lemma_between(zero, y, one);
    let (dx, dy) = (unit(Arith::Sub(one, x)), unit(Arith::Sub(one, y)));
    lemma_add_order(unit, x, y, one);
    assert(in_unit(dx) && in_unit(dy));
    lemma_between(zero, dx, one);
    lemma_between(zero, dy, one);
    lemma_mix(unit, low, span, x);
    lemma_mix(unit, low, span, y);
    lemma_mix(unit, low, span, dx);
    lemma_mix(unit, low, span, dy);
    lemma_mul_order(unit, x, y, span);
    lemma_mul_order(unit, dy, dx, span);
    lemma_add_order(unit, unit(Arith::Mul(x, span)), unit(Arith::Mul(y, span)), low);
    lemma_add_order(unit, unit(Arith::Mul(dy, span)), unit(Arith::Mul(dx, span)), low);
    lemma_power(-741);
    lemma_odds(
        unit,
        unit(Arith::Add(low, unit(Arith::Mul(x, span)))),
        unit(Arith::Add(low, unit(Arith::Mul(dx, span)))),
        unit(Arith::Add(low, unit(Arith::Mul(y, span)))),
        unit(Arith::Add(low, unit(Arith::Mul(dy, span)))),
    );
}

/// Two steps up from a number that is neither subnormal nor above a half.
proof fn lemma_two_steps(low: Double) -> (up: Double)
    requires
        double::power(-741).at_most(low),
        low.units() <= 0x2_0000_0000 * grain(),
        low.finite(),
    ensures
        up.finite(),
        up.units() <= low.units() + grain(),
        low.units() <= FRACTIONS * (up.units() - low.units()),
{
    let n: int = FRACTIONS as int;
    let m: int = low.bits as int;
    let g: int = grain();
    lemma_constants();
    lemma_power(-741);
    let least = double::power(-741);
    double::lemma_key_order(low, least);
    double::lemma_key_order(double::one(), low);
    assert(double::one().units() > low.units());
    assert(!low.negative());
    assert(282 * n <= m < 1023 * n);
    let e: int = m / n;
    let f: int = m % n;
    lemma_fundamental_div_mod(m, n);
    assert(1 <= e < 1023) by (nonlinear_arith)
        requires
            m == n * e + f,
            0 <= f < n,
            282 * n <= m < 1023 * n,
            n > 0,
    ;
    let p: int = pow2((e - 1) as nat) as int;
    lemma_pow2_pos((e - 1) as nat);
    lemma_pow2_unfold(e as nat);
    assert(pow2(e as nat) == 2 * p);
    assert(low.units() == (n + f) * p);
    let up = Double { bits: (m + 2) as u64 };
    if f + 2 < n {
        lemma_fundamental_div_mod_converse(m + 2, n, e, f + 2);
        assert(up.units() == (n + f + 2) * p);
    } else {
        assert(m + 2 == (e + 1) * n + (f + 2 - n)) by (nonlinear_arith)
            requires
                m == n * e + f,
        ;
        lemma_fundamental_div_mod_converse(m + 2, n, e + 1, f + 2 - n);
        assert(up.units() == (n + (f + 2 - n)) * (2 * p));
    }
    assert(2 * p <= up.units() - low.units() <= 3 * p) by (nonlinear_arith)
        requires
            low.units() == (n + f) * p,
            f + 2 < n ==> up.units() == (n + f + 2) * p,
            f + 2 >= n ==> up.units() == (n + (f + 2 - n)) * (2 * p),
            0 <= f < n,
            p > 0,
    ;
    assert(n * p <= (n + f) * p <= 2 * n * p) by (nonlinear_arith)
        requires
            0 <= f < n,
            p > 0,
    ;
    assert(3 * p <= g);
    let diff: int = up.units() - low.units();
    assert(2 * n * p <= n * diff) by (nonlinear_arith)
        requires
            2 * p <= diff,
            n > 0,
    ;
    up
}

/// The inverse of the sigmoid is not above zero at 0, and above it at 1.
proof fn lemma_logit_ends(unit: spec_fn(Arith) -> Double, k: Double)
    requires
        arith::follows_ieee(unit),
        arith::exp_in_order(unit),
        arith::ln_in_order(unit),
        k.finite(),
        double::power(-27).at_most(k),
        k.at_most(Double { bits: gamma::MAX_STRENGTH_BITS }),
    ensures
        gamma::logit(unit, k, double::zero()).at_most(double::zero()),
        double::zero().below(gamma::logit(unit, k, double::one())),
{
    let one = double::one();
    let zero = double::zero();
    let s: int = one.units();
    let n: int = FRACTIONS as int;
    double::lemma_zero_one();
    lemma_constants();
    lemma_power(-34);
    lemma_power(-741);
    let low = gamma::sigmoid(unit, k, zero);
    let high = gamma::sigmoid(unit, k, one);
    let span = unit(Arith::Sub(high, low));
    lemma_sigmoid_ends(unit, k);
    lemma_low_end(unit, k);
    lemma_between(zero, low, one);
    lemma_mix(unit, low, span, one);
    assert(unit(Arith::Mul(zero, span)) == zero);
    assert(unit(Arith::Mul(one, span)) == span);
    assert(unit(Arith::Add(low, zero)) == low);
    assert(unit(Arith::Sub(one, zero)) == one);
    assert(unit(Arith::Sub(one, one)) == zero);
    let sum = unit(Arith::Add(low, span));
    assert(zero.clamped_to_unit() == zero && one.clamped_to_unit() == one);
    assert(gamma::logit(unit, k, zero) == unit(Arith::Ln(unit(Arith::Div(low, sum)))));
    assert(gamma::logit(unit, k, one) == unit(Arith::Ln(unit(Arith::Div(sum, low)))));
    lemma_odds(unit, low, sum, sum, low);
    let (a, b): (int, int) = (low.units(), sum.units());
    // At 0.
    assert(a * s <= s * b) by (nonlinear_arith)
        requires
            a <= b,
            s > 0,
    ;
    lemma_at_most(unit, Arith::Div(low, sum), one);
    assert(unit(Arith::Ln(unit(Arith::Div(low, sum)))).at_most(unit(Arith::Ln(one))));
    // At 1.
    let up = lemma_two_steps(low);
    lemma_whole_bounds(unit, Arith::Add(low, span), up);
    let next = Double { bits: (double::ONE_BITS + 1) as u64 };
    let p: int = pow2(1022) as int;
    lemma_pow2_pos(1022);
    lemma_fundamental_div_mod_converse(0x3FF0_0000_0000_0001, n, 1023, 1);
    lemma_fundamental_div_mod_converse(0x3FF0_0000_0000_0000, n, 1023, 0);
    assert(s == n * p);
    assert(next.units() == (n + 1) * p);
    let c: int = up.units();
    assert(((n + 1) * p) * a <= b * (n * p)) by (nonlinear_arith)
        requires
            a <= n * (c - a),
            c <= b,
            p > 0,
            n > 0,
    ;
    lemma_at_least(unit, Arith::Div(sum, low), next);
    assert(next.units() > s) by (nonlinear_arith)
        requires
            s == n * p,
            next.units() == (n + 1) * p,
            p > 0,
    ;
}

/// The amounts of contrast whose curve is within range: every finite one, as
/// long as ten times a positive one is finite too.
pub open spec fn within_range(unit: spec_fn(Arith) -> Double, amount: Double) -> bool {
    &&& amount.finite()
    &&& amount.units() > 0 ==> unit(Arith::Mul(amount, Double { bits: gamma::TEN_BITS })).finite()
}

/// The strength of a contrast that is none of the no-ops.
pub proof fn lemma_strength(unit: spec_fn(Arith) -> Double, amount: Double) -> (k: Double)
    requires
        arith::follows_ieee(unit),
        within_range(unit, amount),
        !amount.absolute().below(Double { bits: gamma::NO_CONTRAST_BITS }),
    ensures
        k.finite(),
        double::power(-27).at_most(k),
        0x10 * grain() <= amount.absolute().units(),
        amount.below(double::zero()) ==> k == gamma::inverse_strength(unit, amount) && k.at_most(
            Double { bits: gamma::MAX_STRENGTH_BITS },
        ),
        !amount.below(double::zero()) ==> k == unit(
            Arith::Mul(amount, Double { bits: gamma::TEN_BITS }),
        ),
{
    let ten = Double { bits: gamma::TEN_BITS };
    let most = Double { bits: gamma::MAX_STRENGTH_BITS };
    let size = amount.absolute();
    let g: int = grain();
    lemma_constants();
    double::lemma_zero_one();
    lemma_power(-27);
    lemma_power(-30);
    lemma_power(-34);
    lemma2_to64();
    lemma_pow2_adds(1040, 4);
    lemma_infinity(amount);
    lemma_infinity(size);
    double::lemma_key_order(size, Double { bits: gamma::NO_CONTRAST_BITS });
    double::lemma_key_order(size, double::power(-30));
    assert(size.units() >= 0x10 * g);
    double::lemma_key_order(amount, double::zero());
    let op = Arith::Mul(size, ten);
    let (a, s): (int, int) = (size.units(), double::one().units());
    assert((0x80 * g) * s <= a * (10 * s)) by (nonlinear_arith)
        requires
            a >= 0x10 * g,
            s > 0,
            g > 0,
    ;
    lemma_at_least(unit, op, double::power(-27));
    if amount.below(double::zero()) {
        assert(size == amount.negated());
        let k = gamma::inverse_strength(unit, amount);
        lemma_infinity(most);
        lemma_between(double::power(-27), k, most);
        k
    } else {
        assert(size == amount);
        unit(op)
    }
}

/// A contrast curve keeps the order on `[0, 1]`, is bounded, and its ends lie
/// apart.
pub proof fn lemma_contrast_curve(
    unit: spec_fn(Arith) -> Double,
    amount: Double,
    x: Double,
    y: Double,
)
    requires
        arith::follows_ieee(unit),
        arith::exp_in_order(unit),
        arith::ln_in_order(unit),
        within_range(unit, amount),
        !amount.absolute().below(Double { bits: gamma::NO_CONTRAST_BITS }),
        in_unit(x),
        in_unit(y),
        x.at_most(y),
    ensures
        ({
            let low = gamma::contrast_curve(unit, amount, double::zero());
            let high = gamma::contrast_curve(unit, amount, double::one());
            let span = unit(Arith::Sub(high, low));
            &&& gamma::contrast_curve(unit, amount, x).at_most(
                gamma::contrast_curve(unit, amount, y),
            )
            &&& gamma::contrast_curve(unit, amount, x).finite()
            &&& gamma::contrast_curve(unit, amount, y).finite()
            &&& low.finite()
            &&& high.finite()
            &&& span.finite()
            &&& span.units() > 0
        }),
{
    let one = double::one();
    let zero = double::zero();
    double::lemma_zero_one();
    lemma_power(-27);
    lemma_power(-34);
    let k = lemma_strength(unit, amount);
    let low = gamma::contrast_curve(unit, amount, zero);
    let high = gamma::contrast_curve(unit, amount, one);
    if amount.below(zero) {
        let most = double::power(10);
        lemma_power(10);
        lemma_power(11);
        lemma_pow2_unfold(1085);
        lemma_infinity(most);
        lemma_logit_order(unit, k, x, y);
        lemma_logit_order(unit, k, zero, one);
        lemma_logit_ends(unit, k);
        lemma_between(most.negated(), gamma::logit(unit, k, x), most);
        lemma_between(most.negated(), gamma::logit(unit, k, y), most);
        lemma_between(most.negated(), low, most);
        lemma_between(most.negated(), high, most);
        lemma_whole_bounds(unit, Arith::Sub(high, low), high);
        lemma_whole_bounds(unit, Arith::Sub(high, low), double::power(11));
        lemma_between(high, unit(Arith::Sub(high, low)), double::power(11));
    } else {
        lemma_sigmoid_order(unit, k, x, y);
        lemma_sigmoid_order(unit, k, zero, one);
        lemma_sigmoid_ends(unit, k);
        lemma_between(zero, gamma::sigmoid(unit, k, x), one);
        lemma_between(zero, gamma::sigmoid(unit, k, y), one);
        lemma_between(zero, low, one);
        lemma_between(zero, high, one);
    }
}

} // verus!
