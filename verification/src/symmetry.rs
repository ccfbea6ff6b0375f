//! The symmetry of the contrast curves, and their middle.

use vstd::prelude::*;
use vstd::arithmetic::power2::*;
use crate::arith;
use crate::arith::Arith;
use crate::closeness::{error, lemma_close, lemma_error, lemma_relative};
use crate::curves::{lemma_contrast_curve, lemma_sigmoid_ends, lemma_sigmoid_order, lemma_strength};
use crate::double;
use crate::double::{in_unit, Double};
use crate::gamma;
use crate::order::law_documented_contrast;
use crate::rounding::{
    lemma_add_order, lemma_at_least, lemma_at_most, lemma_between, lemma_constants, lemma_infinity,
    lemma_power, lemma_mul_unit, lemma_whole_bounds,
};

verus! {

/// Two shares of 1, of one plus a number and of one plus its reciprocal, add
/// up to 1, over whole numbers.
proof fn lemma_shares(g: int, f: int, a: int, b: int, s: int, e: int)
    requires
        s > 0,
        e > 0,
        g >= 0,
        f >= 0,
        -(128 * e * s) <= g * f - s * s <= 128 * e * s,
        -(3 * e * (s + g)) <= a * (s + g) - s * s <= 3 * e * (s + g),
        -(3 * e * (s + f)) <= b * (s + f) - s * s <= 3 * e * (s + f),
    ensures
        -(134 * e) <= a + b - s <= 134 * e,
{
    let (x, y): (int, int) = (s + g, s + f);
    let (p, q): (int, int) = (a * x - s * s, b * y - s * s);
    let (ss, m): (int, int) = (s * s, s * s - g * f);
    let area: int = x * y;
    let u: int = e * area;
    assert(area == ss + s * (g + f) + g * f) by (nonlinear_arith)
        requires
            area == x * y,
            x == s + g,
            y == s + f,
            ss == s * s,
    ;
    assert(0 < ss <= area) by (nonlinear_arith)
        requires
            area == ss + s * (g + f) + g * f,
            ss == s * s,
            g >= 0,
            f >= 0,
            s > 0,
    ;
    assert(ss * (x + y) - s * area == s * m) by (nonlinear_arith)
        requires
            area == ss + s * (g + f) + g * f,
            x == s + g,
            y == s + f,
            m == ss - g * f,
            ss == s * s,
    ;
    assert(-(128 * u) <= s * m <= 128 * u) by (nonlinear_arith)
        requires
            -(128 * e * s) <= m <= 128 * e * s,
            ss == s * s,
            ss <= area,
            u == e * area,
            s > 0,
            e > 0,
    ;
    assert(-(3 * u) <= p * y <= 3 * u) by (nonlinear_arith)
        requires
            -(3 * e * x) <= p <= 3 * e * x,
            u == e * area,
            area == x * y,
            y > 0,
    ;
    assert(-(3 * u) <= q * x <= 3 * u) by (nonlinear_arith)
        requires
            -(3 * e * y) <= q <= 3 * e * y,
            u == e * area,
            area == x * y,
            x > 0,
    ;
    let sum: int = a + b - s;
    assert((a * x) * y == a * area && (b * y) * x == b * area) by (nonlinear_arith)
        requires
            area == x * y,
    ;
    assert(p * y == (a * x) * y - ss * y && q * x == (b * y) * x - ss * x) by (nonlinear_arith)
        requires
            p == a * x - ss,
            q == b * y - ss,
    ;
    assert(area * sum == a * area + b * area - s * area) by (nonlinear_arith)
        requires
            sum == a + b - s,
    ;
    assert(ss * (x + y) == ss * x + ss * y) by (nonlinear_arith);
    assert(area * sum == p * y + q * x + s * m);
    assert(-(134 * e) <= sum <= 134 * e) by (nonlinear_arith)
        requires
            -(134 * u) <= area * sum <= 134 * u,
            u == e * area,
            area > 0,
    ;
}

/// A share of one plus a number, up to rounding.
proof fn lemma_share(unit: spec_fn(Arith) -> Double, grown: Double)
    requires
        arith::follows_ieee(unit),
        arith::rounds_closely(unit),
        grown.finite(),
        0 <= grown.units() <= 512 * double::one().units(),
    ensures
        ({
            let one = double::one();
            let share = unit(Arith::Div(one, unit(Arith::Add(one, grown))));
            let (s, e) = (one.units(), error());
            let x = s + grown.units();
            &&& share.finite()
            &&& 0 <= share.units() <= s
            &&& -(3 * e * x) <= share.units() * x - s * s <= 3 * e * x
        }),
{
    let (zero, one) = (double::zero(), double::one());
    let (s, e): (int, int) = (one.units(), error());
    double::lemma_zero_one();
    lemma_error();
    let op = Arith::Add(one, grown);
    let x: int = s + grown.units();
    assert(arith::exact(op) == (x, 1int));
    lemma_relative(unit, op);
    lemma_whole_bounds(unit, op, one);
    let whole = unit(op);
    let m: int = whole.units();
    let share_op = Arith::Div(one, whole);
    assert(arith::exact(share_op) == (s * s, m));
    assert(0 <= s * s <= 1 * s * m && 0 * m == 0) by (nonlinear_arith)
        requires
            0 < s <= m,
    ;
    lemma_close(unit, share_op, 1);
    lemma_at_least(unit, share_op, zero);
    lemma_at_most(unit, share_op, one);
    let r: int = unit(share_op).units();
    let d: int = m - x;
    assert(-(e * x) <= r * d <= e * x) by (nonlinear_arith)
        requires
            -x <= 0x10_0000_0000_0000 * d <= x,
            0 <= r <= s,
            s == 0x10_0000_0000_0000 * e,
            e > 0,
    ;
    assert(r * x == r * m - r * d) by (nonlinear_arith)
        requires
            d == m - x,
    ;
    assert(1 * e * m <= 2 * (e * x)) by (nonlinear_arith)
        requires
            m <= 2 * x,
            e > 0,
    ;
    assert(3 * e * x == 3 * (e * x)) by (nonlinear_arith);
}

/// The operand of the exponential function in a sigmoid of moderate strength,
/// up to rounding.
proof fn lemma_operand(unit: spec_fn(Arith) -> Double, k: Double, x: Double) -> (u: Double)
    requires
        arith::follows_ieee(unit),
        arith::rounds_closely(unit),
        k.finite(),
        double::one().units() <= 0x800_0000 * k.units(),
        k.units() <= 10 * double::one().units(),
        in_unit(x),
    ensures
        ({
            let half = Double { bits: gamma::HALF_BITS };
            let (s, e) = (double::one().units(), error());
            &&& u == unit(Arith::Mul(k.negated(), unit(Arith::Sub(x, half))))
            &&& u.finite()
            &&& -(6 * s) <= u.units() <= 6 * s
            &&& -(2 * e * k.units()) <= u.units() * s - k.units() * (half.units() - x.units()) <= 2
                * e * k.units()
        }),
{
    let half = Double { bits: gamma::HALF_BITS };
    let (zero, one) = (double::zero(), double::one());
    let (h, s, e): (int, int, int) = (half.units(), one.units(), error());
    lemma_constants();
    lemma_error();
    double::lemma_zero_one();
    lemma_between(zero, x, one);
    lemma_infinity(k);
    let c_op = Arith::Sub(x, half);
    lemma_close(unit, c_op, 1);
    let c = unit(c_op);
    let (a, b, v): (int, int, int) = (k.units(), c.units(), x.units());
    let op = Arith::Mul(k.negated(), c);
    let p: int = (-a) * b;
    assert(arith::exact(op) == (p, s));
    assert(-(a * s) <= p <= a * s) by (nonlinear_arith)
        requires
            p == (-a) * b,
            a > 0,
            -s <= b <= s,
    ;
    assert(0 < a * s <= 10 * s * s) by (nonlinear_arith)
        requires
            0 < a <= 10 * s,
            s > 0,
    ;
    lemma_close(unit, op, 10);
    let u = unit(op);
    let r: int = u.units();
    assert(0x10_0000_0000 * s * s >= 10 * s * s) by (nonlinear_arith)
        requires
            s > 0,
    ;
    assert(-(e * a) <= r * s - p <= e * a) by {
        reveal(arith::rounds_closely);
        assert(arith::basic(op));
        let size: int = if p < 0 {
            -p
        } else {
            p
        };
        let d: int = r * s - p;
        assert(0x20_0000_0000_0000 * d <= size + 0x20_0000_0000_0000 * s);
        assert(-(0x20_0000_0000_0000 * d) <= size + 0x20_0000_0000_0000 * s);
        assert(-(e * a) <= d <= e * a) by (nonlinear_arith)
            requires
                0x20_0000_0000_0000 * d <= size + 0x20_0000_0000_0000 * s,
                -(0x20_0000_0000_0000 * d) <= size + 0x20_0000_0000_0000 * s,
                size <= a * s,
                s == 0x10_0000_0000_0000 * e,
                s <= 0x800_0000 * a,
                e > 0x20_0000_0000_0000,
        ;
    }
    let off: int = b - (v - h);
    assert(-(e * a) <= a * off <= e * a) by (nonlinear_arith)
        requires
            -e <= off <= e,
            a > 0,
    ;
    assert(p == a * (h - v) - a * off && 2 * e * a == 2 * (e * a)) by (nonlinear_arith)
        requires
            p == (-a) * b,
            off == b - (v - h),
    ;
    assert(-(6 * s) <= r <= 6 * s) by (nonlinear_arith)
        requires
            -(2 * e * a) <= r * s - a * (h - v) <= 2 * e * a,
            0 < a <= 10 * s,
            0 <= v <= s,
            2 * h == s,
            s == 0x10_0000_0000_0000 * e,
            e > 0,
    ;
    u
}

/// A sigmoid of moderate strength, up to rounding.
pub proof fn lemma_sigmoid_value(unit: spec_fn(Arith) -> Double, k: Double, x: Double) -> (r: (
    Double,
    Double,
))
    requires
        arith::follows_ieee(unit),
        arith::rounds_closely(unit),
        arith::exp_in_order(unit),
        arith::exp_in_shape(unit),
        k.finite(),
        double::one().units() <= 0x800_0000 * k.units(),
        k.units() <= 10 * double::one().units(),
        in_unit(x),
    ensures
        ({
            let half = Double { bits: gamma::HALF_BITS };
            let (s, e) = (double::one().units(), error());
            let (u, g) = (r.0.units(), r.1.units());
            let v = gamma::sigmoid(unit, k, x);
            &&& r.0 == unit(Arith::Mul(k.negated(), unit(Arith::Sub(x, half))))
            &&& r.1 == unit(Arith::Exp(r.0))
            &&& r.0.finite()
            &&& r.1.finite()
            &&& -(6 * s) <= u <= 6 * s
            &&& -(2 * e * k.units()) <= u * s - k.units() * (half.units() - x.units()) <= 2 * e
                * k.units()
            &&& 0 <= g <= 512 * s
            &&& v.finite()
            &&& 0 <= v.units() <= s
            &&& -(3 * e * (s + g)) <= v.units() * (s + g) - s * s <= 3 * e * (s + g)
        }),
{
    let zero = double::zero();
    double::lemma_zero_one();
    lemma_power(0);
    lemma_power(9);
    lemma2_to64();
    lemma_pow2_adds(1074, 9);
    assert(double::power(0) == double::one());
    let u = lemma_operand(unit, k, x);
    let g = unit(Arith::Exp(u));
    assert(g.at_most(double::power(9)));
    assert(zero.at_most(g));
    lemma_between(zero, g, double::power(9));
    lemma_share(unit, g);
    (u, g)
}

/// A sigmoid of moderate strength is symmetric: at opposite points its values
/// add up to 1.
proof fn lemma_sigmoid_mirror(unit: spec_fn(Arith) -> Double, k: Double, x: Double, y: Double)
    requires
        arith::follows_ieee(unit),
        arith::rounds_closely(unit),
        arith::exp_in_order(unit),
        arith::exp_in_shape(unit),
        k.finite(),
        double::one().units() <= 0x800_0000 * k.units(),
        k.units() <= 10 * double::one().units(),
        in_unit(x),
        in_unit(y),
        -error() <= x.units() + y.units() - double::one().units() <= error(),
    ensures
        ({
            let (a, b) = (gamma::sigmoid(unit, k, x), gamma::sigmoid(unit, k, y));
            let s = double::one().units();
            &&& s <= 514 * a.units()
            &&& -(134 * error()) <= a.units() + b.units() - s <= 134 * error()
        }),
{
    let half = Double { bits: gamma::HALF_BITS };
    let (h, s, e): (int, int, int) = (half.units(), double::one().units(), error());
    lemma_constants();
    lemma_error();
    let (u, p) = lemma_sigmoid_value(unit, k, x);
    let (v, q) = lemma_sigmoid_value(unit, k, y);
    let (a, m, n): (int, int, int) = (k.units(), x.units(), y.units());
    let sum: int = u.units() + v.units();
    assert(-(64 * e) <= sum <= 64 * e) by (nonlinear_arith)
        requires
            -(2 * e * a) <= u.units() * s - a * (h - m) <= 2 * e * a,
            -(2 * e * a) <= v.units() * s - a * (h - n) <= 2 * e * a,
            sum == u.units() + v.units(),
            -e <= m + n - s <= e,
            2 * h == s,
            0 < a <= 10 * s,
            e > 0,
    ;
    let (g, f): (int, int) = (p.units(), q.units());
    let product: int = g * f;
    assert(-(128 * e * s) <= product - s * s <= 128 * e * s) by (nonlinear_arith)
        requires
            -(s * s) <= 0x2000_0000_0000 * (product - s * s) <= s * s,
            s == 0x10_0000_0000_0000 * e,
            e > 0,
    ;
    let (left, right): (int, int) = (
        gamma::sigmoid(unit, k, x).units(),
        gamma::sigmoid(unit, k, y).units(),
    );
    lemma_shares(g, f, left, right, s, e);
    assert(s <= 514 * left) by (nonlinear_arith)
        requires
            left * (s + g) - s * s >= -(3 * e * (s + g)),
            0 <= g <= 512 * s,
            s == 0x10_0000_0000_0000 * e,
            e > 0,
    ;
}

/// How far apart the ends of a sigmoid of moderate strength lie.
pub proof fn lemma_sigmoid_span(unit: spec_fn(Arith) -> Double, k: Double)
    requires
        arith::follows_ieee(unit),
        arith::rounds_closely(unit),
        arith::exp_in_order(unit),
        arith::exp_in_shape(unit),
        k.finite(),
        double::one().units() <= 0x800_0000 * k.units(),
        k.units() <= 10 * double::one().units(),
    ensures
        ({
            let low = gamma::sigmoid(unit, k, double::zero());
            let high = gamma::sigmoid(unit, k, double::one());
            let span = unit(Arith::Sub(high, low));
            let (s, e) = (double::one().units(), error());
            &&& span.finite()
            &&& -(135 * e) <= span.units() - (s - 2 * low.units()) <= 135 * e
            &&& k.units() - 2500 * e <= 16 * span.units()
        }),
{
    let half = Double { bits: gamma::HALF_BITS };
    let (zero, one) = (double::zero(), double::one());
    let (h, s, e): (int, int, int) = (half.units(), one.units(), error());
    lemma_constants();
    lemma_error();
    double::lemma_zero_one();
    let (u, p) = lemma_sigmoid_value(unit, k, zero);
    lemma_sigmoid_value(unit, k, one);
    lemma_sigmoid_mirror(unit, k, zero, one);
    let low = gamma::sigmoid(unit, k, zero);
    let high = gamma::sigmoid(unit, k, one);
    lemma_close(unit, Arith::Sub(high, low), 1);
    let (a, m, b): (int, int, int) = (k.units(), u.units(), p.units());
    assert(a - 40 * e <= 2 * m) by (nonlinear_arith)
        requires
            m * s - a * (h - 0) >= -(2 * e * a),
            2 * h == s,
            0 < a <= 10 * s,
            e > 0,
    ;
    assert(s <= 0x800_0000 * a && s == 0x10_0000_0000_0000 * e);
    assert(m >= 64 * e);
    let d: int = m - 64 * e;
    assert(b - s >= d);
    let c: int = s - 2 * low.units();
    assert((c + 6 * e) * (s + b) >= s * (b - s)) by (nonlinear_arith)
        requires
            c == s - 2 * low.units(),
            low.units() * (s + b) - s * s <= 3 * e * (s + b),
    ;
    assert(d <= 8 * (c + 6 * e)) by (nonlinear_arith)
        requires
            (c + 6 * e) * (s + b) >= s * (b - s),
            0 <= d <= b - s,
            d <= 6 * s,
            s > 0,
    ;
}

/// What the ends of a sigmoid of moderate strength leave for the points between
/// them.
pub open spec fn ends(low: Double, span: Double) -> bool {
    let (s, e) = (double::one().units(), error());
    &&& low.finite()
    &&& span.finite()
    &&& s <= 514 * low.units()
    &&& 0 <= span.units() <= s
    &&& low.units() + span.units() <= s
    &&& -(135 * e) <= 2 * low.units() + span.units() - s <= 135 * e
}

/// The ends of a sigmoid of moderate strength.
pub proof fn lemma_ends(unit: spec_fn(Arith) -> Double, k: Double)
    requires
        arith::follows_ieee(unit),
        arith::rounds_closely(unit),
        arith::exp_in_order(unit),
        arith::exp_in_shape(unit),
        k.finite(),
        double::power(-27).at_most(k),
        k.units() <= 10 * double::one().units(),
    ensures
        ({
            let low = gamma::sigmoid(unit, k, double::zero());
            let high = gamma::sigmoid(unit, k, double::one());
            let span = unit(Arith::Sub(high, low));
            &&& ends(low, span)
            &&& k.units() - 2500 * error() <= 16 * span.units()
        }),
{
    lemma_constants();
    lemma_error();
    double::lemma_zero_one();
    lemma_power(-34);
    lemma_sigmoid_ends(unit, k);
    lemma_sigmoid_span(unit, k);
    lemma_sigmoid_mirror(unit, k, double::zero(), double::one());
    lemma_between(double::zero(), gamma::sigmoid(unit, k, double::zero()), double::one());
}

/// The point between the ends of a sigmoid at `x`, up to rounding.
pub proof fn lemma_point(unit: spec_fn(Arith) -> Double, low: Double, span: Double, x: Double)
    requires
        arith::follows_ieee(unit),
        arith::rounds_closely(unit),
        ends(low, span),
        in_unit(x),
    ensures
        ({
            let y = unit(Arith::Add(low, unit(Arith::Mul(x, span))));
            let (s, e) = (double::one().units(), error());
            &&& y.finite()
            &&& low.units() <= y.units() <= s + 4 * e
            &&& -(3 * e * s) <= (y.units() - low.units()) * s - x.units() * span.units() <= 3 * e
                * s
        }),
{
    let (zero, one) = (double::zero(), double::one());
    let (s, e): (int, int) = (one.units(), error());
    double::lemma_zero_one();
    lemma_error();
    lemma_between(zero, x, one);
    let (a, v, w): (int, int, int) = (low.units(), x.units(), span.units());
    let part_op = Arith::Mul(x, span);
    assert(0 <= v * w <= 1 * s * s) by (nonlinear_arith)
        requires
            0 <= v <= s,
            0 <= w <= s,
    ;
    assert(arith::exact(part_op) == (v * w, s));
    lemma_close(unit, part_op, 1);
    lemma_mul_unit(unit, x, span);
    let part = unit(part_op);
    let op = Arith::Add(low, part);
    lemma_close(unit, op, 2);
    lemma_whole_bounds(unit, op, low);
    let (b, y): (int, int) = (part.units(), unit(op).units());
    assert(-(3 * e * s) <= (y - a) * s - v * w <= 3 * e * s) by (nonlinear_arith)
        requires
            -(1 * e * s) <= b * s - v * w <= 1 * e * s,
            -(2 * e) <= y - (a + b) <= 2 * e,
            s > 0,
    ;
}

/// Whether a number is such a point.
pub open spec fn point(d: Double) -> bool {
    let (s, e) = (double::one().units(), error());
    d.finite() && s <= 514 * d.units() && d.units() <= s + 4 * e
}

/// The quotient of two such points, up to rounding.
pub proof fn lemma_odds(unit: spec_fn(Arith) -> Double, a: Double, b: Double)
    requires
        arith::follows_ieee(unit),
        arith::rounds_closely(unit),
        point(a),
        point(b),
    ensures
        ({
            let r = unit(Arith::Div(a, b));
            let (s, e) = (double::one().units(), error());
            &&& r.finite()
            &&& s <= 1024 * r.units()
            &&& r.units() <= 1024 * s
            &&& -(e * a.units()) <= r.units() * b.units() - a.units() * s <= e * a.units()
            &&& b.units() <= a.units() ==> s <= r.units()
        }),
{
    let (s, e): (int, int) = (double::one().units(), error());
    let (x, y): (int, int) = (a.units(), b.units());
    lemma_error();
    let op = Arith::Div(a, b);
    assert(arith::exact(op) == (x * s, y));
    assert(0x20_0000_0000_0000 * y <= x * s && x * s <= 0x10_0000_0000 * s * y) by (nonlinear_arith)
        requires
            y <= 2 * s,
            s <= 514 * x,
            x <= 1028 * y,
            s == 0x10_0000_0000_0000 * e,
            e > 0x20_0000_0000_0000,
    ;
    lemma_relative(unit, op);
    let r: int = unit(op).units();
    assert(x * s == 0x10_0000_0000_0000 * (e * x)) by (nonlinear_arith)
        requires
            s == 0x10_0000_0000_0000 * e,
    ;
    assert(s <= 1024 * r && r <= 1024 * s) by (nonlinear_arith)
        requires
            -(e * x) <= r * y - x * s <= e * x,
            s <= 514 * x,
            s <= 514 * y,
            x <= s + 4 * e,
            y <= s + 4 * e,
            s == 0x10_0000_0000_0000 * e,
            e > 0,
    ;
    if y <= x {
        assert(s * y <= x * s) by (nonlinear_arith)
            requires
                y <= x,
                s > 0,
        ;
        lemma_at_least(unit, op, double::one());
    }
}

/// The quotients of two numbers, one by the other and the other by a number
/// close to the one, are reciprocal, over whole numbers.
proof fn lemma_reciprocal(y: int, rest: int, z: int, p: int, q: int, n: int, s: int, e: int)
    requires
        s == 0x10_0000_0000_0000 * e,
        e > 0,
        0 <= n <= 8,
        s <= 514 * y,
        s <= 514 * rest,
        s <= 514 * z,
        -(n * e) <= y - z <= n * e,
        -(e * y) <= p * rest - y * s <= e * y,
        -(e * rest) <= q * z - rest * s <= e * rest,
    ensures
        -((514 * n + 5) * (e * s)) <= p * q - s * s <= (514 * n + 5) * (e * s),
{
    let (a, b): (int, int) = (p * rest - y * s, q * z - rest * s);
    let area: int = rest * z;
    let es: int = e * s;
    let u: int = es * area;
    let d: int = p * q - s * s;
    let ss: int = s * s;
    let gap: int = y - z;
    assert(area > 0) by (nonlinear_arith)
        requires
            area == rest * z,
            rest > 0,
            z > 0,
    ;
    let (m, k): (int, int) = (p * rest, q * z);
    assert(area * (p * q) == m * k) by (nonlinear_arith)
        requires
            area == rest * z,
            m == p * rest,
            k == q * z,
    ;
    let (ys, rs): (int, int) = (y * s, rest * s);
    assert(m * k == ys * rs + a * rs + b * ys + a * b) by (nonlinear_arith)
        requires
            m == ys + a,
            k == rs + b,
    ;
    assert(ys * rs == area * ss + (rest * gap) * ss) by (nonlinear_arith)
        requires
            ys == y * s,
            rs == rest * s,
            area == rest * z,
            gap == y - z,
            ss == s * s,
    ;
    assert(area * d == area * (p * q) - area * ss) by (nonlinear_arith)
        requires
            d == p * q - ss,
    ;
    // How far the second denominator lies off.
    let c: int = 514 * n;
    let es_rest: int = es * rest;
    assert(es_rest > 0) by (nonlinear_arith)
        requires
            es_rest == es * rest,
            es == e * s,
            e > 0,
            s > 0,
            rest > 0,
    ;
    assert((rest * gap) * ss == (rest * s) * (gap * s)) by (nonlinear_arith)
        requires
            ss == s * s,
    ;
    let gs: int = gap * s;
    assert(-(c * (e * z)) <= gs <= c * (e * z)) by (nonlinear_arith)
        requires
            gs == gap * s,
            -(n * e) <= gap <= n * e,
            0 < s <= 514 * z,
            c == 514 * n,
            n >= 0,
            e > 0,
    ;
    assert(-(c * u) <= (rest * s) * gs <= c * u) by (nonlinear_arith)
        requires
            -(c * (e * z)) <= gs <= c * (e * z),
            u == es * area,
            es == e * s,
            area == rest * z,
            rest > 0,
            s > 0,
    ;
    // How far the quotients are.
    assert(n * e <= 8 * e) by (nonlinear_arith)
        requires
            n <= 8,
            e > 0,
    ;
    assert(y <= 2 * z);
    let (ez, er): (int, int) = (e * z, e * rest);
    assert(0 < ez && e * y <= 2 * ez && 0 < er) by (nonlinear_arith)
        requires
            0 < y <= 2 * z,
            ez == e * z,
            er == e * rest,
            rest > 0,
            e > 0,
    ;
    assert(-(2 * u) <= a * rs <= 2 * u) by (nonlinear_arith)
        requires
            -(2 * ez) <= a <= 2 * ez,
            ez == e * z,
            rs == rest * s,
            u == es * area,
            es == e * s,
            area == rest * z,
            rest > 0,
            s > 0,
    ;
    assert(0 < ys <= 2 * (z * s)) by (nonlinear_arith)
        requires
            ys == y * s,
            0 < y <= 2 * z,
            s > 0,
    ;
    assert(-(2 * u) <= b * ys <= 2 * u) by (nonlinear_arith)
        requires
            -er <= b <= er,
            er == e * rest,
            0 < ys <= 2 * (z * s),
            u == es * area,
            es == e * s,
            area == rest * z,
            rest > 0,
            e > 0,
    ;
    assert(-(2 * (ez * er)) <= a * b <= 2 * (ez * er)) by (nonlinear_arith)
        requires
            -(2 * ez) <= a <= 2 * ez,
            -er <= b <= er,
            ez > 0,
            er > 0,
    ;
    assert(2 * (ez * er) <= u) by (nonlinear_arith)
        requires
            ez == e * z,
            er == e * rest,
            u == es * area,
            es == e * s,
            area == rest * z,
            2 * e <= s,
            e > 0,
            area > 0,
    ;
    let f: int = c + 5;
    assert(f * u == c * u + 5 * u) by (nonlinear_arith)
        requires
            f == c + 5,
    ;
    assert(-(f * es) <= d <= f * es) by (nonlinear_arith)
        requires
            -(f * u) <= area * d <= f * u,
            u == es * area,
            area > 0,
    ;
}

/// The logarithms of such quotients are opposite.
pub proof fn lemma_opposite_logs(
    unit: spec_fn(Arith) -> Double,
    y: Double,
    rest: Double,
    z: Double,
    n: int,
)
    requires
        arith::follows_ieee(unit),
        arith::rounds_closely(unit),
        arith::ln_in_shape(unit),
        point(y),
        point(rest),
        point(z),
        0 <= n <= 8,
        -(n * error()) <= y.units() - z.units() <= n * error(),
    ensures
        ({
            let a = unit(Arith::Ln(unit(Arith::Div(y, rest))));
            let b = unit(Arith::Ln(unit(Arith::Div(rest, z))));
            let (s, e) = (double::one().units(), error());
            &&& !a.nan() && -(8 * s) <= a.units() <= 8 * s
            &&& !b.nan() && -(8 * s) <= b.units() <= 8 * s
            &&& -((1028 * n + 74) * e) <= a.units() + b.units() <= (1028 * n + 74) * e
        }),
{
    let (s, e): (int, int) = (double::one().units(), error());
    lemma_error();
    lemma_odds(unit, y, rest);
    lemma_odds(unit, rest, z);
    let (p, q) = (unit(Arith::Div(y, rest)), unit(Arith::Div(rest, z)));
    lemma_reciprocal(y.units(), rest.units(), z.units(), p.units(), q.units(), n, s, e);
    let off: int = p.units() * q.units() - s * s;
    let c: int = 514 * n + 5;
    assert(c * (e * s) <= 4117 * (e * s) && 2 * (4117 * (e * s)) <= s * s) by (nonlinear_arith)
        requires
            c <= 4117,
            8234 * e <= s,
            e > 0,
    ;
    let (a, b): (int, int) = (unit(Arith::Ln(p)).units(), unit(Arith::Ln(q)).units());
    let sum: int = a + b;
    let size: int = if off < 0 {
        -off
    } else {
        off
    };
    assert(0x4000_0000_0000 * (sum * s - 2 * size) <= s * s);
    assert(0x4000_0000_0000 * (-(sum * s) - 2 * size) <= s * s);
    let bound: int = (1028 * n + 74) * e;
    assert(bound == 2 * (c * e) + 64 * e) by (nonlinear_arith)
        requires
            bound == (1028 * n + 74) * e,
            c == 514 * n + 5,
    ;
    assert(-bound <= sum <= bound) by (nonlinear_arith)
        requires
            0x4000_0000_0000 * (sum * s - 2 * size) <= s * s,
            0x4000_0000_0000 * (-(sum * s) - 2 * size) <= s * s,
            size <= c * (e * s),
            bound == 2 * (c * e) + 64 * e,
            s == 0x10_0000_0000_0000 * e,
            e > 0,
    ;
}

/// The inverse of a sigmoid of moderate strength is symmetric: at opposite
/// points its values are opposite.
proof fn lemma_logit_mirror(unit: spec_fn(Arith) -> Double, k: Double, t: Double)
    requires
        arith::follows_ieee(unit),
        arith::rounds_closely(unit),
        arith::exp_in_order(unit),
        arith::exp_in_shape(unit),
        arith::ln_in_shape(unit),
        k.finite(),
        double::power(-27).at_most(k),
        k.units() <= 10 * double::one().units(),
        in_unit(t),
    ensures
        ({
            let a = gamma::logit(unit, k, t);
            let b = gamma::logit(unit, k, unit(Arith::Sub(double::one(), t)));
            let (s, e) = (double::one().units(), error());
            &&& !a.nan() && -(8 * s) <= a.units() <= 8 * s
            &&& !b.nan() && -(8 * s) <= b.units() <= 8 * s
            &&& -(8298 * e) <= a.units() + b.units() <= 8298 * e
        }),
{
    let (zero, one) = (double::zero(), double::one());
    let (s, e): (int, int) = (one.units(), error());
    lemma_error();
    double::lemma_zero_one();
    let low = gamma::sigmoid(unit, k, zero);
    let high = gamma::sigmoid(unit, k, one);
    let span = unit(Arith::Sub(high, low));
    lemma_ends(unit, k);
    // The opposite point, and the one opposite to that.
    let u_op = Arith::Sub(one, t);
    lemma_between(zero, t, one);
    lemma_close(unit, u_op, 1);
    let u = unit(u_op);
    assert(in_unit(u));
    let v_op = Arith::Sub(one, u);
    lemma_close(unit, v_op, 1);
    let v = unit(v_op);
    assert(in_unit(v));
    assert(t.clamped_to_unit() == t && u.clamped_to_unit() == u);
    lemma_point(unit, low, span, t);
    lemma_point(unit, low, span, u);
    lemma_point(unit, low, span, v);
    let y = unit(Arith::Add(low, unit(Arith::Mul(t, span))));
    let rest = unit(Arith::Add(low, unit(Arith::Mul(u, span))));
    let z = unit(Arith::Add(low, unit(Arith::Mul(v, span))));
    let (a, w, b, c): (int, int, int, int) = (low.units(), span.units(), y.units(), z.units());
    let (m, n): (int, int) = (t.units(), v.units());
    assert(-(8 * e) <= b - c <= 8 * e) by (nonlinear_arith)
        requires
            -(3 * e * s) <= (b - a) * s - m * w <= 3 * e * s,
            -(3 * e * s) <= (c - a) * s - n * w <= 3 * e * s,
            -(2 * e) <= m - n <= 2 * e,
            0 <= w <= s,
            s > 0,
            e > 0,
    ;
    lemma_opposite_logs(unit, y, rest, z, 8);
}

/// The ends of the inverse of a sigmoid of moderate strength: what they are
/// computed from, and how far apart they lie.
pub proof fn lemma_logit_span(unit: spec_fn(Arith) -> Double, k: Double)
    requires
        arith::follows_ieee(unit),
        arith::rounds_closely(unit),
        arith::exp_in_order(unit),
        arith::ln_in_order(unit),
        arith::exp_in_shape(unit),
        arith::ln_in_shape(unit),
        k.finite(),
        double::power(-27).at_most(k),
        k.units() <= 10 * double::one().units(),
    ensures
        ({
            let low = gamma::sigmoid(unit, k, double::zero());
            let span = unit(Arith::Sub(gamma::sigmoid(unit, k, double::one()), low));
            let sum = unit(Arith::Add(low, span));
            let start = gamma::logit(unit, k, double::zero());
            let end = gamma::logit(unit, k, double::one());
            let (s, e) = (double::one().units(), error());
            &&& point(low)
            &&& point(sum)
            &&& -(3 * e) <= sum.units() - low.units() - span.units() <= 3 * e
            &&& end == unit(Arith::Ln(unit(Arith::Div(sum, low))))
            &&& !start.nan() && -(8 * s) <= start.units() <= 8 * s
            &&& !end.nan() && 0 <= end.units() <= 8 * s
            &&& -(74 * e) <= start.units() + end.units() <= 74 * e
            &&& span.units() - 120 * e <= end.units()
        }),
{
    let (zero, one) = (double::zero(), double::one());
    let (s, e): (int, int) = (one.units(), error());
    lemma_error();
    double::lemma_zero_one();
    let low = gamma::sigmoid(unit, k, zero);
    let high = gamma::sigmoid(unit, k, one);
    let span = unit(Arith::Sub(high, low));
    lemma_ends(unit, k);
    assert(k.units() > 0) by {
        lemma_power(-27);
    }
    assert(span.units() >= 0);
    lemma_constants();
    lemma_power(-34);
    lemma_sigmoid_ends(unit, k);
    assert(unit(Arith::Mul(zero, span)) == zero);
    assert(unit(Arith::Mul(one, span)) == span);
    assert(unit(Arith::Add(low, zero)) == low);
    assert(unit(Arith::Sub(one, zero)) == one);
    assert(unit(Arith::Sub(one, one)) == zero);
    assert(zero.clamped_to_unit() == zero && one.clamped_to_unit() == one);
    lemma_point(unit, low, span, one);
    let sum = unit(Arith::Add(low, span));
    let (a, w, b): (int, int, int) = (low.units(), span.units(), sum.units());
    assert(-(3 * e) <= b - a - w <= 3 * e) by (nonlinear_arith)
        requires
            -(3 * e * s) <= (b - a) * s - s * w <= 3 * e * s,
            s > 0,
    ;
    lemma_opposite_logs(unit, low, sum, low, 0);
    lemma_odds(unit, sum, low);
    let up = unit(Arith::Div(sum, low));
    let end = unit(Arith::Ln(up));
    let (p, l): (int, int) = (up.units(), end.units());
    assert(unit(Arith::Ln(one)).at_most(end));
    let pl: int = p * a;
    assert((p - s) * s - l * p <= 64 * e * p) by (nonlinear_arith)
        requires
            0x4000_0000_0000 * ((p - s) * s - l * p) <= s * p,
            s == 0x10_0000_0000_0000 * e,
            p >= 0,
    ;
    assert((pl - s * a) * s - l * pl <= 64 * e * pl) by (nonlinear_arith)
        requires
            (p - s) * s - l * p <= 64 * e * p,
            pl == p * a,
            a > 0,
    ;
    assert(w * s - 5 * (e * s) <= pl - s * a && pl <= s * s + 6 * (e * s)) by (nonlinear_arith)
        requires
            -(e * b) <= pl - b * s <= e * b,
            b - a >= w - 3 * e,
            0 < b <= s + 4 * e,
            4 * e <= s,
            s > 0,
            e > 0,
    ;
    assert(w - 120 * e <= l) by (nonlinear_arith)
        requires
            (pl - s * a) * s - l * pl <= 64 * e * pl,
            w * s - 5 * (e * s) <= pl - s * a,
            pl <= s * s + 6 * (e * s),
            0 <= l <= 8 * s,
            s == 0x10_0000_0000_0000 * e,
            e > 0,
    ;
}

/// The strength of a contrast in `[-1, 1]` that is none of the no-ops.
pub proof fn lemma_moderate_strength(unit: spec_fn(Arith) -> Double, amount: Double) -> (k: Double)
    requires
        arith::follows_ieee(unit),
        arith::rounds_closely(unit),
        double::one().negated().at_most(amount),
        amount.at_most(double::one()),
        !amount.absolute().below(Double { bits: gamma::NO_CONTRAST_BITS }),
    ensures
        k.finite(),
        double::power(-27).at_most(k),
        k.units() <= 10 * double::one().units(),
        10 * amount.absolute().units() - 10 * error() <= k.units() <= 10
            * amount.absolute().units() + 10 * error(),
        0x40_0000 * error() <= amount.absolute().units() <= double::one().units(),
        amount.below(double::zero()) ==> k == gamma::inverse_strength(unit, amount),
        !amount.below(double::zero()) ==> k == unit(
            Arith::Mul(amount, Double { bits: gamma::TEN_BITS }),
        ),
{
    let ten = Double { bits: gamma::TEN_BITS };
    let (zero, one) = (double::zero(), double::one());
    let (s, e): (int, int) = (one.units(), error());
    lemma_constants();
    lemma_error();
    double::lemma_zero_one();
    lemma_infinity(one);
    lemma_between(one.negated(), amount, one);
    lemma_infinity(amount);
    law_documented_contrast(unit, amount);
    let k = lemma_strength(unit, amount);
    let size = amount.absolute();
    double::lemma_key_order(amount, zero);
    assert(size == if amount.below(zero) {
        amount.negated()
    } else {
        amount
    });
    assert(in_unit(size));
    let op = Arith::Mul(size, ten);
    lemma_mul_unit(unit, size, ten);
    let a: int = size.units();
    assert(arith::exact(op) == (a * (10 * s), s));
    assert(0 <= a * (10 * s) <= 10 * s * s) by (nonlinear_arith)
        requires
            0 <= a <= s,
    ;
    lemma_close(unit, op, 10);
    let r: int = unit(op).units();
    assert(10 * a - 10 * e <= r <= 10 * a + 10 * e) by (nonlinear_arith)
        requires
            -(10 * e * s) <= r * s - a * (10 * s) <= 10 * e * s,
            s > 0,
    ;
    double::lemma_clamp(unit(op), zero, Double { bits: gamma::MAX_STRENGTH_BITS });
    assert(k == unit(op));
    k
}

/// The rise of a contrast curve from 0 to 1 is at least three fifths of the
/// amount, for amounts in `[-1, 1]`.
pub proof fn law_contrast_rise(unit: spec_fn(Arith) -> Double, amount: Double)
    requires
        arith::follows_ieee(unit),
        arith::rounds_closely(unit),
        arith::exp_in_order(unit),
        arith::ln_in_order(unit),
        arith::exp_in_shape(unit),
        arith::ln_in_shape(unit),
        double::one().negated().at_most(amount),
        amount.at_most(double::one()),
        !amount.absolute().below(Double { bits: gamma::NO_CONTRAST_BITS }),
    ensures
        ({
            let low = gamma::contrast_curve(unit, amount, double::zero());
            let high = gamma::contrast_curve(unit, amount, double::one());
            3 * amount.absolute().units() <= 5 * unit(Arith::Sub(high, low)).units()
        }),
{
    lemma_error();
    let k = lemma_moderate_strength(unit, amount);
    let low = gamma::contrast_curve(unit, amount, double::zero());
    let high = gamma::contrast_curve(unit, amount, double::one());
    lemma_ends(unit, k);
    if amount.below(double::zero()) {
        lemma_logit_span(unit, k);
        lemma_finite_log(low);
        lemma_finite_log(high);
        lemma_close(unit, Arith::Sub(high, low), 16);
    }
}

/// A number of moderate size is finite.
proof fn lemma_finite_log(d: Double)
    requires
        !d.nan(),
        -(8 * double::one().units()) <= d.units() <= 8 * double::one().units(),
    ensures
        d.finite(),
{
    lemma_power(0);
    lemma_power(4);
    lemma2_to64();
    lemma_pow2_adds(1074, 4);
    assert(double::power(0) == double::one());
    lemma_infinity(d);
    lemma_infinity(double::power(4));
}

/// Two quotients whose numerators add up to their denominator, up to some
/// errors, add up to 1 that closely.
proof fn lemma_quotients(unit: spec_fn(Arith) -> Double, a: Double, b: Double, span: Double)
    requires
        arith::follows_ieee(unit),
        arith::rounds_closely(unit),
        a.finite(),
        b.finite(),
        span.finite(),
        0 <= a.units() <= span.units(),
        0 <= b.units() <= span.units(),
        0 < span.units() <= 32 * double::one().units(),
        -(8420 * error()) <= a.units() + b.units() - span.units() <= 8420 * error(),
    ensures
        ({
            let x = unit(Arith::Div(a, span)).clamped_to_unit();
            let y = unit(Arith::Div(b, span)).clamped_to_unit();
            let s = double::one().units();
            &&& in_unit(x)
            &&& in_unit(y)
            &&& -(8484 * (error() * s)) <= (x.units() + y.units() - s) * span.units() <= 8484 * (
            error() * s)
        }),
{
    let (zero, one) = (double::zero(), double::one());
    let (s, e): (int, int) = (one.units(), error());
    let (m, n, w): (int, int, int) = (a.units(), b.units(), span.units());
    lemma_error();
    double::lemma_zero_one();
    let (p_op, q_op) = (Arith::Div(a, span), Arith::Div(b, span));
    assert(arith::exact(p_op) == (m * s, w));
    assert(arith::exact(q_op) == (n * s, w));
    assert(0 <= m * s <= 1 * s * w && 0 <= n * s <= 1 * s * w && 0 * w == 0) by (nonlinear_arith)
        requires
            0 <= m <= w,
            0 <= n <= w,
            s > 0,
    ;
    lemma_close(unit, p_op, 1);
    lemma_close(unit, q_op, 1);
    lemma_at_least(unit, p_op, zero);
    lemma_at_least(unit, q_op, zero);
    lemma_at_most(unit, p_op, one);
    lemma_at_most(unit, q_op, one);
    let (p, q): (int, int) = (unit(p_op).units(), unit(q_op).units());
    let d: int = m + n - w;
    let (f, g): (int, int) = (p * w - m * s, q * w - n * s);
    assert((p + q - s) * w == f + g + s * d) by (nonlinear_arith)
        requires
            d == m + n - w,
            f == p * w - m * s,
            g == q * w - n * s,
    ;
    let es: int = e * s;
    assert(1 * e * w <= 32 * es) by (nonlinear_arith)
        requires
            0 < w <= 32 * s,
            es == e * s,
            e > 0,
    ;
    assert(-(8420 * es) <= s * d <= 8420 * es) by (nonlinear_arith)
        requires
            -(8420 * e) <= d <= 8420 * e,
            es == e * s,
            s > 0,
    ;
}

/// A distance that is bounded over the rise of a curve is bounded over the
/// amount.
pub proof fn lemma_over_amount(off: int, span: int, amount: int, bound: int, s: int)
    requires
        off * span <= bound * (error() * s),
        3 * amount <= 5 * span,
        amount >= 0,
        bound >= 0,
        s > 0,
    ensures
        3 * (off * amount) <= 5 * (bound * (error() * s)),
{
    let e: int = error();
    lemma_error();
    assert(0 <= bound * (e * s)) by (nonlinear_arith)
        requires
            bound >= 0,
            e > 0,
            s > 0,
    ;
    if off > 0 {
        assert(off * (3 * amount) <= off * (5 * span)) by (nonlinear_arith)
            requires
                3 * amount <= 5 * span,
                off > 0,
        ;
        assert(off * (3 * amount) == 3 * (off * amount) && off * (5 * span) == 5 * (off * span))
            by (nonlinear_arith);
    } else {
        assert(off * amount <= 0) by (nonlinear_arith)
            requires
                off <= 0,
                amount >= 0,
        ;
    }
}

/// A distance that is bounded over the amount is below one in 10 to the power
/// 9, from an amount of a hundredth on.
pub proof fn lemma_absolute(off: int, amount: int)
    requires
        off * amount <= 0x9000 * (error() * double::one().units()),
        double::one().units() <= 100 * amount,
    ensures
        1_000_000_000 * off <= double::one().units(),
{
    let (s, e): (int, int) = (double::one().units(), error());
    lemma_error();
    assert(1_000_000_000 * off <= s) by (nonlinear_arith)
        requires
            off * amount <= 0x9000 * (e * s),
            s <= 100 * amount,
            s == 0x10_0000_0000_0000 * e,
            e > 0,
    ;
}

/// Contrast is symmetric, for every amount in `[-1, 1]`: opposite inputs give
/// opposite outputs, up to rounding. What the two outputs add up to lies off 1
/// by no more than 2 to the power -38 over the amount; from an amount of a
/// hundredth on, that is less than one in 10 to the power 9.
pub proof fn law_contrast_symmetry(unit: spec_fn(Arith) -> Double, t: Double, amount: Double)
    requires
        arith::follows_ieee(unit),
        arith::rounds_closely(unit),
        arith::exp_in_order(unit),
        arith::ln_in_order(unit),
        arith::exp_in_shape(unit),
        arith::ln_in_shape(unit),
        in_unit(t),
        double::one().negated().at_most(amount),
        amount.at_most(double::one()),
    ensures
        ({
            let u = unit(Arith::Sub(double::one(), t));
            let (x, y) = (gamma::contrasted(unit, t, amount), gamma::contrasted(unit, u, amount));
            let (s, size) = (double::one().units(), amount.absolute().units());
            let off = x.units() + y.units() - s;
            &&& in_unit(x)
            &&& in_unit(y)
            &&& -(0x4000 * (error() * s)) <= off * size <= 0x4000 * (error() * s)
            &&& s <= 100 * size ==> -s <= 1_000_000_000 * off <= s
        }),
{
    let (zero, one) = (double::zero(), double::one());
    let (s, e): (int, int) = (one.units(), error());
    let size: int = amount.absolute().units();
    lemma_constants();
    lemma_error();
    double::lemma_zero_one();
    lemma_infinity(one);
    lemma_between(one.negated(), amount, one);
    lemma_between(zero, t, one);
    lemma_infinity(amount);
    double::lemma_key_order(amount.absolute(), zero);
    let u_op = Arith::Sub(one, t);
    lemma_close(unit, u_op, 1);
    let u = unit(u_op);
    assert(in_unit(u));
    let off: int = gamma::contrasted(unit, t, amount).units() + gamma::contrasted(
        unit,
        u,
        amount,
    ).units() - s;
    if amount.absolute().below(Double { bits: gamma::NO_CONTRAST_BITS }) {
        lemma_no_contrast(amount);
        assert(-(0x4000 * (e * s)) <= off * size <= 0x4000 * (e * s)) by (nonlinear_arith)
            requires
                -e <= off <= e,
                0 <= size <= s,
        ;
    } else {
        law_documented_contrast(unit, amount);
        lemma_contrast_curve(unit, amount, zero, t);
        lemma_contrast_curve(unit, amount, zero, u);
        lemma_contrast_curve(unit, amount, t, one);
        lemma_contrast_curve(unit, amount, u, one);
        let k = lemma_moderate_strength(unit, amount);
        lemma_power(-27);
        let low = gamma::contrast_curve(unit, amount, zero);
        let high = gamma::contrast_curve(unit, amount, one);
        let (f, g) = (
            gamma::contrast_curve(unit, amount, t),
            gamma::contrast_curve(unit, amount, u),
        );
        let span_op = Arith::Sub(high, low);
        let (f_op, g_op) = (Arith::Sub(f, low), Arith::Sub(g, low));
        if amount.below(zero) {
            lemma_logit_mirror(unit, k, t);
            lemma_logit_span(unit, k);
            lemma_close(unit, span_op, 16);
            lemma_close(unit, f_op, 16);
            lemma_close(unit, g_op, 16);
        } else {
            lemma_sigmoid_mirror(unit, k, t, u);
            lemma_sigmoid_mirror(unit, k, zero, one);
            lemma_sigmoid_order(unit, k, zero, one);
            lemma_sigmoid_order(unit, k, t, t);
            lemma_sigmoid_order(unit, k, u, u);
            lemma_close(unit, span_op, 1);
            lemma_close(unit, f_op, 1);
            lemma_close(unit, g_op, 1);
        }
        lemma_whole_bounds(unit, f_op, zero);
        lemma_whole_bounds(unit, g_op, zero);
        lemma_add_order(unit, f, high, low);
        lemma_add_order(unit, g, high, low);
        lemma_quotients(unit, unit(f_op), unit(g_op), unit(span_op));
        law_contrast_rise(unit, amount);
        let w: int = unit(span_op).units();
        assert((-off) * w == -(off * w) && (-off) * size == -(off * size)) by (nonlinear_arith);
        lemma_over_amount(off, w, size, 8484, s);
        lemma_over_amount(-off, w, size, 8484, s);
        assert(e * s > 0) by (nonlinear_arith)
            requires
                e > 0,
                s > 0,
        ;
        if s <= 100 * size {
            lemma_absolute(off, size);
            lemma_absolute(-off, size);
        }
    }
}

/// An amount that counts as no contrast is far below a hundredth.
pub proof fn lemma_no_contrast(amount: Double)
    requires
        !amount.nan(),
        amount.absolute().below(Double { bits: gamma::NO_CONTRAST_BITS }),
    ensures
        0 <= amount.absolute().units(),
        0x1000_0000 * amount.absolute().units() <= double::one().units(),
{
    let size = amount.absolute();
    let bound = double::power(-29);
    lemma_power(-29);
    lemma_power(0);
    lemma2_to64();
    lemma_pow2_adds(1045, 29);
    assert(double::power(0) == double::one());
    double::lemma_key_order(Double { bits: gamma::NO_CONTRAST_BITS }, bound);
    double::lemma_key_order(size, double::zero());
}

/// The middle stays where it is under every amount of contrast in `[-1, 1]`,
/// up to rounding: it lies off a half by no more than 2 to the power -39 over
/// the amount; from an amount of a hundredth on, that is less than one in 10 to
/// the power 9.
pub proof fn law_contrast_keeps_middle(unit: spec_fn(Arith) -> Double, amount: Double)
    requires
        arith::follows_ieee(unit),
        arith::rounds_closely(unit),
        arith::exp_in_order(unit),
        arith::ln_in_order(unit),
        arith::exp_in_shape(unit),
        arith::ln_in_shape(unit),
        double::one().negated().at_most(amount),
        amount.at_most(double::one()),
    ensures
        ({
            let half = Double { bits: gamma::HALF_BITS };
            let middle = gamma::contrasted(unit, half, amount);
            let (s, size) = (double::one().units(), amount.absolute().units());
            let off = 2 * (middle.units() - half.units());
            &&& in_unit(middle)
            &&& -(0x4000 * (error() * s)) <= off * size <= 0x4000 * (error() * s)
            &&& s <= 100 * size ==> -s <= 1_000_000_000 * off <= s
        }),
{
    let half = Double { bits: gamma::HALF_BITS };
    let one = double::one();
    lemma_constants();
    double::lemma_zero_one();
    assert(in_unit(half));
    lemma_whole_bounds(unit, Arith::Sub(one, half), half);
    double::lemma_key_order(unit(Arith::Sub(one, half)), half);
    double::lemma_key_order(half, unit(Arith::Sub(one, half)));
    law_contrast_symmetry(unit, half, amount);
}

} // verus!
