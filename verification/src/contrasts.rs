//! What contrast gives, as a number.

use vstd::prelude::*;
use crate::arith;
use crate::arith::Arith;
use crate::closeness::{error, lemma_close, lemma_error};
use crate::curves::lemma_contrast_curve;
use crate::double;
use crate::double::{in_unit, Double};
use crate::gamma;
use crate::order::law_documented_contrast;
use crate::rounding::{
    lemma_add_order, lemma_at_least, lemma_at_most, lemma_between, lemma_constants, lemma_infinity,
    lemma_power, lemma_whole_bounds,
};
use crate::symmetry::{
    lemma_ends, lemma_logit_span, lemma_moderate_strength, lemma_odds, lemma_opposite_logs,
    lemma_point, lemma_sigmoid_span, lemma_sigmoid_value,
};

verus! {

/// The quotient of rise and span in terms of the exponentials, over whole
/// numbers: `value` and `low` are the shares that belong to `a` and `b`.
proof fn lemma_sigmoid_quotient(
    c: int,
    r: int,
    w: int,
    value: int,
    low: int,
    a: int,
    b: int,
    s: int,
    e: int,
)
    requires
        s > 0,
        e > 0,
        a >= 0,
        b >= 0,
        0 <= c <= s,
        0 <= w <= s,
        -(3 * e * (s + a)) <= value * (s + a) - s * s <= 3 * e * (s + a),
        -(3 * e * (s + b)) <= low * (s + b) - s * s <= 3 * e * (s + b),
        -(135 * e) <= w - (s - 2 * low) <= 135 * e,
        -e <= r - (value - low) <= e,
        -(e * w) <= c * w - r * s <= e * w,
    ensures
        -(150 * (e * ((a + s) * (b + s)))) <= c * ((a + s) * (b - s)) - (s * s) * (b - a) <= 150 * (
        e * ((a + s) * (b + s))),
{
    let (x, y): (int, int) = (a + s, b + s);
    let (p, q): (int, int) = (value * x - s * s, low * y - s * s);
    let area: int = x * y;
    let (es, ea, ss): (int, int, int) = (e * s, e * area, s * s);
    let n: int = s - 2 * low;
    let gap: int = value - low;
    assert(area > 0) by (nonlinear_arith)
        requires
            area == x * y,
            x > 0,
            y > 0,
    ;
    // The quotient.
    let off: int = c * n - gap * s;
    assert(-(137 * es) <= off <= 137 * es) by {
        let (cw, d, f): (int, int, int) = (c * w, c * (n - w), (r - gap) * s);
        assert(c * n == cw + d && r * s == gap * s + f) by (nonlinear_arith)
            requires
                cw == c * w,
                d == c * (n - w),
                f == (r - gap) * s,
        ;
        assert(-(135 * es) <= d <= 135 * es && -es <= f <= es && 0 <= e * w <= es)
            by (nonlinear_arith)
            requires
                d == c * (n - w),
                f == (r - gap) * s,
                es == e * s,
                0 <= c <= s,
                0 <= w <= s,
                -(135 * e) <= w - n <= 135 * e,
                -e <= r - gap <= e,
                e > 0,
                s > 0,
        ;
    }
    // In terms of the exponentials.
    assert(gap * area == ss * (b - a) + p * y - q * x) by (nonlinear_arith)
        requires
            gap == value - low,
            area == x * y,
            p == value * x - ss,
            q == low * y - ss,
            y - x == b - a,
    ;
    assert(n * y == s * (b - s) - 2 * q) by (nonlinear_arith)
        requires
            n == s - 2 * low,
            q == low * y - ss,
            ss == s * s,
            y == b + s,
    ;
    let goal: int = c * (x * (b - s)) - ss * (b - a);
    let (cx, py, qx): (int, int, int) = (c * x, p * y, q * x);
    assert((c * n) * area == cx * (n * y)) by (nonlinear_arith)
        requires
            cx == c * x,
            area == x * y,
    ;
    let bs: int = b - s;
    assert(cx * (s * bs - 2 * q) == s * (c * (x * bs)) - 2 * (cx * q)) by (nonlinear_arith)
        requires
            cx == c * x,
    ;
    assert((gap * s) * area == s * (gap * area)) by (nonlinear_arith);
    assert(off * area == (c * n) * area - (gap * s) * area) by (nonlinear_arith)
        requires
            off == c * n - gap * s,
    ;
    let (u, v): (int, int) = (c * (x * bs), ss * (b - a));
    assert(s * (v + py - qx) == s * v + s * py - s * qx && s * goal == s * u - s * v)
        by (nonlinear_arith)
        requires
            goal == u - v,
    ;
    assert(s * goal == off * area + 2 * (cx * q) + s * py - s * qx);
    assert(-(137 * (s * ea)) <= off * area <= 137 * (s * ea)) by (nonlinear_arith)
        requires
            -(137 * es) <= off <= 137 * es,
            es == e * s,
            ea == e * area,
            area > 0,
    ;
    assert(-(3 * (s * ea)) <= cx * q <= 3 * (s * ea)) by (nonlinear_arith)
        requires
            -(3 * e * y) <= q <= 3 * e * y,
            cx == c * x,
            0 <= c <= s,
            ea == e * area,
            area == x * y,
            x > 0,
            y > 0,
            e > 0,
    ;
    assert(-(3 * ea) <= py <= 3 * ea) by (nonlinear_arith)
        requires
            -(3 * e * x) <= p <= 3 * e * x,
            py == p * y,
            ea == e * area,
            area == x * y,
            y > 0,
    ;
    assert(-(3 * ea) <= qx <= 3 * ea) by (nonlinear_arith)
        requires
            -(3 * e * y) <= q <= 3 * e * y,
            qx == q * x,
            ea == e * area,
            area == x * y,
            x > 0,
    ;
    assert(-(150 * ea) <= goal <= 150 * ea) by (nonlinear_arith)
        requires
            s * goal == off * area + 2 * (cx * q) + s * py - s * qx,
            -(137 * (s * ea)) <= off * area <= 137 * (s * ea),
            -(3 * (s * ea)) <= cx * q <= 3 * (s * ea),
            -(3 * ea) <= py <= 3 * ea,
            -(3 * ea) <= qx <= 3 * ea,
            s > 0,
    ;
}

/// Contrast by a positive amount is the sigmoid of ten times the amount,
/// stretched so that its ends lie at 0 and 1: with `A = exp(10 * amount * (0.5 -
/// t))` and `B = exp(5 * amount)` it gives `(B - A) / ((A + 1) (B - 1))`, up to
/// rounding.
pub proof fn law_positive_contrast_value(unit: spec_fn(Arith) -> Double, t: Double, amount: Double)
    requires
        arith::follows_ieee(unit),
        arith::rounds_closely(unit),
        arith::exp_in_order(unit),
        arith::ln_in_order(unit),
        arith::exp_in_shape(unit),
        in_unit(t),
        double::zero().at_most(amount),
        amount.at_most(double::one()),
        !amount.absolute().below(Double { bits: 0x3E11_2E0B_E826_D695 }),
    ensures
        exists|u: Double, v: Double|
            {
                let (s, e) = (double::one().units(), error());
                let (a, b) = (
                    (#[trigger] unit(Arith::Exp(u))).units(),
                    (#[trigger] unit(Arith::Exp(v))).units(),
                );
                let c = gamma::contrasted(unit, t, amount).units();
                let (x, y) = (t.units(), amount.units());
                &&& -(128 * (e * s)) <= 2 * (u.units() * s) - 10 * (y * (s - 2 * x)) <= 128 * (e
                    * s)
                &&& -(64 * e) <= v.units() - 5 * y <= 64 * e
                &&& -(150 * (e * ((a + s) * (b + s)))) <= c * ((a + s) * (b - s)) - (s * s) * (b
                    - a) <= 150 * (e * ((a + s) * (b + s)))
            },
{
    let half = Double { bits: gamma::HALF_BITS };
    let (zero, one) = (double::zero(), double::one());
    let (h, s, e): (int, int, int) = (half.units(), one.units(), error());
    lemma_constants();
    lemma_error();
    double::lemma_zero_one();
    lemma_infinity(one);
    lemma_between(zero, t, one);
    law_documented_contrast(unit, amount);
    let k = lemma_moderate_strength(unit, amount);
    lemma_power(-27);
    let (u, g) = lemma_sigmoid_value(unit, k, t);
    let (v, f) = lemma_sigmoid_value(unit, k, zero);
    lemma_sigmoid_span(unit, k);
    lemma_ends(unit, k);
    lemma_contrast_curve(unit, amount, zero, t);
    lemma_contrast_curve(unit, amount, t, one);
    let low = gamma::sigmoid(unit, k, zero);
    let high = gamma::sigmoid(unit, k, one);
    let value = gamma::sigmoid(unit, k, t);
    let (span_op, rise_op) = (Arith::Sub(high, low), Arith::Sub(value, low));
    let (x, y, kk): (int, int, int) = (t.units(), amount.units(), k.units());
    assert(amount.absolute().units() == y) by {
        double::law_signs(amount);
    }
    // The operands.
    lemma_operand_of_amount(u.units(), x, y, kk, h, s, e);
    lemma_operand_of_amount(v.units(), 0, y, kk, h, s, e);
    let vu: int = v.units();
    assert(-(64 * e) <= vu - 5 * y <= 64 * e) by (nonlinear_arith)
        requires
            -(128 * (e * s)) <= 2 * (vu * s) - 10 * (y * (s - 2 * 0)) <= 128 * (e * s),
            s > 0,
    ;
    // The quotient.
    lemma_close(unit, rise_op, 1);
    lemma_whole_bounds(unit, rise_op, zero);
    lemma_add_order(unit, value, high, low);
    let (r, w): (int, int) = (unit(rise_op).units(), unit(span_op).units());
    let op = Arith::Div(unit(rise_op), unit(span_op));
    assert(arith::exact(op) == (r * s, w));
    assert(0 <= r * s <= 1 * s * w && 0 * w == 0 && 1 * e * w == e * w) by (nonlinear_arith)
        requires
            0 <= r <= w,
            s > 0,
    ;
    lemma_close(unit, op, 1);
    lemma_at_least(unit, op, zero);
    lemma_at_most(unit, op, one);
    let c: int = gamma::contrasted(unit, t, amount).units();
    lemma_sigmoid_quotient(c, r, w, value.units(), low.units(), g.units(), f.units(), s, e);
    assert(g == unit(Arith::Exp(u)) && f == unit(Arith::Exp(v)));
}

/// The operand of the exponential function in terms of the amount, over whole
/// numbers.
proof fn lemma_operand_of_amount(u: int, x: int, y: int, k: int, h: int, s: int, e: int)
    requires
        2 * h == s,
        s > 0,
        e > 0,
        0 <= x <= s,
        0 < k <= 10 * s,
        -(10 * e) <= k - 10 * y <= 10 * e,
        -(2 * e * k) <= u * s - k * (h - x) <= 2 * e * k,
    ensures
        -(128 * (e * s)) <= 2 * (u * s) - 10 * (y * (s - 2 * x)) <= 128 * (e * s),
{
    let es: int = e * s;
    let z: int = s - 2 * x;
    assert(2 * (k * (h - x)) == k * z) by (nonlinear_arith)
        requires
            z == s - 2 * x,
            2 * h == s,
    ;
    let d: int = k - 10 * y;
    assert(k * z == 10 * (y * z) + d * z && -(10 * es) <= d * z <= 10 * es && 2 * e * k <= 20 * es)
        by (nonlinear_arith)
        requires
            d == k - 10 * y,
            -(10 * e) <= d <= 10 * e,
            -s <= z <= s,
            0 < k <= 10 * s,
            es == e * s,
            e > 0,
            s > 0,
    ;
}

/// The operands of the logarithms in terms of the exponential, over whole
/// numbers: `low` is the share that belongs to `b`.
proof fn lemma_odds_of_amount(
    o: int,
    q: int,
    y: int,
    rest: int,
    low: int,
    sum: int,
    w: int,
    b: int,
    t: int,
    v: int,
    s: int,
    e: int,
)
    requires
        s > 0,
        e > 0,
        4 * e <= s,
        b >= 0,
        0 <= o <= 1024 * s,
        0 <= q <= 1024 * s,
        0 <= t <= s,
        0 <= w <= s,
        0 < y <= s + 4 * e,
        0 < sum <= s + 4 * e,
        -e <= v - (s - t) <= e,
        -(3 * e * (s + b)) <= low * (s + b) - s * s <= 3 * e * (s + b),
        -(135 * e) <= 2 * low + w - s <= 135 * e,
        -(3 * e * s) <= (y - low) * s - t * w <= 3 * e * s,
        -(3 * e * s) <= (rest - low) * s - v * w <= 3 * e * s,
        -(3 * e) <= sum - low - w <= 3 * e,
        -(e * y) <= o * rest - y * s <= e * y,
        -(e * sum) <= q * low - sum * s <= e * sum,
    ensures
        -(4096 * (e * (b + s))) <= (q - b) * s <= 4096 * (e * (b + s)),
        -(0x4_0000 * ((e * s) * (b + s))) <= o * (s * b - t * (b - s)) - s * (s * s + t * (b - s))
            <= 0x4_0000 * ((e * s) * (b + s)),
{
    let z: int = b + s;
    let (ez, es, ss): (int, int, int) = (e * z, e * s, s * s);
    let (f, g): (int, int) = (low * z - ss, 2 * low + w - s);
    assert(-(3 * ez) <= f <= 3 * ez && ez > 0) by (nonlinear_arith)
        requires
            -(3 * e * z) <= f <= 3 * e * z,
            ez == e * z,
            e > 0,
            z > 0,
    ;
    // The span, times z.
    let wz: int = w * z;
    assert(-(141 * ez) <= wz - s * (b - s) <= 141 * ez) by {
        assert(wz == s * z - 2 * (low * z) + g * z) by (nonlinear_arith)
            requires
                wz == w * z,
                g == 2 * low + w - s,
        ;
        assert(-(135 * ez) <= g * z <= 135 * ez) by (nonlinear_arith)
            requires
                -(135 * e) <= g <= 135 * e,
                ez == e * z,
                z > 0,
        ;
        assert(s * z - 2 * ss == s * (b - s)) by (nonlinear_arith)
            requires
                z == b + s,
                ss == s * s,
        ;
    }
    // The last quotient.
    let sz: int = sum * z;
    let k: int = sum - low - w;
    assert(sz == low * z + wz + k * z && -(3 * ez) <= k * z <= 3 * ez) by (nonlinear_arith)
        requires
            sz == sum * z,
            wz == w * z,
            k == sum - low - w,
            -(3 * e) <= k <= 3 * e,
            ez == e * z,
            z > 0,
    ;
    assert(ss + s * (b - s) == s * b) by (nonlinear_arith)
        requires
            ss == s * s,
    ;
    assert(-(147 * ez) <= sz - s * b <= 147 * ez);
    let d: int = q * low - sum * s;
    assert(-(2 * (s * ez)) <= d * z <= 2 * (s * ez)) by (nonlinear_arith)
        requires
            -(e * sum) <= d <= e * sum,
            0 < sum <= 2 * s,
            ez == e * z,
            z > 0,
            e > 0,
    ;
    let (i, j): (int, int) = (sz - s * b, q - b);
    let lz: int = low * z;
    assert(d * z == q * lz - s * sz) by (nonlinear_arith)
        requires
            d == q * low - sum * s,
            lz == low * z,
            sz == sum * z,
    ;
    let sb: int = s * b;
    assert(q * lz == q * f + q * ss && s * sz == s * sb + s * i) by (nonlinear_arith)
        requires
            f == lz - ss,
            i == sz - sb,
    ;
    assert(q * ss - s * (s * b) == s * (j * s)) by (nonlinear_arith)
        requires
            ss == s * s,
            j == q - b,
    ;
    assert(-(3072 * (s * ez)) <= q * f <= 3072 * (s * ez)) by (nonlinear_arith)
        requires
            -(3 * ez) <= f <= 3 * ez,
            0 <= q <= 1024 * s,
            ez > 0,
    ;
    assert(-(147 * (s * ez)) <= s * i <= 147 * (s * ez)) by (nonlinear_arith)
        requires
            -(147 * ez) <= i <= 147 * ez,
            s > 0,
    ;
    assert(-(4096 * ez) <= j * s <= 4096 * ez) by (nonlinear_arith)
        requires
            -(4096 * (s * ez)) <= s * (j * s) <= 4096 * (s * ez),
            s > 0,
    ;
    // The points, times z.
    let (p, r): (int, int) = (ss + t * (b - s), s * b - t * (b - s));
    lemma_point_of_amount(y, low, w, b, t, t, s, e);
    lemma_point_of_amount(rest, low, w, b, v, s - t, s, e);
    assert(ss + (s - t) * (b - s) == r) by (nonlinear_arith)
        requires
            ss == s * s,
            r == s * b - t * (b - s),
    ;
    let (yz, rz): (int, int) = (y * z, rest * z);
    let l: int = o * rest - y * s;
    assert(-(2 * (s * ez)) <= l * z <= 2 * (s * ez)) by (nonlinear_arith)
        requires
            -(e * y) <= l <= e * y,
            0 < y <= 2 * s,
            ez == e * z,
            z > 0,
            e > 0,
    ;
    let (m, n): (int, int) = (yz - p, rz - r);
    assert(l * z == (o * r - s * p) + o * n - s * m) by (nonlinear_arith)
        requires
            l == o * rest - y * s,
            yz == y * z,
            rz == rest * z,
            m == yz - p,
            n == rz - r,
    ;
    assert(-(160 * (1024 * (s * ez))) <= o * n <= 160 * (1024 * (s * ez))) by (nonlinear_arith)
        requires
            -(160 * ez) <= n <= 160 * ez,
            0 <= o <= 1024 * s,
            ez > 0,
    ;
    assert(-(160 * (s * ez)) <= s * m <= 160 * (s * ez)) by (nonlinear_arith)
        requires
            -(160 * ez) <= m <= 160 * ez,
            s > 0,
    ;
    assert(s * ez == es * z) by (nonlinear_arith)
        requires
            ez == e * z,
            es == e * s,
    ;
}

/// A point between the ends of the sigmoid, times `b + s`, over whole numbers.
proof fn lemma_point_of_amount(
    y: int,
    low: int,
    w: int,
    b: int,
    x: int,
    exact: int,
    s: int,
    e: int,
)
    requires
        s > 0,
        e > 0,
        b >= 0,
        0 <= exact <= s,
        0 <= w <= s,
        -e <= x - exact <= e,
        -(3 * e * (s + b)) <= low * (s + b) - s * s <= 3 * e * (s + b),
        -(135 * e) <= 2 * low + w - s <= 135 * e,
        -(3 * e * s) <= (y - low) * s - x * w <= 3 * e * s,
    ensures
        -(160 * (e * (b + s))) <= y * (b + s) - (s * s + exact * (b - s)) <= 160 * (e * (b + s)),
{
    let z: int = b + s;
    let (ez, ss): (int, int) = (e * z, s * s);
    let (f, g): (int, int) = (low * z - ss, 2 * low + w - s);
    assert(-(3 * ez) <= f <= 3 * ez && ez > 0) by (nonlinear_arith)
        requires
            -(3 * e * z) <= f <= 3 * e * z,
            ez == e * z,
            e > 0,
            z > 0,
    ;
    let wz: int = w * z;
    let bs: int = b - s;
    assert(wz == s * bs - 2 * f + g * z) by (nonlinear_arith)
        requires
            wz == w * z,
            g == 2 * low + w - s,
            f == low * z - ss,
            ss == s * s,
            bs == b - s,
            z == b + s,
    ;
    assert(-(135 * ez) <= g * z <= 135 * ez) by (nonlinear_arith)
        requires
            -(135 * e) <= g <= 135 * e,
            ez == e * z,
            z > 0,
    ;
    let h: int = wz - s * bs;
    let d: int = (y - low) * s - x * w;
    let goal: int = y * z - (ss + exact * bs);
    // In parts: s * goal == d * z + (x - exact) * wz + exact * h + s * f.
    assert(s * (y * z) == d * z + x * wz + s * (low * z)) by (nonlinear_arith)
        requires
            d == (y - low) * s - x * w,
            wz == w * z,
    ;
    let i: int = x - exact;
    assert(x * wz == i * wz + exact * h + s * (exact * bs)) by (nonlinear_arith)
        requires
            i == x - exact,
            h == wz - s * bs,
    ;
    assert(s * goal == s * (y * z) - s * ss - s * (exact * bs)) by (nonlinear_arith)
        requires
            goal == y * z - (ss + exact * bs),
    ;
    assert(s * (low * z) == s * f + s * ss) by (nonlinear_arith)
        requires
            f == low * z - ss,
    ;
    let sez: int = s * ez;
    assert(-(3 * sez) <= d * z <= 3 * sez) by (nonlinear_arith)
        requires
            -(3 * e * s) <= d <= 3 * e * s,
            sez == s * ez,
            ez == e * z,
            z > 0,
    ;
    assert(-sez <= i * wz <= sez) by (nonlinear_arith)
        requires
            -e <= i <= e,
            wz == w * z,
            0 <= w <= s,
            sez == s * ez,
            ez == e * z,
            z > 0,
            e > 0,
    ;
    assert(-(141 * sez) <= exact * h <= 141 * sez) by (nonlinear_arith)
        requires
            -(141 * ez) <= h <= 141 * ez,
            0 <= exact <= s,
            sez == s * ez,
            ez > 0,
    ;
    assert(-(3 * sez) <= s * f <= 3 * sez) by (nonlinear_arith)
        requires
            -(3 * ez) <= f <= 3 * ez,
            sez == s * ez,
            s > 0,
    ;
    assert(-(160 * ez) <= goal <= 160 * ez) by (nonlinear_arith)
        requires
            -(160 * sez) <= s * goal <= 160 * sez,
            sez == s * ez,
            s > 0,
    ;
}

/// Contrast by a negative amount is the inverse of that sigmoid: with `B =
/// exp(5 * -amount)` and the odds `o = (1 + t (B - 1)) / (B - t (B - 1))` it
/// gives `(ln o + ln B) / (2 ln B)`, up to rounding.
#[verifier::rlimit(40)]
pub proof fn law_negative_contrast_value(unit: spec_fn(Arith) -> Double, t: Double, amount: Double)
    requires
        arith::follows_ieee(unit),
        arith::rounds_closely(unit),
        arith::exp_in_order(unit),
        arith::ln_in_order(unit),
        arith::exp_in_shape(unit),
        arith::ln_in_shape(unit),
        in_unit(t),
        double::one().negated().at_most(amount),
        amount.below(double::zero()),
        !amount.absolute().below(Double { bits: 0x3E11_2E0B_E826_D695 }),
    ensures
        exists|v: Double, q: Double, o: Double|
            {
                let (s, e) = (double::one().units(), error());
                let b = (#[trigger] unit(Arith::Exp(v))).units();
                let (m, l) = (
                    (#[trigger] unit(Arith::Ln(q))).units(),
                    (#[trigger] unit(Arith::Ln(o))).units(),
                );
                let c = gamma::contrasted(unit, t, amount).units();
                let x = t.units();
                &&& -(64 * e) <= v.units() + 5 * amount.units() <= 64 * e
                &&& -(4096 * (e * (b + s))) <= (q.units() - b) * s <= 4096 * (e * (b + s))
                &&& -(0x4_0000 * ((e * s) * (b + s))) <= o.units() * (s * b - x * (b - s)) - s * (s
                    * s + x * (b - s)) <= 0x4_0000 * ((e * s) * (b + s))
                &&& -(256 * (e * s)) <= 2 * (c * m) - s * (l + m) <= 256 * (e * s)
            },
{
    let half = Double { bits: gamma::HALF_BITS };
    let (zero, one) = (double::zero(), double::one());
    let (h, s, e): (int, int, int) = (half.units(), one.units(), error());
    lemma_constants();
    lemma_error();
    double::lemma_zero_one();
    lemma_infinity(one);
    lemma_between(zero, t, one);
    lemma_between(one.negated(), amount, zero);
    law_documented_contrast(unit, amount);
    let k = lemma_moderate_strength(unit, amount);
    lemma_power(-27);
    let (v, f) = lemma_sigmoid_value(unit, k, zero);
    let low = gamma::sigmoid(unit, k, zero);
    let high = gamma::sigmoid(unit, k, one);
    let span = unit(Arith::Sub(high, low));
    lemma_ends(unit, k);
    lemma_logit_span(unit, k);
    let sum = unit(Arith::Add(low, span));
    let size: int = amount.absolute().units();
    assert(size == -amount.units()) by {
        double::law_signs(amount);
    }
    lemma_operand_of_amount(v.units(), 0, size, k.units(), h, s, e);
    let vu: int = v.units();
    assert(-(64 * e) <= vu - 5 * size <= 64 * e) by (nonlinear_arith)
        requires
            -(128 * (e * s)) <= 2 * (vu * s) - 10 * (size * (s - 2 * 0)) <= 128 * (e * s),
            s > 0,
    ;
    // The points.
    let u_op = Arith::Sub(one, t);
    lemma_close(unit, u_op, 1);
    let u = unit(u_op);
    assert(in_unit(u));
    assert(t.clamped_to_unit() == t);
    lemma_point(unit, low, span, t);
    lemma_point(unit, low, span, u);
    let y = unit(Arith::Add(low, unit(Arith::Mul(t, span))));
    let rest = unit(Arith::Add(low, unit(Arith::Mul(u, span))));
    lemma_odds(unit, y, rest);
    lemma_odds(unit, sum, low);
    lemma_opposite_logs(unit, y, rest, y, 0);
    let (o, q) = (unit(Arith::Div(y, rest)), unit(Arith::Div(sum, low)));
    lemma_odds_of_amount(
        o.units(),
        q.units(),
        y.units(),
        rest.units(),
        low.units(),
        sum.units(),
        span.units(),
        f.units(),
        t.units(),
        u.units(),
        s,
        e,
    );
    // The contrast.
    lemma_contrast_curve(unit, amount, zero, t);
    lemma_contrast_curve(unit, amount, t, one);
    let start = gamma::contrast_curve(unit, amount, zero);
    let end = gamma::contrast_curve(unit, amount, one);
    let value = gamma::contrast_curve(unit, amount, t);
    assert(value == unit(Arith::Ln(o)));
    assert(end == unit(Arith::Ln(q)));
    let (span_op, rise_op) = (Arith::Sub(end, start), Arith::Sub(value, start));
    lemma_close(unit, span_op, 16);
    lemma_close(unit, rise_op, 16);
    lemma_whole_bounds(unit, rise_op, zero);
    lemma_add_order(unit, value, end, start);
    let (n, r): (int, int) = (unit(span_op).units(), unit(rise_op).units());
    let op = Arith::Div(unit(rise_op), unit(span_op));
    assert(arith::exact(op) == (r * s, n));
    assert(0 <= r * s <= 1 * s * n && 0 * n == 0 && 1 * e * n == e * n) by (nonlinear_arith)
        requires
            0 <= r <= n,
            s > 0,
    ;
    lemma_close(unit, op, 1);
    lemma_at_least(unit, op, zero);
    lemma_at_most(unit, op, one);
    let c: int = gamma::contrasted(unit, t, amount).units();
    let (m, l): (int, int) = (end.units(), value.units());
    let (cn, d, g): (int, int, int) = (c * n, 2 * m - n, r - (l + m));
    assert(-(90 * e) <= d <= 90 * e && -(90 * e) <= g <= 90 * e);
    let es: int = e * s;
    assert(2 * (c * m) == cn + c * d && r * s == s * (l + m) + s * g) by (nonlinear_arith)
        requires
            cn == c * n,
            d == 2 * m - n,
            g == r - (l + m),
    ;
    assert(-(90 * es) <= c * d <= 90 * es && -(90 * es) <= s * g <= 90 * es && 0 <= e * n <= 32
        * es) by (nonlinear_arith)
        requires
            0 <= c <= s,
            -(90 * e) <= d <= 90 * e,
            -(90 * e) <= g <= 90 * e,
            0 <= n <= 32 * s,
            es == e * s,
            e > 0,
            s > 0,
    ;
    assert(f == unit(Arith::Exp(v)));
}

} // verus!
