//! The direction in which contrast moves values.

use vstd::prelude::*;
use crate::arith;
use crate::arith::Arith;
use crate::closeness::{error, lemma_close, lemma_error};
use crate::curves::lemma_contrast_curve;
use crate::double;
use crate::double::{in_unit, Double};
use crate::gamma;
use crate::order::law_documented_contrast;
use crate::rounding::{
    lemma_add_order, lemma_at_least, lemma_at_most, lemma_between, lemma_constants, lemma_infinity,
    lemma_mul_order, lemma_mul_unit, lemma_power, lemma_round, lemma_whole_bounds,
};
use crate::symmetry::{
    law_contrast_rise, law_contrast_symmetry, lemma_absolute, lemma_ends, lemma_logit_span,
    lemma_moderate_strength, lemma_no_contrast, lemma_odds, lemma_opposite_logs, lemma_over_amount,
    lemma_point, lemma_sigmoid_span, lemma_sigmoid_value,
};

verus! {

/// The bend of the exponential function in terms of the sigmoid, over whole
/// numbers: `a` and `b` are the shares that belong to `g` and `f`.
proof fn lemma_shares_bend(u: int, g: int, v: int, f: int, a: int, b: int, s: int, e: int)
    requires
        s == double::one().units(),
        s == 0x10_0000_0000_0000 * e,
        e > 0,
        g >= 0,
        f >= 0,
        0 <= u <= v,
        arith::bends(u, g, v, f),
        a * (s + g) - s * s >= -(3 * e * (s + g)),
        a * (s + g) - s * s <= 3 * e * (s + g),
        b * (s + f) - s * s >= -(3 * e * (s + f)),
        b * (s + f) - s * s <= 3 * e * (s + f),
    ensures
        (s - 2 * b) * u - 140 * (e * v) <= (s - 2 * a) * v,
{
    let (x, y): (int, int) = (g + s, f + s);
    let (m, n): (int, int) = (s - 2 * a, s - 2 * b);
    let area: int = x * y;
    let (p, q): (int, int) = (s * (g - s), s * (f - s));
    assert(p <= (m + 6 * e) * x) by (nonlinear_arith)
        requires
            p == s * (g - s),
            m == s - 2 * a,
            x == g + s,
            a * x - s * s <= 3 * e * x,
    ;
    assert(q >= (n - 6 * e) * y) by (nonlinear_arith)
        requires
            q == s * (f - s),
            n == s - 2 * b,
            y == f + s,
            b * y - s * s >= -(3 * e * y),
    ;
    let (i, j, k): (int, int, int) = (u * ((f - s) * x), v * ((g - s) * y), v * area);
    assert(0x2000_0000_0000 * (i - j) <= k);
    assert(s * i - s * j <= 128 * (e * k)) by (nonlinear_arith)
        requires
            0x2000_0000_0000 * (i - j) <= k,
            s == 0x10_0000_0000_0000 * e,
            e > 0,
    ;
    assert(s * i == (u * q) * x) by (nonlinear_arith)
        requires
            i == u * ((f - s) * x),
            q == s * (f - s),
    ;
    assert(s * j == (v * p) * y) by (nonlinear_arith)
        requires
            j == v * ((g - s) * y),
            p == s * (g - s),
    ;
    assert(area > 0) by (nonlinear_arith)
        requires
            area == x * y,
            x > 0,
            y > 0,
    ;
    let c: int = u * (n - 6 * e);
    assert(c * area <= (u * q) * x) by (nonlinear_arith)
        requires
            c == u * (n - 6 * e),
            q >= (n - 6 * e) * y,
            area == x * y,
            u >= 0,
            x > 0,
    ;
    let d: int = v * (m + 6 * e);
    assert((v * p) * y <= d * area) by (nonlinear_arith)
        requires
            d == v * (m + 6 * e),
            p <= (m + 6 * e) * x,
            area == x * y,
            v >= 0,
            y > 0,
    ;
    let ev: int = e * v;
    assert(e * k == ev * area) by (nonlinear_arith)
        requires
            k == v * area,
            ev == e * v,
    ;
    assert(c <= d + 128 * ev) by (nonlinear_arith)
        requires
            c * area - d * area <= 128 * (ev * area),
            area > 0,
    ;
    assert(c == n * u - 6 * (e * u) && d == m * v + 6 * ev && e * u <= ev) by (nonlinear_arith)
        requires
            c == u * (n - 6 * e),
            d == v * (m + 6 * e),
            ev == e * v,
            u <= v,
            e > 0,
    ;
}

/// The same in terms of the input `t` and the strength `k`, over whole numbers:
/// `m` and `n` are twice the distances of the sigmoid from a half, at `t` and at
/// its lower end.
proof fn lemma_bend_of_input(
    u: int,
    v: int,
    m: int,
    n: int,
    t: int,
    k: int,
    h: int,
    s: int,
    e: int,
)
    requires
        s == 0x10_0000_0000_0000 * e,
        e > 0,
        2 * h == s,
        0 < k <= 10 * s,
        0 <= t <= s,
        v >= 0,
        -s <= m <= s,
        0 <= n <= s,
        n * u - 140 * (e * v) <= m * v,
        -(2 * e * k) <= u * s - k * (h - t) <= 2 * e * k,
        -(2 * e * k) <= v * s - k * h <= 2 * e * k,
    ensures
        n * (s - 2 * t) - 300 * (e * s) <= m * s,
{
    let (us, vs, ek): (int, int, int) = (u * s, v * s, e * k);
    let (p, q): (int, int) = (k * (h - t), k * h);
    assert(n * us - 140 * (e * vs) <= m * vs) by (nonlinear_arith)
        requires
            n * u - 140 * (e * v) <= m * v,
            us == u * s,
            vs == v * s,
            s > 0,
    ;
    assert(-(2 * ek) <= us - p <= 2 * ek && -(2 * ek) <= vs - q <= 2 * ek && ek > 0)
        by (nonlinear_arith)
        requires
            -(2 * e * k) <= us - p <= 2 * e * k,
            -(2 * e * k) <= vs - q <= 2 * e * k,
            ek == e * k,
            e > 0,
            k > 0,
    ;
    assert(n * us >= n * p - 2 * (ek * s)) by (nonlinear_arith)
        requires
            us - p >= -(2 * ek),
            0 <= n <= s,
            ek > 0,
    ;
    assert(m * vs <= m * q + 2 * (ek * s)) by (nonlinear_arith)
        requires
            -(2 * ek) <= vs - q <= 2 * ek,
            -s <= m <= s,
            ek > 0,
    ;
    assert(e * vs <= ek * s) by (nonlinear_arith)
        requires
            vs <= q + 2 * ek,
            q == k * h,
            ek == e * k,
            2 * h == s,
            4 * e <= s,
            e > 0,
            k > 0,
    ;
    assert(n * p - 144 * (ek * s) <= m * q);
    let es: int = e * s;
    assert(n * (h - t) - 144 * es <= m * h) by (nonlinear_arith)
        requires
            n * p - 144 * (ek * s) <= m * q,
            p == k * (h - t),
            q == k * h,
            ek == e * k,
            es == e * s,
            k > 0,
    ;
    assert(n * (s - 2 * t) == 2 * (n * (h - t)) && m * s == 2 * (m * h) && es > 0)
        by (nonlinear_arith)
        requires
            2 * h == s,
            es == e * s,
            s > 0,
            e > 0,
    ;
}

/// The operand of the exponential function below the middle: it is not
/// negative, and largest at 0.
proof fn lemma_operand_order(unit: spec_fn(Arith) -> Double, k: Double, t: Double)
    requires
        arith::follows_ieee(unit),
        k.finite(),
        k.units() >= 0,
        in_unit(t),
        t.at_most(Double { bits: gamma::HALF_BITS }),
    ensures
        ({
            let half = Double { bits: gamma::HALF_BITS };
            let u = unit(Arith::Mul(k.negated(), unit(Arith::Sub(t, half))));
            let v = unit(Arith::Mul(k.negated(), unit(Arith::Sub(double::zero(), half))));
            double::zero().at_most(u) && u.at_most(v)
        }),
{
    let half = Double { bits: gamma::HALF_BITS };
    let (zero, one) = (double::zero(), double::one());
    lemma_constants();
    double::lemma_zero_one();
    lemma_infinity(k);
    lemma_between(zero, t, one);
    lemma_whole_bounds(unit, Arith::Sub(t, half), zero);
    lemma_add_order(unit, zero, t, half);
    let (c, d) = (unit(Arith::Sub(t, half)), unit(Arith::Sub(zero, half)));
    assert(c.finite() && d.finite());
    let nk = k.negated();
    let (a, m, n, s): (int, int, int, int) = (nk.units(), c.units(), d.units(), one.units());
    assert(0 <= a * m && (a * m) * s <= (a * n) * s && 0 * s == 0) by (nonlinear_arith)
        requires
            a <= 0,
            m <= 0,
            n <= m,
            s > 0,
    ;
    lemma_at_least(unit, Arith::Mul(nk, c), zero);
    lemma_round(unit, Arith::Mul(nk, c), Arith::Mul(nk, d));
}

/// A positive contrast moves values below the middle down.
proof fn lemma_sigmoid_direction(unit: spec_fn(Arith) -> Double, amount: Double, t: Double)
    requires
        arith::follows_ieee(unit),
        arith::rounds_closely(unit),
        arith::exp_in_order(unit),
        arith::ln_in_order(unit),
        arith::exp_in_shape(unit),
        arith::ln_in_shape(unit),
        double::zero().at_most(amount),
        amount.at_most(double::one()),
        !amount.absolute().below(Double { bits: gamma::NO_CONTRAST_BITS }),
        in_unit(t),
        t.at_most(Double { bits: gamma::HALF_BITS }),
    ensures
        ({
            let c = gamma::contrasted(unit, t, amount);
            (c.units() - t.units()) * amount.absolute().units() <= 0x800 * (error()
                * double::one().units())
        }),
{
    let half = Double { bits: gamma::HALF_BITS };
    let (zero, one) = (double::zero(), double::one());
    let (h, s, e): (int, int, int) = (half.units(), one.units(), error());
    lemma_constants();
    lemma_error();
    double::lemma_zero_one();
    lemma_infinity(one);
    lemma_between(zero, t, one);
    law_documented_contrast(unit, amount);
    let k = lemma_moderate_strength(unit, amount);
    lemma_power(-27);
    let (u, g) = lemma_sigmoid_value(unit, k, t);
    let (v, f) = lemma_sigmoid_value(unit, k, zero);
    lemma_operand_order(unit, k, t);
    lemma_sigmoid_span(unit, k);
    lemma_ends(unit, k);
    lemma_contrast_curve(unit, amount, zero, t);
    lemma_contrast_curve(unit, amount, t, one);
    let low = gamma::sigmoid(unit, k, zero);
    let high = gamma::sigmoid(unit, k, one);
    let value = gamma::sigmoid(unit, k, t);
    assert(arith::bends(u.units(), g.units(), v.units(), f.units()));
    lemma_shares_bend(
        u.units(),
        g.units(),
        v.units(),
        f.units(),
        value.units(),
        low.units(),
        s,
        e,
    );
    let span_op = Arith::Sub(high, low);
    let rise_op = Arith::Sub(value, low);
    let (m, n): (int, int) = (s - 2 * value.units(), s - 2 * low.units());
    let (w, x): (int, int) = (unit(span_op).units(), t.units());
    assert(n >= 0);
    lemma_bend_of_input(u.units(), v.units(), m, n, x, k.units(), h, s, e);
    // The quotient.
    lemma_close(unit, rise_op, 1);
    lemma_whole_bounds(unit, rise_op, zero);
    lemma_add_order(unit, value, high, low);
    let r: int = unit(rise_op).units();
    let op = Arith::Div(unit(rise_op), unit(span_op));
    assert(arith::exact(op) == (r * s, w));
    assert(0 <= r * s <= 1 * s * w && 0 * w == 0) by (nonlinear_arith)
        requires
            0 <= r <= w,
            s > 0,
    ;
    lemma_close(unit, op, 1);
    lemma_at_least(unit, op, zero);
    lemma_at_most(unit, op, one);
    let q: int = unit(op).units();
    let c = gamma::contrasted(unit, t, amount);
    assert(c.units() == q);
    let off: int = q - x;
    let es: int = e * s;
    assert(2 * (r * s) <= n * s - m * s + 2 * es) by (nonlinear_arith)
        requires
            2 * r <= n - m + 2 * e,
            es == e * s,
            s > 0,
    ;
    assert(n * s - n * (s - 2 * x) == 2 * (n * x)) by (nonlinear_arith);
    assert(n * x <= w * x + 135 * es && 1 * e * w <= es) by (nonlinear_arith)
        requires
            n <= w + 135 * e,
            0 <= x <= s,
            0 <= w <= s,
            es == e * s,
            e > 0,
    ;
    assert(off * w == q * w - w * x) by (nonlinear_arith)
        requires
            off == q - x,
    ;
    assert(off * w <= 300 * es);
    law_contrast_rise(unit, amount);
    lemma_over_amount(off, w, amount.absolute().units(), 300, s);
    assert(es > 0) by (nonlinear_arith)
        requires
            es == e * s,
            e > 0,
            s > 0,
    ;
}

/// The bend of the logarithm in terms of the points that its operands are the
/// quotients of, over whole numbers: `p` is `rest / y` and `q` is `sum / low`,
/// `l` and `m` are their logarithms.
proof fn lemma_odds_bend(
    l: int,
    p: int,
    m: int,
    q: int,
    y: int,
    rest: int,
    low: int,
    sum: int,
    w: int,
    t: int,
    v: int,
    s: int,
    e: int,
)
    requires
        s == double::one().units(),
        s == 0x10_0000_0000_0000 * e,
        e > 0,
        0 <= l <= m,
        arith::bends(l, p, m, q),
        s <= p,
        s <= q,
        0 < low <= y,
        y <= rest,
        rest <= s + 4 * e,
        low <= sum,
        sum <= s + 4 * e,
        1000 * e <= w,
        w <= s,
        0 <= t,
        2 * t <= s,
        -e <= v - (s - t) <= e,
        -(e * rest) <= p * y - rest * s <= e * rest,
        -(e * sum) <= q * low - sum * s <= e * sum,
        -(3 * e * s) <= (y - low) * s - t * w <= 3 * e * s,
        -(3 * e * s) <= (rest - low) * s - v * w <= 3 * e * s,
        -(3 * e) <= sum - low - w <= 3 * e,
        -(135 * e) <= 2 * low + w - s <= 135 * e,
    ensures
        (l * w) * s <= m * ((s - 2 * t) * w + 500 * (e * s)),
{
    let es: int = e * s;
    let (a, b, c, d): (int, int, int, int) = (
        (q - s) * low,
        (p + s) * y,
        (p - s) * y,
        (q + s) * low,
    );
    let z: int = (s - 2 * t) * w;
    // The four factors, up to rounding.
    assert(e * rest <= 2 * es && e * sum <= 2 * es) by (nonlinear_arith)
        requires
            rest <= 2 * s,
            sum <= 2 * s,
            es == e * s,
            e > 0,
    ;
    assert(a == q * low - s * low && b == p * y + s * y && c == p * y - s * y && d == q * low + s
        * low) by (nonlinear_arith)
        requires
            a == (q - s) * low,
            b == (p + s) * y,
            c == (p - s) * y,
            d == (q + s) * low,
    ;
    let (ty, tv): (int, int) = (t * w, v * w);
    assert(z - es <= tv - ty <= z + es && s * w - es <= tv + ty <= s * w + es) by (nonlinear_arith)
        requires
            z == (s - 2 * t) * w,
            ty == t * w,
            tv == v * w,
            es == e * s,
            -e <= v - (s - t) <= e,
            0 <= w <= s,
            e > 0,
    ;
    let (ys, rs, ls, us): (int, int, int, int) = (y * s, rest * s, low * s, sum * s);
    assert(-(3 * es) <= ys - ls - ty <= 3 * es && -(3 * es) <= rs - ls - tv <= 3 * es && s * low
        == ls && s * y == ys) by (nonlinear_arith)
        requires
            -(3 * e * s) <= (y - low) * s - ty <= 3 * e * s,
            -(3 * e * s) <= (rest - low) * s - tv <= 3 * e * s,
            ys == y * s,
            rs == rest * s,
            ls == low * s,
            es == e * s,
    ;
    let ss: int = s * s;
    assert(w * s - 3 * es <= us - ls && us + ls <= ss + 138 * es && ss - 135 * es <= 2 * ls + s * w
        && 2 * ls + s * w <= ss + 135 * es) by (nonlinear_arith)
        requires
            -(3 * e) <= sum - low - w <= 3 * e,
            -(135 * e) <= 2 * low + w - s <= 135 * e,
            us == sum * s,
            ls == low * s,
            es == e * s,
            ss == s * s,
            s > 0,
    ;
    assert(a >= w * s - 5 * es);
    assert(ss - 144 * es <= b && b <= ss + 144 * es);
    assert(c <= z + 9 * es);
    assert(d <= ss + 144 * es);
    // The bend, in these factors.
    let area: int = y * low;
    let (i, j, k): (int, int, int) = (
        l * ((q - s) * (p + s)),
        m * ((p - s) * (q + s)),
        m * ((p + s) * (q + s)),
    );
    assert(0x2000_0000_0000 * (i - j) <= k);
    assert(i * area == l * (a * b)) by (nonlinear_arith)
        requires
            i == l * ((q - s) * (p + s)),
            a == (q - s) * low,
            b == (p + s) * y,
            area == y * low,
    ;
    assert(j * area == m * (c * d)) by (nonlinear_arith)
        requires
            j == m * ((p - s) * (q + s)),
            c == (p - s) * y,
            d == (q + s) * low,
            area == y * low,
    ;
    assert(k * area == m * (b * d)) by (nonlinear_arith)
        requires
            k == m * ((p + s) * (q + s)),
            b == (p + s) * y,
            d == (q + s) * low,
            area == y * low,
    ;
    assert(0x2000_0000_0000 * (l * (a * b) - m * (c * d)) <= m * (b * d)) by (nonlinear_arith)
        requires
            0x2000_0000_0000 * (i - j) <= k,
            i * area == l * (a * b),
            j * area == m * (c * d),
            k * area == m * (b * d),
            area == y * low,
            y > 0,
            low > 0,
    ;
    // The factors close to 1.
    assert(0 <= c && 0 <= a && 0 <= d && 0 < b) by (nonlinear_arith)
        requires
            a == (q - s) * low,
            b == (p + s) * y,
            c == (p - s) * y,
            d == (q + s) * low,
            q >= s,
            p >= s,
            s > 0,
            y > 0,
            low > 0,
    ;
    let ws: int = w * s;
    let (near, far): (int, int) = (s - 144 * e, s + 144 * e);
    assert(5 * es <= ws && ws <= ss && 0 <= z && z <= ss) by (nonlinear_arith)
        requires
            ws == w * s,
            es == e * s,
            ss == s * s,
            z == (s - 2 * t) * w,
            5 * e <= w,
            w <= s,
            0 <= t,
            2 * t <= s,
            e > 0,
    ;
    assert(0 <= s * near) by (nonlinear_arith)
        requires
            near >= 0,
            s > 0,
    ;
    assert((l * w) * s == l * ws) by (nonlinear_arith)
        requires
            ws == w * s,
    ;
    assert(ss - 144 * es == s * near && ss + 144 * es == s * far) by (nonlinear_arith)
        requires
            ss == s * s,
            es == e * s,
            near == s - 144 * e,
            far == s + 144 * e,
    ;
    assert((ws - 5 * es) * (s * near) <= a * b) by (nonlinear_arith)
        requires
            0 <= ws - 5 * es <= a,
            0 <= s * near <= b,
    ;
    assert(c * d <= (z + 9 * es) * (s * far)) by (nonlinear_arith)
        requires
            0 <= c <= z + 9 * es,
            0 <= d <= s * far,
    ;
    assert(b * d <= (s * far) * (s * far)) by (nonlinear_arith)
        requires
            0 <= b <= s * far,
            0 <= d <= s * far,
    ;
    lemma_cancel(l, m, a * b, c * d, b * d, ws, z, near, far, s, e);
}

/// The rest of that: the factors close to 1 drop out.
proof fn lemma_cancel(
    l: int,
    m: int,
    ab: int,
    cd: int,
    bd: int,
    ws: int,
    z: int,
    near: int,
    far: int,
    s: int,
    e: int,
)
    requires
        s == 0x10_0000_0000_0000 * e,
        e > 0,
        0 <= l <= m,
        0 <= ws - 5 * (e * s),
        ws <= s * s,
        z <= s * s,
        near == s - 144 * e,
        far == s + 144 * e,
        0x2000_0000_0000 * (l * ab - m * cd) <= m * bd,
        (ws - 5 * (e * s)) * (s * near) <= ab,
        cd <= (z + 9 * (e * s)) * (s * far),
        bd <= (s * far) * (s * far),
        0 <= z + 9 * (e * s),
    ensures
        l * ws <= m * (z + 500 * (e * s)),
{
    let es: int = e * s;
    let ss: int = s * s;
    // Each factor close to 1, multiplied out.
    let (p, q): (int, int) = (ws - 5 * es, z + 9 * es);
    assert(ws - 149 * es <= p - 144 * es);
    assert(s * (p - 144 * es) <= p * near) by (nonlinear_arith)
        requires
            near == s - 144 * e,
            es == e * s,
            0 <= p <= s * s,
            e > 0,
            s > 0,
    ;
    assert(q * far <= s * (q + 145 * es)) by (nonlinear_arith)
        requires
            far == s + 144 * e,
            es == e * s,
            q <= s * s + 9 * es,
            1296 * e <= s,
            e > 0,
            s > 0,
    ;
    assert(far * far <= s * (s + 289 * e)) by (nonlinear_arith)
        requires
            far == s + 144 * e,
            20736 * e <= s,
            e > 0,
    ;
    let (x, y, v): (int, int, int) = (
        ss * (p - 144 * es),
        ss * (q + 145 * es),
        ss * (ss + 289 * es),
    );
    assert(x <= p * (s * near)) by (nonlinear_arith)
        requires
            s * (p - 144 * es) <= p * near,
            x == ss * (p - 144 * es),
            ss == s * s,
            s > 0,
    ;
    assert(q * (s * far) <= y) by (nonlinear_arith)
        requires
            q * far <= s * (q + 145 * es),
            y == ss * (q + 145 * es),
            ss == s * s,
            s > 0,
    ;
    assert((s * far) * (s * far) <= v) by (nonlinear_arith)
        requires
            far * far <= s * (s + 289 * e),
            v == ss * (ss + 289 * es),
            ss == s * s,
            es == e * s,
            s > 0,
    ;
    assert(l * x <= l * ab && m * cd <= m * y && m * bd <= m * v) by (nonlinear_arith)
        requires
            x <= ab,
            cd <= y,
            bd <= v,
            0 <= l,
            0 <= m,
    ;
    assert(0x2000_0000_0000 * (l * x - m * y) <= m * v);
    let (xx, yy, vv): (int, int, int) = (p - 144 * es, q + 145 * es, ss + 289 * es);
    assert(0x2000_0000_0000 * (l * xx - m * yy) <= m * vv) by (nonlinear_arith)
        requires
            0x2000_0000_0000 * (l * x - m * y) <= m * v,
            x == ss * xx,
            y == ss * yy,
            v == ss * vv,
            ss == s * s,
            s > 0,
    ;
    assert(m * vv <= 0x2000_0000_0000 * (m * (129 * es))) by (nonlinear_arith)
        requires
            vv == ss + 289 * es,
            ss == s * s,
            es == e * s,
            s == 0x10_0000_0000_0000 * e,
            e > 0,
            m >= 0,
    ;
    assert(l * xx <= m * yy + m * (129 * es));
    assert(l * xx == l * ws - 149 * (l * es)) by (nonlinear_arith)
        requires
            xx == ws - 149 * es,
    ;
    assert(m * yy + m * (129 * es) == m * z + 283 * (m * es)) by (nonlinear_arith)
        requires
            yy == z + 154 * es,
    ;
    assert(l * es <= m * es && 0 <= m * es && m * (z + 500 * es) == m * z + 500 * (m * es))
        by (nonlinear_arith)
        requires
            0 <= l <= m,
            es == e * s,
            e > 0,
            s > 0,
    ;
}

/// The last step for the inverse of the sigmoid, over whole numbers: `c` is the
/// quotient of `r` by `span`, where `l` and `m` are the logarithms at `t` and at
/// the end.
proof fn lemma_toward(
    c: int,
    t: int,
    r: int,
    span: int,
    l: int,
    m: int,
    w: int,
    size: int,
    s: int,
    e: int,
)
    requires
        e > 0,
        e <= s,
        0 <= t <= s,
        0 <= m,
        1000 * e <= w,
        w <= s,
        0 <= size,
        3 * size <= 5 * w,
        3 * size <= 5 * span,
        1000 * e <= span,
        span <= 32 * s,
        c * span - r * s >= -(e * span),
        m - l - 200 * e <= r,
        -(90 * e) <= span - 2 * m <= 90 * e,
        (l * w) * s <= m * ((s - 2 * t) * w + 500 * (e * s)),
    ensures
        3 * ((t - c) * size) <= 0x1800 * (e * s),
{
    let es: int = e * s;
    let off: int = t - c;
    let (cs, rs, es_span): (int, int, int) = (c * span, r * s, e * span);
    assert(es_span <= 32 * es && es > 0) by (nonlinear_arith)
        requires
            es_span == e * span,
            es == e * s,
            span <= 32 * s,
            s > 0,
            e > 0,
    ;
    let g: int = (m - l) * s;
    assert(rs >= g - 200 * es) by (nonlinear_arith)
        requires
            rs == r * s,
            r >= m - l - 200 * e,
            g == (m - l) * s,
            es == e * s,
            s > 0,
    ;
    assert(cs >= g - 232 * es);
    let gw: int = g * w;
    assert(gw >= 2 * ((m * t) * w) - 500 * (m * es)) by (nonlinear_arith)
        requires
            (l * w) * s <= m * ((s - 2 * t) * w + 500 * es),
            gw == g * w,
            g == (m - l) * s,
    ;
    let tw: int = t * w;
    assert(2 * ((m * t) * w) >= span * tw - 90 * (e * tw)) by (nonlinear_arith)
        requires
            span - 2 * m <= 90 * e,
            tw == t * w,
            t >= 0,
            w >= 0,
    ;
    assert(0 <= e * tw <= es * w) by (nonlinear_arith)
        requires
            tw == t * w,
            0 <= t <= s,
            es == e * s,
            e > 0,
            w >= 0,
    ;
    let (esw, esn): (int, int) = (es * w, es * span);
    assert(0 <= m * es <= esn) by (nonlinear_arith)
        requires
            0 <= m <= span,
            esn == es * span,
            es > 0,
    ;
    assert(cs * w >= gw - 232 * esw) by (nonlinear_arith)
        requires
            cs >= g - 232 * es,
            gw == g * w,
            esw == es * w,
            w >= 0,
    ;
    let area: int = span * w;
    assert(off * area == span * tw - cs * w) by (nonlinear_arith)
        requires
            off == t - c,
            area == span * w,
            tw == t * w,
            cs == c * span,
    ;
    assert(off * area <= 322 * esw + 500 * esn);
    if off <= 0 {
        assert(off * size <= 0) by (nonlinear_arith)
            requires
                off <= 0,
                size >= 0,
        ;
    } else if w <= span {
        assert(off * w <= 822 * es) by (nonlinear_arith)
            requires
                off * area <= 322 * esw + 500 * esn,
                area == span * w,
                esw == es * w,
                esn == es * span,
                w <= span,
                w > 0,
                es > 0,
        ;
        assert(3 * (off * size) <= 5 * (off * w)) by (nonlinear_arith)
            requires
                3 * size <= 5 * w,
                off > 0,
        ;
    } else {
        assert(off * span <= 822 * es) by (nonlinear_arith)
            requires
                off * area <= 322 * esw + 500 * esn,
                area == span * w,
                esw == es * w,
                esn == es * span,
                span < w,
                span > 0,
                es > 0,
        ;
        assert(3 * (off * size) <= 5 * (off * span)) by (nonlinear_arith)
            requires
                3 * size <= 5 * span,
                off > 0,
        ;
    }
}

/// A negative contrast moves values below the middle up.
#[verifier::rlimit(40)]
proof fn lemma_logit_direction(unit: spec_fn(Arith) -> Double, amount: Double, t: Double)
    requires
        arith::follows_ieee(unit),
        arith::rounds_closely(unit),
        arith::exp_in_order(unit),
        arith::ln_in_order(unit),
        arith::exp_in_shape(unit),
        arith::ln_in_shape(unit),
        double::one().negated().at_most(amount),
        amount.below(double::zero()),
        !amount.absolute().below(Double { bits: gamma::NO_CONTRAST_BITS }),
        in_unit(t),
        t.at_most(Double { bits: gamma::HALF_BITS }),
    ensures
        ({
            let c = gamma::contrasted(unit, t, amount);
            (t.units() - c.units()) * amount.absolute().units() <= 0x800 * (error()
                * double::one().units())
        }),
{
    let (zero, one) = (double::zero(), double::one());
    let (s, e): (int, int) = (one.units(), error());
    lemma_constants();
    lemma_error();
    double::lemma_zero_one();
    lemma_infinity(one);
    lemma_between(zero, t, one);
    law_documented_contrast(unit, amount);
    let k = lemma_moderate_strength(unit, amount);
    lemma_power(-27);
    let low = gamma::sigmoid(unit, k, zero);
    let high = gamma::sigmoid(unit, k, one);
    let span = unit(Arith::Sub(high, low));
    lemma_ends(unit, k);
    lemma_logit_span(unit, k);
    let sum = unit(Arith::Add(low, span));
    // The points.
    let u_op = Arith::Sub(one, t);
    lemma_close(unit, u_op, 1);
    let u = unit(u_op);
    assert(in_unit(u));
    lemma_whole_bounds(unit, u_op, t);
    assert(t.at_most(u));
    assert(t.clamped_to_unit() == t);
    lemma_point(unit, low, span, t);
    lemma_point(unit, low, span, u);
    let (part_t, part_u) = (unit(Arith::Mul(t, span)), unit(Arith::Mul(u, span)));
    let y = unit(Arith::Add(low, part_t));
    let rest = unit(Arith::Add(low, part_u));
    lemma_between(zero, u, one);
    lemma_mul_order(unit, t, u, span);
    lemma_mul_order(unit, u, one, span);
    assert(unit(Arith::Mul(one, span)) == span);
    lemma_parts(unit, t, span);
    lemma_parts(unit, u, span);
    lemma_add_order(unit, part_t, part_u, low);
    lemma_add_order(unit, part_u, span, low);
    // The quotients and their logarithms.
    lemma_odds(unit, rest, y);
    lemma_odds(unit, sum, low);
    lemma_opposite_logs(unit, y, rest, y, 0);
    let (p, q) = (unit(Arith::Div(rest, y)), unit(Arith::Div(sum, low)));
    let (a, b, c, d): (int, int, int, int) = (rest.units(), y.units(), sum.units(), low.units());
    assert((a * s) * d <= (c * s) * b) by (nonlinear_arith)
        requires
            0 < a <= c,
            0 < d <= b,
            s > 0,
    ;
    lemma_round(unit, Arith::Div(rest, y), Arith::Div(sum, low));
    let (log_p, log_q) = (unit(Arith::Ln(p)), unit(Arith::Ln(q)));
    assert(unit(Arith::Ln(one)).at_most(log_p));
    assert(log_p.at_most(log_q));
    let (l, m): (int, int) = (log_p.units(), log_q.units());
    assert(arith::bends(l, p.units(), m, q.units()));
    lemma_odds_bend(
        l,
        p.units(),
        m,
        q.units(),
        b,
        a,
        d,
        c,
        span.units(),
        t.units(),
        u.units(),
        s,
        e,
    );
    // The contrast.
    lemma_contrast_curve(unit, amount, zero, t);
    lemma_contrast_curve(unit, amount, t, one);
    let start = gamma::contrast_curve(unit, amount, zero);
    let end = gamma::contrast_curve(unit, amount, one);
    let value = gamma::contrast_curve(unit, amount, t);
    assert(value == unit(Arith::Ln(unit(Arith::Div(y, rest)))));
    let (span_op, rise_op) = (Arith::Sub(end, start), Arith::Sub(value, start));
    lemma_close(unit, span_op, 16);
    lemma_close(unit, rise_op, 16);
    lemma_whole_bounds(unit, rise_op, zero);
    lemma_add_order(unit, value, end, start);
    let (n, r): (int, int) = (unit(span_op).units(), unit(rise_op).units());
    let op = Arith::Div(unit(rise_op), unit(span_op));
    assert(arith::exact(op) == (r * s, n));
    assert(0 <= r * s <= 1 * s * n && 0 * n == 0 && 1 * e * n == e * n) by (nonlinear_arith)
        requires
            0 <= r <= n,
            s > 0,
    ;
    lemma_close(unit, op, 1);
    lemma_at_least(unit, op, zero);
    lemma_at_most(unit, op, one);
    law_contrast_rise(unit, amount);
    lemma_toward(
        unit(op).units(),
        t.units(),
        r,
        n,
        l,
        m,
        span.units(),
        amount.absolute().units(),
        s,
        e,
    );
}

/// A share of a finite number is finite.
proof fn lemma_parts(unit: spec_fn(Arith) -> Double, x: Double, span: Double)
    requires
        arith::follows_ieee(unit),
        in_unit(x),
        span.finite(),
    ensures
        unit(Arith::Mul(x, span)).finite(),
{
    lemma_mul_unit(unit, x, span);
}

/// How far `c` lies further away from the middle than `t` does, on the side of
/// `t`.
pub open spec fn outward(t: Double, c: Double) -> int {
    if t.units() <= (Double { bits: gamma::HALF_BITS }).units() {
        t.units() - c.units()
    } else {
        c.units() - t.units()
    }
}

/// A positive contrast pushes values away from the middle and a negative one
/// toward it, for every amount in `[-1, 1]`, up to rounding: a value moves the
/// other way by no more than 20480 in 2 to the power 52 over the amount; from an
/// amount of a hundredth on, that is less than one in 10 to the power 9.
pub proof fn law_contrast_direction(unit: spec_fn(Arith) -> Double, t: Double, amount: Double)
    requires
        arith::follows_ieee(unit),
        arith::rounds_closely(unit),
        arith::exp_in_order(unit),
        arith::ln_in_order(unit),
        arith::exp_in_shape(unit),
        arith::ln_in_shape(unit),
        in_unit(t),
        double::one().negated().at_most(amount),
        amount.at_most(double::one()),
    ensures
        ({
            let moved = outward(t, gamma::contrasted(unit, t, amount));
            let (s, size) = (double::one().units(), amount.absolute().units());
            &&& double::zero().at_most(amount) ==> {
                &&& -(0x5000 * (error() * s)) <= moved * size
                &&& s <= 100 * size ==> -s <= 1_000_000_000 * moved
            }
            &&& amount.at_most(double::zero()) ==> {
                &&& moved * size <= 0x5000 * (error() * s)
                &&& s <= 100 * size ==> 1_000_000_000 * moved <= s
            }
        }),
{
    let half = Double { bits: gamma::HALF_BITS };
    let (zero, one) = (double::zero(), double::one());
    let (h, s, e): (int, int, int) = (half.units(), one.units(), error());
    let size: int = amount.absolute().units();
    let c = gamma::contrasted(unit, t, amount);
    let moved: int = outward(t, c);
    lemma_constants();
    lemma_error();
    double::lemma_zero_one();
    lemma_infinity(one);
    lemma_between(one.negated(), amount, one);
    lemma_between(zero, t, one);
    lemma_infinity(amount);
    double::lemma_key_order(amount, zero);
    double::lemma_key_order(amount.absolute(), zero);
    let es: int = e * s;
    assert(es > 0) by (nonlinear_arith)
        requires
            es == e * s,
            e > 0,
            s > 0,
    ;
    assert(0 * size == 0 && (-moved) * size == -(moved * size)) by (nonlinear_arith);
    if amount.absolute().below(Double { bits: gamma::NO_CONTRAST_BITS }) {
        lemma_no_contrast(amount);
        assert(moved == 0);
    } else {
        lemma_moderate_strength(unit, amount);
        let (x, y): (int, int) = (t.units(), c.units());
        assert((x - y) * size == -((y - x) * size)) by (nonlinear_arith);
        if x <= h {
            if amount.below(zero) {
                lemma_logit_direction(unit, amount, t);
            } else {
                lemma_sigmoid_direction(unit, amount, t);
            }
        } else {
            let u_op = Arith::Sub(one, t);
            lemma_close(unit, u_op, 1);
            let u = unit(u_op);
            assert(in_unit(u));
            lemma_whole_bounds(unit, u_op, half);
            law_contrast_symmetry(unit, t, amount);
            let d = gamma::contrasted(unit, u, amount);
            let (m, n): (int, int) = (u.units(), d.units());
            let off: int = y + n - s;
            let gap: int = m + x - s;
            assert(-es <= gap * size <= es) by (nonlinear_arith)
                requires
                    -e <= gap <= e,
                    0 <= size <= s,
                    es == e * s,
                    e > 0,
            ;
            assert((y - x) * size == off * size - gap * size + (m - n) * size) by (nonlinear_arith)
                requires
                    off == y + n - s,
                    gap == m + x - s,
            ;
            assert((n - m) * size == -((m - n) * size)) by (nonlinear_arith);
            if amount.below(zero) {
                lemma_logit_direction(unit, amount, u);
            } else {
                lemma_sigmoid_direction(unit, amount, u);
            }
        }
        if s <= 100 * size {
            if amount.below(zero) {
                lemma_absolute(moved, size);
            } else {
                lemma_absolute(-moved, size);
            }
        }
    }
}

} // verus!
