//! Powers, and a gamma that another one undoes.

use vstd::prelude::*;
use vstd::arithmetic::power::*;
use vstd::arithmetic::power2::*;
use crate::arith;
use crate::arith::{above_power, below_power, Arith};
use crate::closeness::{error, lemma_close, lemma_error, lemma_relative};
use crate::double;
use crate::double::Double;
use crate::gamma;
use crate::rounding::{lemma_between, lemma_infinity, lemma_power};

verus! {

/// Powers keep the order of their bases.
proof fn lemma_base(a: int, b: int, e: nat)
    requires
        0 <= a <= b,
    ensures
        0 <= pow(a, e) <= pow(b, e),
    decreases e,
{
    reveal(pow);
    if e == 0 {
        lemma_pow0(a);
        lemma_pow0(b);
    } else {
        lemma_base(a, b, (e - 1) as nat);
        let (p, q): (int, int) = (pow(a, (e - 1) as nat), pow(b, (e - 1) as nat));
        assert(0 <= a * p <= b * q) by (nonlinear_arith)
            requires
                0 <= a <= b,
                0 <= p <= q,
        ;
    }
}

/// Bases stand in the order of their powers.
proof fn lemma_root(a: int, b: int, e: nat)
    requires
        0 <= a,
        0 <= b,
        e > 0,
        pow(a, e) <= pow(b, e),
    ensures
        a <= b,
{
    reveal(pow);
    if b < a {
        lemma_base(b + 1, a, e);
        lemma_base(b, b + 1, (e - 1) as nat);
        lemma_pow_positive(b + 1, (e - 1) as nat);
        let (p, q): (int, int) = (pow(b, (e - 1) as nat), pow(b + 1, (e - 1) as nat));
        assert(b * p < (b + 1) * q) by (nonlinear_arith)
            requires
                0 <= b,
                0 <= p <= q,
                0 < q,
        ;
    }
}

/// A power of one plus a small part grows at least as fast as its tangent.
proof fn lemma_tangent_below(m: int, j: nat)
    requires
        m > 0,
    ensures
        pow(m, j) * (m + j) <= pow(m + 1, j) * m,
    decreases j,
{
    reveal(pow);
    if j == 0 {
        lemma_pow0(m);
        lemma_pow0(m + 1);
    } else {
        let i: nat = (j - 1) as nat;
        lemma_tangent_below(m, i);
        let (p, q): (int, int) = (pow(m, i), pow(m + 1, i));
        lemma_pow_positive(m, i);
        let (a, b): (int, int) = (m * p, (m + 1) * q);
        assert(a * (m + j) <= b * m) by (nonlinear_arith)
            requires
                a == m * p,
                b == (m + 1) * q,
                p * (m + j - 1) <= q * m,
                p > 0,
                m > 0,
                j >= 1,
        ;
    }
}

/// A power of one minus a small part does not fall faster than its tangent.
proof fn lemma_tangent_minus(m: int, j: nat)
    requires
        m > 1,
    ensures
        pow(m, j) * (m - j) <= pow(m - 1, j) * m,
    decreases j,
{
    reveal(pow);
    if j == 0 {
        lemma_pow0(m);
        lemma_pow0(m - 1);
    } else {
        let i: nat = (j - 1) as nat;
        lemma_tangent_minus(m, i);
        let (p, q): (int, int) = (pow(m, i), pow(m - 1, i));
        lemma_pow_positive(m, i);
        let (a, b): (int, int) = (m * p, (m - 1) * q);
        assert(a * (m - j) <= b * m) by (nonlinear_arith)
            requires
                a == m * p,
                b == (m - 1) * q,
                p * (m - j + 1) <= q * m,
                p > 0,
                m > 1,
                j >= 1,
        ;
    }
}

/// A power of one plus a small part grows at most twice as fast as its tangent,
/// while it is small.
proof fn lemma_tangent_above(m: int, j: nat)
    requires
        m > 0,
        2 * j <= m,
    ensures
        pow(m + 1, j) * m <= pow(m, j) * (m + 2 * j),
    decreases j,
{
    reveal(pow);
    if j == 0 {
        lemma_pow0(m);
        lemma_pow0(m + 1);
    } else {
        let i: nat = (j - 1) as nat;
        lemma_tangent_above(m, i);
        let (p, q): (int, int) = (pow(m, i), pow(m + 1, i));
        lemma_pow_positive(m, i);
        let (a, b): (int, int) = (m * p, (m + 1) * q);
        assert(b * m <= a * (m + 2 * j)) by (nonlinear_arith)
            requires
                a == m * p,
                b == (m + 1) * q,
                q * m <= p * (m + 2 * (j - 1)),
                2 * j <= m,
                p > 0,
                m > 0,
                j >= 1,
        ;
    }
}

/// A product of two powers, raised once more.
proof fn lemma_raise(a: int, i: nat, b: int, j: nat, e: nat)
    ensures
        pow(pow(a, i) * pow(b, j), e) == pow(a, i * e) * pow(b, j * e),
{
    lemma_pow_distributes(pow(a, i), pow(b, j), e);
    lemma_pow_multiplies(a, i, e);
    lemma_pow_multiplies(b, j, e);
}

/// 128 to a small power is less than one plus a small part to a large one.
proof fn lemma_small_power(eta: nat, n: nat, m: nat)
    requires
        m > 0,
        7 * eta * m <= n,
    ensures
        pow(128, eta) * pow(m as int, n) <= pow(m as int + 1, n),
{
    let (a, b): (int, int) = (m as int, m as int + 1);
    lemma_tangent_below(a, m);
    lemma_pow_positive(a, m);
    let (p, q): (int, int) = (pow(a, m), pow(b, m));
    assert(2 * p <= q) by (nonlinear_arith)
        requires
            p * (a + m) <= q * a,
            a == m,
            a > 0,
    ;
    let k: nat = 7 * eta;
    lemma_base(2 * p, q, k);
    lemma_pow_distributes(2, p, k);
    lemma_pow_multiplies(a, m, k);
    lemma_pow_multiplies(b, m, k);
    lemma_pow_multiplies(2, 7, eta);
    assert(pow(2, 7) == 128) by {
        reveal_with_fuel(pow, 8);
    }
    let c: nat = m * k;
    assert(c == 7 * eta * m) by (nonlinear_arith)
        requires
            c == m * k,
            k == 7 * eta,
    ;
    assert(pow(128, eta) * pow(a, c) <= pow(b, c));
    let d: nat = (n - c) as nat;
    lemma_base(a, b, d);
    lemma_pow_adds(a, c, d);
    lemma_pow_adds(b, c, d);
    lemma_pow_positive(a, c);
    lemma_pow_positive(128, eta);
    let (x, y, z, u, v): (int, int, int, int, int) = (
        pow(128, eta),
        pow(a, c),
        pow(b, c),
        pow(a, d),
        pow(b, d),
    );
    assert(x * (y * u) <= z * v) by (nonlinear_arith)
        requires
            x * y <= z,
            0 <= u <= v,
            x > 0,
            y > 0,
    ;
}

/// What both sides of such a comparison are, raised once more.
proof fn lemma_sides(v: int, c: int, d: int, x: int, a: nat, s: nat, e: nat)
    ensures
        pow(pow(v, s) * pow(c, s) * pow(s as int, a), e) == pow(v, s * e) * pow(c, s * e) * pow(
            s as int,
            a * e,
        ),
        pow(pow(x, a) * pow(s as int, s) * pow(d, s), e) == pow(x, a * e) * pow(s as int, s * e)
            * pow(d, s * e),
{
    let t: int = s as int;
    lemma_pow_distributes(pow(v, s) * pow(c, s), pow(t, a), e);
    lemma_raise(v, s, c, s, e);
    lemma_pow_multiplies(t, a, e);
    lemma_pow_distributes(pow(x, a) * pow(t, s), pow(d, s), e);
    lemma_raise(x, a, t, s, e);
    lemma_pow_multiplies(d, s, e);
}

/// Two comparisons of six positive factors each, one after the other.
proof fn lemma_chain(
    v: int,
    c: int,
    p: int,
    x: int,
    q: int,
    d: int,
    w: int,
    cc: int,
    ss: int,
    dd: int,
)
    requires
        v > 0,
        c > 0,
        p > 0,
        q > 0,
        ss > 0,
        dd > 0,
    ensures
        v * c * p <= x * q * d && w * cc * q <= v * ss * dd ==> w * (cc * c) * p <= x * (d * dd)
            * ss,
        x * q * d <= v * c * p && v * ss * dd <= w * cc * q ==> x * (d * dd) * ss <= w * (cc * c)
            * p,
{
    let (l, r): (int, int) = (v * c * p, x * q * d);
    let (m, n): (int, int) = (w * cc * q, v * ss * dd);
    let (e, f): (int, int) = (c * p, ss * dd);
    assert(e > 0 && f > 0) by (nonlinear_arith)
        requires
            e == c * p,
            f == ss * dd,
            c > 0,
            p > 0,
            ss > 0,
            dd > 0,
    ;
    assert(n * e == l * f) by (nonlinear_arith)
        requires
            n == v * ss * dd,
            e == c * p,
            l == v * c * p,
            f == ss * dd,
    ;
    let (a, b): (int, int) = (w * (cc * c) * p, x * (d * dd) * ss);
    assert(m * e == a * q) by (nonlinear_arith)
        requires
            m == w * cc * q,
            e == c * p,
            a == w * (cc * c) * p,
    ;
    assert(r * f == b * q) by (nonlinear_arith)
        requires
            r == x * q * d,
            f == ss * dd,
            b == x * (d * dd) * ss,
    ;
    if l <= r && m <= n {
        assert(a <= b) by (nonlinear_arith)
            requires
                a * q == m * e,
                b * q == r * f,
                n * e == l * f,
                l <= r,
                m <= n,
                e > 0,
                f > 0,
                q > 0,
        ;
    }
    if r <= l && n <= m {
        assert(b <= a) by (nonlinear_arith)
            requires
                a * q == m * e,
                b * q == r * f,
                n * e == l * f,
                r <= l,
                n <= m,
                e > 0,
                f > 0,
                q > 0,
        ;
    }
}

/// A power of a power, compared with the power of the product of the exponents.
proof fn lemma_compose(x: int, a: nat, v: int, b: nat, w: int, c: int, d: int, s: nat)
    requires
        x > 0,
        v > 0,
        w > 0,
        c > 0,
        d > 0,
        s > 0,
        b <= 12 * s,
    ensures
        below_power(v, c, d, x, a, s) && below_power(w, c, d, v, b, s) && c <= d ==> pow(w, s * s)
            * pow(c, 13 * (s * s)) * pow(s as int, a * b) <= pow(x, a * b) * pow(d, 13 * (s * s))
            * pow(s as int, s * s),
        above_power(v, c, d, x, a, s) && above_power(w, c, d, v, b, s) && d <= c ==> pow(x, a * b)
            * pow(d, 13 * (s * s)) * pow(s as int, s * s) <= pow(w, s * s) * pow(c, 13 * (s * s))
            * pow(s as int, a * b),
{
    let t: int = s as int;
    let (n, sb, ab): (nat, nat, nat) = (s * s, s * b, a * b);
    assert(b * s == s * b) by (nonlinear_arith);
    lemma_sides(v, c, d, x, a, s, b);
    lemma_sides(w, c, d, v, b, s, s);
    lemma_pow_positive(v, s);
    lemma_pow_positive(w, s);
    lemma_pow_positive(c, s);
    lemma_pow_positive(d, s);
    lemma_pow_positive(t, s);
    lemma_pow_positive(t, a);
    lemma_pow_positive(t, b);
    lemma_pow_positive(x, a);
    lemma_pow_positive(v, b);
    let (l1, r1): (int, int) = (
        pow(v, s) * pow(c, s) * pow(t, a),
        pow(x, a) * pow(t, s) * pow(d, s),
    );
    let (l2, r2): (int, int) = (
        pow(w, s) * pow(c, s) * pow(t, b),
        pow(v, b) * pow(t, s) * pow(d, s),
    );
    lemma_positive(pow(v, s), pow(c, s), pow(t, a));
    lemma_positive(pow(x, a), pow(t, s), pow(d, s));
    lemma_positive(pow(w, s), pow(c, s), pow(t, b));
    lemma_positive(pow(v, b), pow(t, s), pow(d, s));
    lemma_pow_positive(v, sb);
    lemma_pow_positive(c, sb);
    lemma_pow_positive(t, ab);
    lemma_pow_positive(t, sb);
    lemma_pow_positive(t, n);
    lemma_pow_positive(d, n);
    lemma_pow_positive(c, n);
    lemma_pow_positive(d, sb);
    lemma_pow_positive(w, n);
    lemma_pow_positive(x, ab);
    lemma_chain(
        pow(v, sb),
        pow(c, sb),
        pow(t, ab),
        pow(x, ab),
        pow(t, sb),
        pow(d, sb),
        pow(w, n),
        pow(c, n),
        pow(t, n),
        pow(d, n),
    );
    // The exponents of `c` and `d`, filled up.
    assert(sb <= 12 * n) by (nonlinear_arith)
        requires
            sb == s * b,
            n == s * s,
            b <= 12 * s,
    ;
    let m: nat = (12 * n - sb) as nat;
    lemma_pow_adds(c, n, sb);
    lemma_pow_adds(d, sb, n);
    lemma_pow_adds(c, n + sb, m);
    lemma_pow_adds(d, sb + n, m);
    assert(n + sb + m == 13 * n && sb + n + m == 13 * n);
    lemma_pow_positive(c, m);
    lemma_pow_positive(d, m);
    lemma_pow_positive(c, n + sb);
    lemma_pow_positive(d, sb + n);
    let (cc, dd, cm, dm): (int, int, int, int) = (
        pow(c, n + sb),
        pow(d, sb + n),
        pow(c, m),
        pow(d, m),
    );
    let (e, f, g, h): (int, int, int, int) = (pow(w, n), pow(t, ab), pow(x, ab), pow(t, n));
    lemma_positive(e, cc, f);
    lemma_positive(g, dd, h);
    let (y, z): (int, int) = (e * cc * f, g * dd * h);
    assert(e * (cc * cm) * f == y * cm && g * (dd * dm) * h == z * dm) by (nonlinear_arith)
        requires
            y == e * cc * f,
            z == g * dd * h,
    ;
    if below_power(v, c, d, x, a, s) && below_power(w, c, d, v, b, s) && c <= d {
        lemma_base(l1, r1, b);
        lemma_base(l2, r2, s);
        lemma_base(c, d, m);
        assert(y <= z);
        assert(y * cm <= z * dm) by (nonlinear_arith)
            requires
                0 < y <= z,
                0 < cm <= dm,
        ;
    }
    if above_power(v, c, d, x, a, s) && above_power(w, c, d, v, b, s) && d <= c {
        lemma_base(r1, l1, b);
        lemma_base(r2, l2, s);
        lemma_base(d, c, m);
        assert(z <= y);
        assert(z * dm <= y * cm) by (nonlinear_arith)
            requires
                0 < z <= y,
                0 < dm <= cm,
        ;
    }
}

/// A product of three positive factors is positive.
proof fn lemma_positive(a: int, b: int, c: int)
    requires
        a > 0,
        b > 0,
        c > 0,
    ensures
        a * b * c > 0,
{
    assert(a * b * c > 0) by (nonlinear_arith)
        requires
            a > 0,
            b > 0,
            c > 0,
    ;
}

/// Where the two exponents are all but reciprocal, the roots compare.
proof fn lemma_roots(x: int, y: int, z: int, ab: nat, n: nat, m: nat, s: int)
    requires
        0 < x <= s,
        s <= 128 * x,
        y > 0,
        z > 0,
        n > 0,
        m > 0,
        ab <= n ==> 7 * (n - ab) * m <= n,
        ab > n ==> 7 * (ab - n) * m <= n,
    ensures
        pow(y, n) * pow(s, ab) <= pow(x, ab) * pow(z, n) * pow(s, n) ==> y * m <= x * z * (m + 1),
        pow(x, ab) * pow(z, n) * pow(s, n) <= pow(y, n) * pow(s, ab) ==> x * z * m <= y * (m + 1),
{
    let eta: nat = if ab <= n {
        (n - ab) as nat
    } else {
        (ab - n) as nat
    };
    let xz: int = x * z;
    assert(xz > 0) by (nonlinear_arith)
        requires
            xz == x * z,
            x > 0,
            z > 0,
    ;
    assert(7 * eta * m <= n);
    lemma_small_power(eta, n, m);
    lemma_base(x, s, eta);
    lemma_base(s, 128 * x, eta);
    lemma_pow_distributes(128, x, eta);
    lemma_pow_distributes(x, z, n);
    lemma_pow_distributes(y, m as int, n);
    lemma_pow_distributes(xz, m as int, n);
    lemma_pow_distributes(xz, m as int + 1, n);
    lemma_pow_distributes(y, m as int + 1, n);
    lemma_pow_positive(x, eta);
    lemma_pow_positive(s, eta);
    lemma_pow_positive(s, ab);
    lemma_pow_positive(s, n);
    lemma_pow_positive(x, ab);
    lemma_pow_positive(x, n);
    lemma_pow_positive(y, n);
    lemma_pow_positive(z, n);
    lemma_pow_positive(m as int, n);
    lemma_pow_positive(128, eta);
    let (yn, zn, sn, xn): (int, int, int, int) = (pow(y, n), pow(z, n), pow(s, n), pow(x, n));
    let (sa, xa, se, xe): (int, int, int, int) = (pow(s, ab), pow(x, ab), pow(s, eta), pow(x, eta));
    let (k, mn, pn): (int, int, int) = (pow(128, eta), pow(m as int, n), pow(m as int + 1, n));
    let (ym, ym1, xm, xm1): (int, int, int, int) = (
        y * m,
        y * (m as int + 1),
        xz * m,
        xz * (m as int + 1),
    );
    assert(0 < ym && 0 < ym1 && 0 < xm && 0 < xm1) by (nonlinear_arith)
        requires
            ym == y * m,
            ym1 == y * (m as int + 1),
            xm == xz * m,
            xm1 == xz * (m as int + 1),
            y > 0,
            xz > 0,
            m > 0,
    ;
    if ab <= n {
        lemma_pow_adds(s, ab, eta);
        lemma_pow_adds(x, ab, eta);
        if yn * sa <= xa * zn * sn {
            assert(yn <= (xn * zn) * k) by (nonlinear_arith)
                requires
                    yn * sa <= xa * zn * sn,
                    sn == sa * se,
                    xn == xa * xe,
                    se <= k * xe,
                    sa > 0,
                    xa > 0,
                    xe > 0,
                    zn > 0,
            ;
            assert(yn * mn <= (xn * zn) * pn) by (nonlinear_arith)
                requires
                    yn <= (xn * zn) * k,
                    k * mn <= pn,
                    xn > 0,
                    zn > 0,
                    mn > 0,
            ;
            lemma_root(ym, xm1, n);
        }
        if xa * zn * sn <= yn * sa {
            assert(xn * zn <= yn) by (nonlinear_arith)
                requires
                    xa * zn * sn <= yn * sa,
                    sn == sa * se,
                    xn == xa * xe,
                    xe <= se,
                    sa > 0,
                    xa > 0,
                    zn > 0,
            ;
            lemma_root(xz, y, n);
            assert(xm <= ym1) by (nonlinear_arith)
                requires
                    xm == xz * m,
                    ym1 == y * (m as int + 1),
                    0 < xz <= y,
                    m > 0,
            ;
        }
    } else {
        lemma_pow_adds(s, n, eta);
        lemma_pow_adds(x, n, eta);
        if yn * sa <= xa * zn * sn {
            assert(yn <= xn * zn) by (nonlinear_arith)
                requires
                    yn * sa <= xa * zn * sn,
                    sa == sn * se,
                    xa == xn * xe,
                    0 < xe <= se,
                    sn > 0,
                    xn > 0,
                    zn > 0,
            ;
            lemma_root(y, xz, n);
            assert(ym <= xm1) by (nonlinear_arith)
                requires
                    ym == y * m,
                    xm1 == xz * (m as int + 1),
                    0 < y <= xz,
                    m > 0,
            ;
        }
        if xa * zn * sn <= yn * sa {
            assert(xn * zn <= yn * k) by (nonlinear_arith)
                requires
                    xa * zn * sn <= yn * sa,
                    sa == sn * se,
                    xa == xn * xe,
                    se <= k * xe,
                    sn > 0,
                    xe > 0,
                    yn > 0,
            ;
            assert((xn * zn) * mn <= yn * pn) by (nonlinear_arith)
                requires
                    xn * zn <= yn * k,
                    k * mn <= pn,
                    yn > 0,
                    mn > 0,
            ;
            lemma_root(xm, ym1, n);
        }
    }
}

/// A power of a power whose exponents are all but reciprocal, over whole
/// numbers: it comes back to where it started.
proof fn lemma_round_trip(x: int, a: nat, v: int, b: nat, w: int, s: nat)
    requires
        arith::close_power(x, a, v, s),
        arith::close_power(v, b, w, s),
        0 < x <= s,
        s <= 128 * x,
        b <= 12 * s,
        -(s * s) <= 0x2_0000_0000_0000 * (a * b - s * s) <= s * s,
    ensures
        -x <= 0x100_0000_0000 * (w - x) <= x,
{
    let (n, ab): (nat, nat) = (s * s, a * b);
    let d: int = 0x4_0000_0000_0000;
    let m: nat = 0x4000_0000_0000;
    assert(n > 0) by (nonlinear_arith)
        requires
            n == s * s,
            s > 0,
    ;
    assert(7 * (n - ab) * m <= n && 7 * (ab - n) * m <= n);
    let k: nat = 13;
    let z: int = pow(d, k);
    lemma_pow_positive(d, k);
    lemma_pow_multiplies(d, k, n);
    // From above.
    let c: int = d - 1;
    let y: int = pow(c, k);
    lemma_pow_positive(c, k);
    lemma_pow_multiplies(c, k, n);
    lemma_compose(x, a, v, b, w, c, d, s);
    lemma_pow_distributes(w, y, n);
    let wy: int = w * y;
    assert(wy > 0) by (nonlinear_arith)
        requires
            wy == w * y,
            w > 0,
            y > 0,
    ;
    lemma_roots(x, wy, z, ab, n, m, s as int);
    assert(wy * m <= x * z * (m + 1));
    lemma_tangent_minus(d, k);
    assert(w * m * (d - 13) <= x * d * (m + 1)) by (nonlinear_arith)
        requires
            wy * m <= x * z * (m + 1),
            wy == w * y,
            z * (d - 13) <= y * d,
            x > 0,
            y > 0,
            m > 0,
            d > 13,
    ;
    // From below.
    let c: int = d + 1;
    let y: int = pow(c, k);
    lemma_pow_positive(c, k);
    lemma_pow_multiplies(c, k, n);
    lemma_compose(x, a, v, b, w, c, d, s);
    lemma_pow_distributes(w, y, n);
    let wy: int = w * y;
    assert(wy > 0) by (nonlinear_arith)
        requires
            wy == w * y,
            w > 0,
            y > 0,
    ;
    lemma_roots(x, wy, z, ab, n, m, s as int);
    assert(x * z * m <= wy * (m + 1));
    lemma_tangent_above(d, k);
    assert(x * m * d <= w * (d + 26) * (m + 1)) by (nonlinear_arith)
        requires
            x * z * m <= wy * (m + 1),
            wy == w * y,
            y * d <= z * (d + 26),
            w > 0,
            z > 0,
            m > 0,
            d > 0,
    ;
}

/// A moderate power of a number that is not too small is not too small.
proof fn lemma_not_tiny(x: int, a: nat, v: int, s: nat)
    requires
        arith::close_power(x, a, v, s),
        0 < x <= s,
        s <= 128 * x,
        a <= 12 * s,
    ensures
        s <= 0x20_0000_0000_0000_0000_0000 * v,
{
    let t: int = s as int;
    let (c, d): (int, int) = (0x4_0000_0000_0001, 0x4_0000_0000_0000);
    let k: nat = 12;
    lemma_base(t, 128 * x, a);
    lemma_pow_distributes(128, x, a);
    lemma_pow_increases(128, a, k * s);
    lemma_pow_multiplies(128, k, s);
    let e: int = pow(128, k);
    assert(e == 0x10_0000_0000_0000_0000_0000) by {
        reveal_with_fuel(pow, 13);
    }
    lemma_pow_positive(x, a);
    lemma_pow_positive(v, s);
    lemma_pow_positive(c, s);
    let (p, q, r, u): (int, int, int, int) = (pow(x, a), pow(t, s), pow(d, s), pow(v, s));
    let (f, g, h): (int, int, int) = (pow(c, s), pow(t, a), pow(e, s));
    let i: int = pow(128, a);
    assert(i * p <= h * p) by (nonlinear_arith)
        requires
            i <= h,
            p > 0,
    ;
    assert(q * r <= u * f * h) by (nonlinear_arith)
        requires
            p * q * r <= u * f * g,
            g <= h * p,
            p > 0,
            u > 0,
            f > 0,
    ;
    lemma_pow_distributes(t, d, s);
    lemma_pow_distributes(v, c, s);
    lemma_pow_distributes(v * c, e, s);
    let (l, m): (int, int) = (t * d, v * c * e);
    assert(0 <= l && 0 <= m) by (nonlinear_arith)
        requires
            l == t * d,
            m == v * c * e,
            t >= 0,
            d > 0,
            v > 0,
            c > 0,
            e > 0,
    ;
    assert(pow(v * c * e, s) == u * f * h);
    lemma_root(l, m, s);
    assert(v * c * e == v * (c * e)) by (nonlinear_arith);
}

/// Doing nothing is the power with the exponent 1.
proof fn lemma_same_power(x: int, s: nat)
    requires
        x > 0,
        s > 0,
    ensures
        arith::close_power(x, s, x, s),
{
    let t: int = s as int;
    let d: int = 0x4_0000_0000_0000;
    lemma_base(d - 1, d, s);
    lemma_base(d, d + 1, s);
    lemma_pow_positive(x, s);
    lemma_pow_positive(t, s);
    let (p, q, a, b, c): (int, int, int, int, int) = (
        pow(x, s),
        pow(t, s),
        pow(d - 1, s),
        pow(d, s),
        pow(d + 1, s),
    );
    assert(p * a * q <= p * q * b && p * q * b <= p * c * q) by (nonlinear_arith)
        requires
            a <= b <= c,
            p > 0,
            q > 0,
    ;
}

/// A reciprocal of a moderate number, up to rounding.
proof fn lemma_reciprocal(unit: spec_fn(Arith) -> Double, x: Double)
    requires
        arith::rounds_closely(unit),
        x.finite(),
        double::one().units() <= 12 * x.units(),
        x.units() <= 12 * double::one().units(),
    ensures
        ({
            let r = unit(Arith::Div(double::one(), x));
            let s = double::one().units();
            &&& r.finite()
            &&& -(s * s) <= 0x10_0000_0000_0000 * (r.units() * x.units() - s * s) <= s * s
        }),
{
    let s: int = double::one().units();
    let m: int = x.units();
    lemma_error();
    lemma_infinity(double::one());
    let op = Arith::Div(double::one(), x);
    assert(arith::exact(op) == (s * s, m));
    assert(0x20_0000_0000_0000 * m <= s * s && s * s <= 0x10_0000_0000 * s * m) by (nonlinear_arith)
        requires
            m <= 12 * s,
            s <= 12 * m,
            s >= 12 * 0x20_0000_0000_0000,
    ;
    lemma_relative(unit, op);
}

/// One gamma correction: the power that it computes, up to rounding. Where it
/// does nothing, the exponent is all but 1.
proof fn lemma_correction(
    unit: spec_fn(Arith) -> Double,
    t: Double,
    exponent: Double,
    m: int,
) -> (a: nat)
    requires
        arith::follows_ieee(unit),
        arith::rounds_closely(unit),
        arith::pow_in_order(unit),
        arith::pow_close(unit),
        1 <= m <= 85,
        double::power(-m).at_most(t),
        t.at_most(double::one()),
        exponent.finite(),
        2 * double::one().units() <= 23 * exponent.units(),
        2 * exponent.units() <= 23 * double::one().units(),
    ensures
        ({
            let r = gamma::gamma_corrected(unit, t, exponent);
            let s = double::one().units();
            let divided = unit(Arith::Div(double::one(), exponent)).units();
            &&& r.finite()
            &&& 0 < r.units() <= s
            &&& arith::close_power(t.units(), a, r.units(), s as nat)
            &&& a <= 12 * s
            &&& a == divided || (a == s && r == t && -(2 * error()) <= exponent.units() - s <= 2
                * error())
        }),
{
    let (zero, one) = (double::zero(), double::one());
    let (s, e): (int, int) = (one.units(), error());
    let (x, g): (int, int) = (t.units(), exponent.units());
    lemma_error();
    double::lemma_zero_one();
    lemma_infinity(one);
    lemma_power(-m);
    lemma_between(double::power(-m), t, one);
    let difference = unit(Arith::Sub(exponent, one));
    lemma_close(unit, Arith::Sub(exponent, one), 24);
    if gamma::negligible(difference) {
        let epsilon = Double { bits: gamma::EPSILON_BITS };
        assert(epsilon == double::power(-52));
        lemma_infinity(difference);
        double::lemma_key_order(difference, zero);
        assert(-e <= difference.units() <= e);
        lemma_near_one(unit, exponent);
        lemma_same_power(x, s as nat);
        s as nat
    } else {
        lemma_reciprocal(unit, exponent);
        let divided = unit(Arith::Div(one, exponent));
        let a: int = divided.units();
        assert(s <= 16 * a && 85 * a <= 1000 * s && 0 < a) by (nonlinear_arith)
            requires
                -(s * s) <= 0x10_0000_0000_0000 * (a * g - s * s) <= s * s,
                2 * s <= 23 * g,
                2 * g <= 23 * s,
                s > 0,
        ;
        assert(a * m <= 1000 * s) by (nonlinear_arith)
            requires
                85 * a <= 1000 * s,
                0 < a,
                m <= 85,
        ;
        let r = unit(Arith::Pow(t, divided));
        assert(t.floored_at_zero() == t);
        assert(double::power(-m).at_most(t));
        assert(r.units() > 0 && !r.nan());
        assert(r.at_most(unit(Arith::Pow(one, divided))));
        assert(unit(Arith::Pow(one, divided)) == one);
        lemma_between(zero, r, one);
        a as nat
    }
}

/// A number whose difference from 1 rounds to almost nothing is almost 1.
proof fn lemma_near_one(unit: spec_fn(Arith) -> Double, x: Double)
    requires
        arith::rounds_closely(unit),
        x.finite(),
        0 <= x.units() <= 12 * double::one().units(),
        -error() <= unit(Arith::Sub(x, double::one())).units() <= error(),
    ensures
        -(2 * error()) <= x.units() - double::one().units() <= 2 * error(),
{
    let s: int = double::one().units();
    lemma_error();
    lemma_infinity(double::one());
    let op = Arith::Sub(x, double::one());
    assert(arith::exact(op) == (x.units() - s, 1int));
    lemma_close(unit, op, 12);
    let (r, d): (int, int) = (unit(op).units(), x.units() - s);
    reveal(arith::rounds_closely);
    assert(arith::basic(op));
    let size: int = if d < 0 {
        -d
    } else {
        d
    };
    assert(0x20_0000_0000_0000 * (r - d) <= size + 0x20_0000_0000_0000);
    assert(0x20_0000_0000_0000 * (d - r) <= size + 0x20_0000_0000_0000);
}

/// A gamma is undone by its reciprocal, up to rounding: for exponents between
/// 1/11 and 11 and inputs from 1/128 to 1, an input comes back to within 2 to
/// the power -40 of itself.
pub proof fn law_gamma_undone(unit: spec_fn(Arith) -> Double, t: Double, exponent: Double)
    requires
        arith::follows_ieee(unit),
        arith::rounds_closely(unit),
        arith::pow_in_order(unit),
        arith::pow_close(unit),
        double::power(-7).at_most(t),
        t.at_most(double::one()),
        exponent.finite(),
        double::one().units() <= 11 * exponent.units(),
        exponent.units() <= 11 * double::one().units(),
    ensures
        ({
            let v = gamma::gamma_corrected(unit, t, exponent);
            let back = gamma::gamma_corrected(unit, v, unit(Arith::Div(double::one(), exponent)));
            let x = t.units();
            -x <= 0x100_0000_0000 * (back.units() - x) <= x
        }),
{
    let one = double::one();
    let (s, e): (int, int) = (one.units(), error());
    let (x, g): (int, int) = (t.units(), exponent.units());
    lemma_error();
    double::lemma_zero_one();
    lemma_power(-7);
    lemma_power(0);
    lemma_power(-85);
    lemma2_to64();
    lemma2_to64_rest();
    lemma_pow2_adds(1067, 7);
    lemma_pow2_adds(64, 21);
    lemma_pow2_adds(989, 85);
    assert(double::power(0) == one);
    let a = lemma_correction(unit, t, exponent, 7);
    let v = gamma::gamma_corrected(unit, t, exponent);
    lemma_not_tiny(x, a, v.units(), s as nat);
    lemma_reciprocal(unit, exponent);
    let inverse = unit(Arith::Div(one, exponent));
    let i: int = inverse.units();
    assert(2 * s <= 23 * i && 2 * i <= 23 * s) by (nonlinear_arith)
        requires
            -(s * s) <= 0x10_0000_0000_0000 * (i * g - s * s) <= s * s,
            s <= 11 * g,
            g <= 11 * s,
            s > 0,
    ;
    lemma_reciprocal(unit, inverse);
    let j: int = unit(Arith::Div(one, inverse)).units();
    let least: int = double::power(-85).units();
    let big: int = 0x20_0000_0000_0000_0000_0000;
    assert(s == least * big);
    let y: int = v.units();
    assert(s <= big * y);
    assert(least <= y) by (nonlinear_arith)
        requires
            s == least * big,
            s <= big * y,
            big > 0,
    ;
    assert(double::power(-85).at_most(v));
    lemma_infinity(one);
    assert(v.at_most(one));
    let b = lemma_correction(unit, v, inverse, 85);
    let w = gamma::gamma_corrected(unit, v, inverse);
    let n: int = s * s;
    assert(-(2 * e) <= g - s <= 2 * e ==> -(5 * e) <= i - s <= 5 * e) by {
        if -(2 * e) <= g - s <= 2 * e {
            lemma_reciprocal_near(i, g, 2, s, e);
        }
    }
    if a == s && a != i {
        if b != s {
            lemma_reciprocal_near(j, i, 5, s, e);
        }
    }
    let ab: int = (a * b) as int;
    assert(-n <= 0x2_0000_0000_0000 * (ab - n) <= n) by {
        if a == i && b == j {
            assert(ab == j * i) by (nonlinear_arith)
                requires
                    ab == a * b,
                    a == i,
                    b == j,
            ;
        } else if a == i {
            lemma_near_square(ab, i, s, e);
        } else if b == j {
            assert(ab == j * s) by (nonlinear_arith)
                requires
                    ab == a * b,
                    a == s,
                    b == j,
            ;
            lemma_reciprocal_near(j, i, 5, s, e);
            lemma_near_square(ab, j, s, e);
        } else {
            lemma_near_square(ab, s, s, e);
        }
    }
    lemma_round_trip(x, a, v.units(), b, w.units(), s as nat);
}

/// The reciprocal of a number that is almost 1 is almost 1.
proof fn lemma_reciprocal_near(r: int, x: int, k: int, s: int, e: int)
    requires
        s == 0x10_0000_0000_0000 * e,
        e > 0,
        0 <= k <= 5,
        -(k * e) <= x - s <= k * e,
        -(s * s) <= 0x10_0000_0000_0000 * (r * x - s * s) <= s * s,
    ensures
        -((k + 3) * e) <= r - s <= (k + 3) * e,
{
    let (ke, d): (int, int) = (k * e, x - s);
    assert(0 <= ke <= 5 * e) by (nonlinear_arith)
        requires
            ke == k * e,
            0 <= k <= 5,
            e > 0,
    ;
    let es: int = e * s;
    assert(-es <= r * x - s * s <= es) by (nonlinear_arith)
        requires
            -(s * s) <= 0x10_0000_0000_0000 * (r * x - s * s) <= s * s,
            s == 0x10_0000_0000_0000 * e,
            es == e * s,
    ;
    let bound: int = ke + 3 * e;
    assert(bound == (k + 3) * e) by (nonlinear_arith)
        requires
            bound == ke + 3 * e,
            ke == k * e,
    ;
    let f: int = r - s;
    assert(r * x - s * s == f * x + s * d) by (nonlinear_arith)
        requires
            f == r - s,
            d == x - s,
    ;
    assert(f * x <= es + ke * s && f * x >= -(es + ke * s)) by (nonlinear_arith)
        requires
            -es <= f * x + s * d <= es,
            -ke <= d <= ke,
            s > 0,
    ;
    assert(-bound <= f <= bound) by (nonlinear_arith)
        requires
            f * x <= es + ke * s,
            f * x >= -(es + ke * s),
            es == e * s,
            bound == ke + 3 * e,
            0 <= ke <= 5 * e,
            x >= s - 5 * e,
            100 * e <= s,
            e > 0,
    ;
}

/// A product of 1 and a number that is almost 1 is almost 1.
proof fn lemma_near_square(p: int, x: int, s: int, e: int)
    requires
        s == 0x10_0000_0000_0000 * e,
        e > 0,
        p == x * s,
        -(8 * e) <= x - s <= 8 * e,
    ensures
        -(s * s) <= 0x2_0000_0000_0000 * (p - s * s) <= s * s,
{
    assert(-(s * s) <= 0x2_0000_0000_0000 * (p - s * s) <= s * s) by (nonlinear_arith)
        requires
            s == 0x10_0000_0000_0000 * e,
            e > 0,
            p == x * s,
            -(8 * e) <= x - s <= 8 * e,
    ;
}

/// What the power curve gives is its input to the power of the reciprocal of
/// the exponent, up to a part in 2 to the power 50: for exponents between 2/23
/// and 23/2 and inputs in `(0, 1]` that are not too small.
pub proof fn law_gamma_value(unit: spec_fn(Arith) -> Double, t: Double, exponent: Double)
    requires
        arith::follows_ieee(unit),
        arith::rounds_closely(unit),
        arith::pow_in_order(unit),
        arith::pow_close(unit),
        double::power(-85).at_most(t),
        t.at_most(double::one()),
        exponent.finite(),
        2 * double::one().units() <= 23 * exponent.units(),
        2 * exponent.units() <= 23 * double::one().units(),
    ensures
        exists|a: nat|
            {
                let s = double::one().units();
                &&& #[trigger] arith::close_power(
                    t.units(),
                    a,
                    gamma::gamma_corrected(unit, t, exponent).units(),
                    double::one().units() as nat,
                )
                &&& -(s * s) <= 0x2_0000_0000_0000 * (a * exponent.units() - s * s) <= s * s
            },
{
    let (s, e): (int, int) = (double::one().units(), error());
    let g: int = exponent.units();
    lemma_error();
    double::lemma_zero_one();
    let a = lemma_correction(unit, t, exponent, 85);
    lemma_reciprocal(unit, exponent);
    let ag: int = a * g;
    let divided: int = unit(Arith::Div(double::one(), exponent)).units();
    if a == divided {
        assert(ag == divided * g) by (nonlinear_arith)
            requires
                ag == a * g,
                a == divided,
        ;
        assert(s * s >= 0) by (nonlinear_arith);
    } else {
        assert(ag == g * s) by (nonlinear_arith)
            requires
                ag == a * g,
                a == s,
        ;
        lemma_near_square(ag, g, s, e);
    }
}

} // verus!
