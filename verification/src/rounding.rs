//! What follows of rounded results from the order of exact ones.

use vstd::prelude::*;
use vstd::arithmetic::power2::*;
use vstd::arithmetic::div_mod::*;
use crate::arith;
use crate::arith::Arith;
use crate::double;
use crate::double::{in_unit, Double, FRACTIONS};

verus! {

/// 2 to the power -34, in units: the grain that the constants of a contrast are
/// counted in.
pub open spec fn grain() -> int {
    pow2(1040) as int
}

/// A number of a single bit has the value of that power.
pub proof fn lemma_power(e: int)
    requires
        -1022 <= e <= 1023,
    ensures
        double::power(e).finite(),
        !double::power(e).negative(),
        double::power(e).units() == pow2((1074 + e) as nat),
        double::power(e).units() > 0,
{
    let n: int = FRACTIONS as int;
    let m: int = (1023 + e) * n;
    assert(0 < m < 2047 * n) by (nonlinear_arith)
        requires
            m == (1023 + e) * n,
            -1022 <= e <= 1023,
            n > 0,
    ;
    assert(double::power(e).bits == m);
    lemma_fundamental_div_mod_converse(m, n, 1023 + e, 0);
    lemma2_to64();
    lemma2_to64_rest();
    assert(pow2(52) == n);
    lemma_pow2_adds(52, (1022 + e) as nat);
    lemma_pow2_pos((1074 + e) as nat);
}

/// The value of a number with the given exponent and fraction, in multiples of
/// a power of two.
proof fn lemma_value(d: Double, exponent: int, fraction: int, multiple: int, p: int)
    requires
        1 <= exponent < 2047,
        0 <= fraction < FRACTIONS,
        d.bits == exponent * FRACTIONS + fraction,
        pow2((exponent - 1) as nat) == multiple * p,
    ensures
        d.finite(),
        d.units() == ((FRACTIONS + fraction) * multiple) * p,
{
    let n: int = FRACTIONS as int;
    lemma_fundamental_div_mod_converse(d.bits as int, n, exponent, fraction);
    assert(n + fraction >= 0);
    assert((n + fraction) * (multiple * p) == ((n + fraction) * multiple) * p)
        by (nonlinear_arith);
}

/// The powers of two that the constants are made of.
proof fn lemma_scales(p: int)
    requires
        p == pow2(1015),
    ensures
        p > 0,
        pow2(1020) == 0x20 * p,
        pow2(1021) == 0x40 * p,
        pow2(1022) == 0x80 * p,
        pow2(1023) == 0x100 * p,
        pow2(1025) == 0x400 * p,
        pow2(1026) == 0x800 * p,
        pow2(1027) == 0x1000 * p,
        pow2(1028) == 0x2000 * p,
        pow2(1029) == 0x4000 * p,
        pow2(1031) == 0x1_0000 * p,
        pow2(1032) == 0x2_0000 * p,
        pow2(1034) == 0x8_0000 * p,
        pow2(1037) == 0x40_0000 * p,
        pow2(1040) == 0x200_0000 * p,
        pow2(1046) == 0x8000_0000 * p,
        pow2(1047) == 0x1_0000_0000 * p,
{
    lemma2_to64();
    lemma2_to64_rest();
    lemma_pow2_pos(1015);
    lemma_pow2_adds(1015, 5);
    lemma_pow2_adds(1015, 6);
    lemma_pow2_adds(1015, 7);
    lemma_pow2_adds(1015, 8);
    lemma_pow2_adds(1015, 10);
    lemma_pow2_adds(1015, 11);
    lemma_pow2_adds(1015, 12);
    lemma_pow2_adds(1015, 13);
    lemma_pow2_adds(1015, 14);
    lemma_pow2_adds(1015, 16);
    lemma_pow2_adds(1015, 17);
    lemma_pow2_adds(1015, 19);
    lemma_pow2_adds(1015, 22);
    lemma_pow2_adds(1015, 25);
    lemma_pow2_adds(1015, 31);
    lemma_pow2_adds(1015, 32);
}

/// The values of the constants of the library, in grains.
pub proof fn lemma_constants()
    ensures
        grain() > 0,
        double::zero().units() == 0,
        double::one().units() == 0x4_0000_0000 * grain(),
        (Double { bits: crate::gamma::HALF_BITS }).units() == 0x2_0000_0000 * grain(),
        (Double { bits: crate::gamma::TEN_BITS }).units() == 10 * double::one().units(),
        (Double { bits: crate::gamma::SIXTY_BITS }).units() == 60 * double::one().units(),
        (Double { bits: crate::gamma::NO_BLUE_BITS }).units() == 19 * double::one().units(),
        (Double { bits: crate::gamma::WHITE_POINT_BITS }).units() == 66 * double::one().units(),
        (Double { bits: crate::gamma::HUNDRED_BITS }).units() == 100 * double::one().units(),
        (Double { bits: crate::gamma::BYTE_BITS }).units() == 255 * double::one().units(),
        (Double { bits: crate::gamma::COLDEST_BITS }).units() == 1000 * double::one().units(),
        (Double { bits: 0x40B9_C800_0000_0000 }).units() == 6600 * double::one().units(),
        (Double { bits: crate::gamma::HOTTEST_BITS }).units() == 40000 * double::one().units(),
        (Double { bits: crate::gamma::MAX_STRENGTH_BITS }).units() == 1024 * double::one().units(),
        (Double { bits: crate::gamma::FULL_LEVEL_BITS }).units() == 65535 * double::one().units(),
        arith::above_one().units() == 0x4_0000_0010 * grain(),
        double::power(-34).units() == grain(),
        double::power(-28).units() == 0x40 * grain(),
        double::power(-27).units() == 0x80 * grain(),
        (Double { bits: 0x4000_0000_0020_0000 }).units() == 0x8_0000_0010 * grain(),
        (Double { bits: 0x3FDF_FFFF_FFF0_0000 }).units() == 0x1_FFFF_FFFF * grain(),
{
    let p: int = pow2(1015) as int;
    lemma_scales(p);
    double::lemma_zero_one();
    lemma_power(-34);
    lemma_power(-28);
    lemma_power(-27);
    lemma_value(Double { bits: double::ONE_BITS }, 1023, 0x0, 0x80, p);
    lemma_value(Double { bits: crate::gamma::HALF_BITS }, 1022, 0x0, 0x40, p);
    lemma_value(Double { bits: crate::gamma::TEN_BITS }, 1026, 0x4000000000000, 0x400, p);
    lemma_value(Double { bits: crate::gamma::SIXTY_BITS }, 1028, 0xE000000000000, 0x1000, p);
    lemma_value(Double { bits: crate::gamma::NO_BLUE_BITS }, 1027, 0x3000000000000, 0x800, p);
    lemma_value(Double { bits: crate::gamma::WHITE_POINT_BITS }, 1029, 0x800000000000, 0x2000, p);
    lemma_value(Double { bits: crate::gamma::HUNDRED_BITS }, 1029, 0x9000000000000, 0x2000, p);
    lemma_value(Double { bits: crate::gamma::BYTE_BITS }, 1030, 0xFE00000000000, 0x4000, p);
    lemma_value(Double { bits: crate::gamma::COLDEST_BITS }, 1032, 0xF400000000000, 0x10000, p);
    lemma_value(Double { bits: 0x40B9_C800_0000_0000 }, 1035, 0x9_C800_0000_0000, 0x8_0000, p);
    lemma_value(Double { bits: crate::gamma::HOTTEST_BITS }, 1038, 0x3880000000000, 0x400000, p);
    lemma_value(Double { bits: crate::gamma::MAX_STRENGTH_BITS }, 1033, 0x0, 0x20000, p);
    lemma_value(Double { bits: crate::gamma::FULL_LEVEL_BITS }, 1038, 0xFFFE000000000, 0x400000, p);
    lemma_value(Double { bits: 0x3FF0_0000_0040_0000 }, 1023, 0x400000, 0x80, p);
    lemma_value(Double { bits: 0x4000_0000_0020_0000 }, 1024, 0x200000, 0x100, p);
    lemma_value(Double { bits: 0x3FDF_FFFF_FFF0_0000 }, 1021, 0xFFFFFFFF00000, 0x20, p);
}

/// The first number above 6600.
pub proof fn lemma_above_white_point()
    ensures
        ({
            let d = Double { bits: 0x40B9_C800_0000_0001 };
            let s = double::one().units();
            d.finite() && 0x100_0000_0000 * (d.units() - 6600 * s) == s
        }),
{
    let p: int = pow2(1015) as int;
    lemma_scales(p);
    lemma_value(Double { bits: double::ONE_BITS }, 1023, 0x0, 0x80, p);
    let d = Double { bits: 0x40B9_C800_0000_0001 };
    lemma_value(d, 1035, 0x9_C800_0000_0001, 0x8_0000, p);
    let (m, s): (int, int) = (d.units(), double::one().units());
    assert(double::one() == Double { bits: double::ONE_BITS });
    assert(s == 0x800_0000_0000_0000 * p);
    let k: int = (FRACTIONS + 0x9_C800_0000_0001) * 0x8_0000;
    assert(k == 6600 * 0x800_0000_0000_0000 + 0x8_0000);
    assert(m == k * p);
    assert(m == 6600 * s + 0x8_0000 * p) by (nonlinear_arith)
        requires
            m == k * p,
            k == 6600 * 0x800_0000_0000_0000 + 0x8_0000,
            s == 0x800_0000_0000_0000 * p,
    ;
}

/// The last number below 6600, and the first above 1900.
pub proof fn lemma_near_thresholds()
    ensures
        ({
            let d = Double { bits: 0x40B9_C7FF_FFFF_FFFF };
            let s = double::one().units();
            d.finite() && 0x100_0000_0000 * (6600 * s - d.units()) == s
        }),
        ({
            let d = Double { bits: 0x409D_B000_0000_0001 };
            let s = double::one().units();
            d.finite() && 0x400_0000_0000 * (d.units() - 1900 * s) == s
        }),
        (Double { bits: 0x409D_B000_0000_0000 }).units() == 1900 * double::one().units(),
{
    let p: int = pow2(1015) as int;
    lemma_scales(p);
    lemma_value(Double { bits: double::ONE_BITS }, 1023, 0x0, 0x80, p);
    let (below, above) = (
        Double { bits: 0x40B9_C7FF_FFFF_FFFF },
        Double { bits: 0x409D_B000_0000_0001 },
    );
    let at = Double { bits: 0x409D_B000_0000_0000 };
    lemma2_to64();
    lemma_pow2_adds(1015, 17);
    lemma_value(below, 1035, 0x9_C7FF_FFFF_FFFF, 0x8_0000, p);
    lemma_value(above, 1033, 0xD_B000_0000_0001, 0x2_0000, p);
    lemma_value(at, 1033, 0xD_B000_0000_0000, 0x2_0000, p);
    let s: int = double::one().units();
    assert(double::one() == Double { bits: double::ONE_BITS });
    assert(s == 0x800_0000_0000_0000 * p);
    let (k, l, m): (int, int, int) = (
        (FRACTIONS + 0x9_C7FF_FFFF_FFFF) * 0x8_0000,
        (FRACTIONS + 0xD_B000_0000_0001) * 0x2_0000,
        (FRACTIONS + 0xD_B000_0000_0000) * 0x2_0000,
    );
    assert(k == 6600 * 0x800_0000_0000_0000 - 0x8_0000);
    assert(l == 1900 * 0x800_0000_0000_0000 + 0x2_0000);
    assert(m == 1900 * 0x800_0000_0000_0000);
    assert(below.units() == k * p && above.units() == l * p && at.units() == m * p);
    assert(k * p == 6600 * s - 0x8_0000 * p && l * p == 1900 * s + 0x2_0000 * p && m * p == 1900 * s)
        by (nonlinear_arith)
        requires
            k == 6600 * 0x800_0000_0000_0000 - 0x8_0000,
            l == 1900 * 0x800_0000_0000_0000 + 0x2_0000,
            m == 1900 * 0x800_0000_0000_0000,
            s == 0x800_0000_0000_0000 * p,
    ;
}

/// Whether a number is a decimal one, given in parts of 10 to the power 10, up
/// to a thousandth of such a part.
pub open spec fn decimal(d: Double, parts: int) -> bool {
    let s = double::one().units();
    d.finite() && -s <= 1000 * (10_000_000_000 * d.units() - parts * s) <= s
}

proof fn lemma_decimal(d: Double, exponent: int, fraction: int, multiple: int, parts: int)
    requires
        1016 <= exponent < 2047,
        0 <= fraction < FRACTIONS,
        d.bits == exponent * FRACTIONS + fraction,
        pow2((exponent - 1) as nat) == multiple * pow2(1015),
        ({
            let m = (FRACTIONS + fraction) * multiple;
            -0x800_0000_0000_0000 <= 1000 * (10_000_000_000 * m - parts * 0x800_0000_0000_0000)
                <= 0x800_0000_0000_0000
        }),
    ensures
        decimal(d, parts),
{
    let p: int = pow2(1015) as int;
    lemma_scales(p);
    lemma_value(Double { bits: double::ONE_BITS }, 1023, 0x0, 0x80, p);
    lemma_value(d, exponent, fraction, multiple, p);
    assert(double::one() == Double { bits: double::ONE_BITS });
    let s: int = double::one().units();
    assert(s == 0x800_0000_0000_0000 * p);
    let m: int = (FRACTIONS + fraction) * multiple;
    let u: int = d.units();
    assert(u == m * p);
    assert(-s <= 1000 * (10_000_000_000 * u - parts * s) <= s) by (nonlinear_arith)
        requires
            u == m * p,
            s == 0x800_0000_0000_0000 * p,
            -0x800_0000_0000_0000 <= 1000 * (10_000_000_000 * m - parts * 0x800_0000_0000_0000)
                <= 0x800_0000_0000_0000,
            p > 0,
    ;
}

/// The constants of the colour curves.
pub proof fn lemma_curve_constants()
    ensures
        decimal(Double { bits: crate::gamma::RED_SCALE_BITS }, 3_296_987_274_460),
        decimal(Double { bits: crate::gamma::GREEN_SCALE_BITS }, 2_881_221_695_283),
        decimal(Double { bits: crate::gamma::RED_POWER_BITS }, -1_332_047_592),
        decimal(Double { bits: crate::gamma::GREEN_POWER_BITS }, -755_148_492),
        decimal(Double { bits: crate::gamma::GREEN_LOG_SCALE_BITS }, 994_708_025_861),
        decimal(Double { bits: crate::gamma::GREEN_LOG_SHIFT_BITS }, 1_611_195_636_025),
        decimal(Double { bits: crate::gamma::BLUE_LOG_SCALE_BITS }, 1_385_177_312_231),
        decimal(Double { bits: crate::gamma::BLUE_LOG_SHIFT_BITS }, 3_050_447_927_307),
{
    lemma2_to64();
    lemma_pow2_adds(1015, 3);
    lemma_pow2_adds(1015, 4);
    lemma_pow2_adds(1015, 13);
    lemma_pow2_adds(1015, 14);
    lemma_pow2_adds(1015, 15);
    let red_scale = Double { bits: crate::gamma::RED_SCALE_BITS };
    let green_scale = Double { bits: crate::gamma::GREEN_SCALE_BITS };
    lemma_decimal(red_scale, 1031, 0x4_9B2D_FCD4_9634, 0x8000, 3_296_987_274_460);
    lemma_decimal(green_scale, 1031, 0x2_01F4_6809_09DC, 0x8000, 2_881_221_695_283);
    let (red_power, green_power) = (
        Double { bits: 0x3FC1_0CDA_8237_C045 },
        Double { bits: 0x3FB3_54F0_EFAD_26B3 },
    );
    lemma_decimal(red_power, 1020, 0x1_0CDA_8237_C045, 0x10, 1_332_047_592);
    lemma_decimal(green_power, 1019, 0x3_54F0_EFAD_26B3, 0x8, 755_148_492);
    lemma_infinity(red_power);
    lemma_infinity(green_power);
    assert(red_power.negated() == Double { bits: crate::gamma::RED_POWER_BITS });
    assert(green_power.negated() == Double { bits: crate::gamma::GREEN_POWER_BITS });
    let green_log = Double { bits: crate::gamma::GREEN_LOG_SCALE_BITS };
    let green_shift = Double { bits: crate::gamma::GREEN_LOG_SHIFT_BITS };
    lemma_decimal(green_log, 1029, 0x8_DE21_A12B_8AFE, 0x2000, 994_708_025_861);
    lemma_decimal(green_shift, 1030, 0x4_23D3_770C_50F1, 0x4000, 1_611_195_636_025);
    let blue_log = Double { bits: crate::gamma::BLUE_LOG_SCALE_BITS };
    let blue_shift = Double { bits: crate::gamma::BLUE_LOG_SHIFT_BITS };
    lemma_decimal(blue_log, 1030, 0x1_5091_4111_EAA4, 0x4000, 1_385_177_312_231);
    lemma_decimal(blue_shift, 1031, 0x3_10B7_7895_1748, 0x8000, 3_050_447_927_307);
}

/// Infinity bounds every number, and only finite numbers lie strictly within.
pub proof fn lemma_infinity(d: Double)
    requires
        !d.nan(),
    ensures
        !double::infinity().nan(),
        -double::infinity().units() <= d.units() <= double::infinity().units(),
        d.finite() <==> -double::infinity().units() < d.units() < double::infinity().units(),
        !d.finite() && d.units() > 0 ==> d == double::infinity(),
        !d.finite() ==> d.units() != 0,
        d.negated().units() == -d.units(),
        d.negated().finite() == d.finite(),
        d.negated().nan() == d.nan(),
{
    let top = double::infinity();
    double::lemma_key_order(d, top);
    double::lemma_key_order(top, d);
    double::lemma_key_order(d, top.negated());
    double::lemma_key_order(top.negated(), d);
}

/// A number between finite ones is finite.
pub proof fn lemma_between(low: Double, d: Double, high: Double)
    requires
        low.at_most(d),
        d.at_most(high),
        low.finite(),
        high.finite(),
    ensures
        d.finite(),
{
    lemma_infinity(low);
    lemma_infinity(d);
    lemma_infinity(high);
}

/// Results stand in the order of the exact results.
pub proof fn lemma_round(unit: spec_fn(Arith) -> Double, p: Arith, q: Arith)
    requires
        arith::keeps_order(unit),
        arith::basic(p),
        arith::basic(q),
        arith::exactly_at_most(p, q),
    ensures
        unit(p).at_most(unit(q)),
{
    reveal(arith::keeps_order);
}

/// The same for sums and differences, whose exact results are whole.
proof fn lemma_round_whole(unit: spec_fn(Arith) -> Double, p: Arith, q: Arith)
    requires
        arith::keeps_order(unit),
        arith::basic(p),
        arith::basic(q),
        arith::exact(p).1 == 1,
        arith::exact(q).1 == 1,
        arith::exact(p).0 <= arith::exact(q).0,
    ensures
        unit(p).at_most(unit(q)),
{
    let (x, y): (int, int) = (arith::exact(p).0, arith::exact(q).0);
    assert(x * 1 <= y * 1);
    lemma_round(unit, p, q);
}

/// A result is no smaller than a number that the exact result is no smaller
/// than.
pub proof fn lemma_at_least(unit: spec_fn(Arith) -> Double, op: Arith, c: Double)
    requires
        arith::keeps_order(unit),
        arith::exact_where_ieee_is(unit),
        arith::basic(op),
        c.finite(),
        c.units() * arith::exact(op).1 <= arith::exact(op).0,
    ensures
        c.at_most(unit(op)),
{
    double::lemma_zero_one();
    let same = Arith::Add(c, double::zero());
    assert(arith::exact(same) == (c.units(), 1int));
    lemma_round(unit, same, op);
}

/// A result is no larger than a number that the exact result is no larger than.
pub proof fn lemma_at_most(unit: spec_fn(Arith) -> Double, op: Arith, c: Double)
    requires
        arith::keeps_order(unit),
        arith::exact_where_ieee_is(unit),
        arith::basic(op),
        c.finite(),
        arith::exact(op).0 <= c.units() * arith::exact(op).1,
    ensures
        unit(op).at_most(c),
{
    double::lemma_zero_one();
    let same = Arith::Add(c, double::zero());
    assert(arith::exact(same) == (c.units(), 1int));
    lemma_round(unit, op, same);
}

/// Bounds on sums and differences.
pub proof fn lemma_whole_bounds(unit: spec_fn(Arith) -> Double, op: Arith, c: Double)
    requires
        arith::keeps_order(unit),
        arith::exact_where_ieee_is(unit),
        arith::basic(op),
        arith::exact(op).1 == 1,
        c.finite(),
    ensures
        c.units() <= arith::exact(op).0 ==> c.at_most(unit(op)),
        arith::exact(op).0 <= c.units() ==> unit(op).at_most(c),
{
    let x: int = c.units();
    assert(x * 1 == x);
    if x <= arith::exact(op).0 {
        lemma_at_least(unit, op, c);
    }
    if arith::exact(op).0 <= x {
        lemma_at_most(unit, op, c);
    }
}

/// Sums and differences keep the order of one operand.
pub proof fn lemma_add_order(unit: spec_fn(Arith) -> Double, a: Double, b: Double, c: Double)
    requires
        arith::keeps_order(unit),
        a.at_most(b),
        a.finite(),
        b.finite(),
        c.finite(),
    ensures
        unit(Arith::Add(a, c)).at_most(unit(Arith::Add(b, c))),
        unit(Arith::Add(c, a)).at_most(unit(Arith::Add(c, b))),
        unit(Arith::Sub(a, c)).at_most(unit(Arith::Sub(b, c))),
        unit(Arith::Sub(c, b)).at_most(unit(Arith::Sub(c, a))),
{
    lemma_round_whole(unit, Arith::Add(a, c), Arith::Add(b, c));
    lemma_round_whole(unit, Arith::Add(c, a), Arith::Add(c, b));
    lemma_round_whole(unit, Arith::Sub(a, c), Arith::Sub(b, c));
    lemma_round_whole(unit, Arith::Sub(c, b), Arith::Sub(c, a));
}

/// Products with a number that is not negative keep the order.
pub proof fn lemma_mul_order(unit: spec_fn(Arith) -> Double, a: Double, b: Double, k: Double)
    requires
        arith::keeps_order(unit),
        a.at_most(b),
        a.finite(),
        b.finite(),
        k.finite(),
        k.units() >= 0,
    ensures
        unit(Arith::Mul(a, k)).at_most(unit(Arith::Mul(b, k))),
        unit(Arith::Mul(k, a)).at_most(unit(Arith::Mul(k, b))),
{
    let (x, y, z): (int, int, int) = (a.units(), b.units(), k.units());
    let scale: int = double::one().units();
    double::lemma_zero_one();
    assert((x * z) * scale <= (y * z) * scale && (z * x) * scale <= (z * y) * scale)
        by (nonlinear_arith)
        requires
            x <= y,
            z >= 0,
            scale > 0,
    ;
    lemma_round(unit, Arith::Mul(a, k), Arith::Mul(b, k));
    lemma_round(unit, Arith::Mul(k, a), Arith::Mul(k, b));
}

/// A product of a number in `[0, 1]` lies between zero and the other factor.
pub proof fn lemma_mul_unit(unit: spec_fn(Arith) -> Double, v: Double, k: Double)
    requires
        arith::keeps_order(unit),
        arith::exact_where_ieee_is(unit),
        in_unit(v),
        k.finite(),
    ensures
        unit(Arith::Mul(v, k)).finite(),
        k.units() >= 0 ==> double::zero().at_most(unit(Arith::Mul(v, k))) && unit(
            Arith::Mul(v, k),
        ).at_most(k),
{
    let (x, z): (int, int) = (v.units(), k.units());
    let scale: int = double::one().units();
    double::lemma_zero_one();
    lemma_between(double::zero(), v, double::one());
    if z >= 0 {
        assert(0 <= x * z <= z * scale) by (nonlinear_arith)
            requires
                0 <= x <= scale,
                z >= 0,
        ;
        lemma_at_least(unit, Arith::Mul(v, k), double::zero());
        lemma_at_most(unit, Arith::Mul(v, k), k);
        lemma_between(double::zero(), unit(Arith::Mul(v, k)), k);
    } else {
        assert(z * scale <= x * z <= 0) by (nonlinear_arith)
            requires
                0 <= x <= scale,
                z < 0,
        ;
        lemma_at_least(unit, Arith::Mul(v, k), k);
        lemma_at_most(unit, Arith::Mul(v, k), double::zero());
        lemma_between(k, unit(Arith::Mul(v, k)), double::zero());
    }
}

/// Quotients by a finite number keep the order, or reverse it where the
/// divisor is negative.
pub proof fn lemma_div_order(unit: spec_fn(Arith) -> Double, a: Double, b: Double, d: Double)
    requires
        arith::keeps_order(unit),
        arith::carries_infinity(unit),
        a.at_most(b),
        d.finite(),
        d.units() != 0,
    ensures
        d.units() > 0 ==> unit(Arith::Div(a, d)).at_most(unit(Arith::Div(b, d))),
        d.units() < 0 ==> unit(Arith::Div(b, d)).at_most(unit(Arith::Div(a, d))),
{
    lemma_infinity(a);
    lemma_infinity(b);
    let (x, y, z): (int, int, int) = (a.units(), b.units(), d.units());
    let scale: int = double::one().units();
    double::lemma_zero_one();
    let (p, q) = (Arith::Div(a, d), Arith::Div(b, d));
    if a.finite() {
        lemma_round(unit, p, p);
        lemma_infinity(unit(p));
    }
    if b.finite() {
        lemma_round(unit, q, q);
        lemma_infinity(unit(q));
    }
    if a.finite() && b.finite() {
        if z > 0 {
            assert((x * scale) * z <= (y * scale) * z) by (nonlinear_arith)
                requires
                    x <= y,
                    scale > 0,
                    z > 0,
            ;
            lemma_round(unit, p, q);
        } else {
            assert(-(y * scale) * -z <= -(x * scale) * -z) by (nonlinear_arith)
                requires
                    x <= y,
                    scale > 0,
                    z < 0,
            ;
            lemma_round(unit, q, p);
        }
    }
}

/// The reciprocal reverses the order of numbers from 1 on, and lies in
/// `[0, 1]`.
pub proof fn lemma_reciprocal_order(unit: spec_fn(Arith) -> Double, a: Double, b: Double)
    requires
        arith::follows_ieee(unit),
        double::one().at_most(a),
        a.at_most(b),
    ensures
        unit(Arith::Div(double::one(), b)).at_most(unit(Arith::Div(double::one(), a))),
        in_unit(unit(Arith::Div(double::one(), a))),
        in_unit(unit(Arith::Div(double::one(), b))),
{
    let one = double::one();
    let scale: int = one.units();
    let (x, y): (int, int) = (a.units(), b.units());
    double::lemma_zero_one();
    lemma_infinity(a);
    lemma_infinity(b);
    let (p, q) = (Arith::Div(one, a), Arith::Div(one, b));
    if a.finite() {
        assert(0 * x <= scale * scale <= scale * x) by (nonlinear_arith)
            requires
                0 < scale <= x,
        ;
        lemma_at_least(unit, p, double::zero());
        lemma_at_most(unit, p, one);
    }
    if b.finite() {
        assert(0 * y <= scale * scale <= scale * y) by (nonlinear_arith)
            requires
                0 < scale <= y,
        ;
        lemma_at_least(unit, q, double::zero());
        lemma_at_most(unit, q, one);
    }
    if a.finite() && b.finite() {
        assert((scale * scale) * x <= (scale * scale) * y) by (nonlinear_arith)
            requires
                0 < scale,
                x <= y,
        ;
        lemma_round(unit, q, p);
    }
}

/// Clamping keeps the order.
pub proof fn lemma_clamp_order(a: Double, b: Double)
    requires
        a.at_most(b),
    ensures
        a.clamped_to_unit().at_most(b.clamped_to_unit()),
        in_unit(a.clamped_to_unit()),
        in_unit(b.clamped_to_unit()),
{
    double::lemma_zero_one();
}

/// Truncation keeps the order.
pub proof fn lemma_truncation_order(a: Double, b: Double)
    requires
        a.at_most(b),
    ensures
        a.truncated() <= b.truncated(),
{
    let scale: int = pow2(1074) as int;
    lemma_pow2_pos(1074);
    lemma_div_is_ordered(a.units(), b.units(), scale);
    if b.units() > 0 {
        lemma_div_pos_is_pos(b.units(), scale);
    }
}

} // verus!
