//! The rounded arithmetic that a gamma ramp is computed with.
//!
//! Code that needs a rounded result takes the unit that computes it as an
//! argument: any function from [`Arith`] to [`Double`]. Contracts are stated
//! for every such unit that behaves like a mathematical function.

use vstd::prelude::*;
use vstd::arithmetic::power::*;
use crate::double;
use crate::double::Double;

verus! {

/// One rounded operation with its operands.
#[derive(Clone, Copy, Debug, PartialEq, Eq, Structural)]
pub enum Arith {
    /// `a + b`
    Add(Double, Double),
    /// `a - b`
    Sub(Double, Double),
    /// `a * b`
    Mul(Double, Double),
    /// `a / b`
    Div(Double, Double),
    /// `a` to the power `b`
    Pow(Double, Double),
    /// The natural logarithm.
    Ln(Double),
    /// The exponential function.
    Exp(Double),
    /// The nearest whole number, halfway cases away from zero.
    Round(Double),
    /// The number nearest to an integer.
    FromInt(u64),
}

/// Whether `f` accepts every operation.
pub open spec fn accepts_all<F: Fn(Arith) -> Double>(f: F) -> bool {
    forall|op: Arith| #[trigger] call_requires(f, (op,))
}

/// Whether every result of `f` is the one that `unit` gives.
pub open spec fn computes<F: Fn(Arith) -> Double>(
    f: F,
    unit: spec_fn(Arith) -> Double,
) -> bool {
    forall|op: Arith, r: Double| #[trigger] call_ensures(f, (op,), r) ==> r == unit(op)
}

/// What IEEE 754 arithmetic, rounding to nearest, gives exactly.
pub open spec fn exact_where_ieee_is(unit: spec_fn(Arith) -> Double) -> bool {
    &&& forall|x: Double| x.finite() ==> #[trigger] unit(Arith::Sub(x, x)) == double::zero()
    &&& forall|x: Double|
        x.finite() && x.units() != 0 ==> #[trigger] unit(Arith::Div(x, x)) == double::one()
    &&& forall|x: Double| !x.nan() ==> #[trigger] unit(Arith::Sub(x, double::zero())) == x
    &&& forall|x: Double| !x.nan() ==> #[trigger] unit(Arith::Div(x, double::one())) == x
    &&& forall|x: Double| !x.nan() ==> #[trigger] unit(Arith::Mul(x, double::one())) == x
    &&& forall|x: Double| x.nan() ==> (#[trigger] unit(Arith::Mul(x, double::one()))).nan()
    &&& forall|x: Double| !x.nan() ==> #[trigger] unit(Arith::Mul(double::one(), x)) == x
    &&& forall|x: Double|
        !x.nan() && x.units() != 0 ==> #[trigger] unit(Arith::Add(x, double::zero())) == x
    &&& forall|x: Double|
        x.units() == 0 ==> #[trigger] unit(Arith::Add(x, double::zero())) == double::zero()
    &&& forall|x: Double|
        !x.nan() && x.units() != 0 ==> {
            let quotient = #[trigger] unit(Arith::Div(double::zero(), x));
            quotient.units() == 0 && (x.units() > 0 ==> quotient == double::zero())
        }
    &&& forall|x: Double|
        x.finite() && x.units() > 0 ==> #[trigger] unit(Arith::Mul(double::zero(), x))
            == double::zero()
    &&& unit(Arith::FromInt(0)) == double::zero()
    &&& forall|n: u64|
        n > 0 ==> {
            let number = #[trigger] unit(Arith::FromInt(n));
            number.finite() && number.units() > 0
        }
}

/// What IEEE 754 arithmetic gives for whole numbers: they round to themselves,
/// and a share of one rounds to a whole number that is no larger.
pub open spec fn rounds_like_ieee(unit: spec_fn(Arith) -> Double) -> bool {
    &&& forall|n: u32| #[trigger]
        unit(Arith::Round(unit(Arith::FromInt(n as u64)))) == unit(Arith::FromInt(n as u64))
    &&& forall|t: Double, n: u32|
        !t.negative() && t.at_most(double::one()) ==> exists|k: u32|
            k <= n && #[trigger] unit(Arith::FromInt(k as u64)) == #[trigger] unit(
                Arith::Round(unit(Arith::Mul(t, unit(Arith::FromInt(n as u64))))),
            )
}

/// What IEEE 754 arithmetic gives for parts of a whole number: `k` parts in
/// `n`, times `n`, round to `k`, and no part stays none.
#[verifier::opaque]
pub open spec fn returns_parts(unit: spec_fn(Arith) -> Double) -> bool {
    &&& forall|k: u32, n: u32|
        #![trigger unit(Arith::Div(unit(Arith::FromInt(k as u64)), unit(Arith::FromInt(n as u64))))]
        k <= n && n > 0 ==> {
            let steps = unit(Arith::FromInt(n as u64));
            let part = unit(Arith::FromInt(k as u64));
            unit(Arith::Round(unit(Arith::Mul(unit(Arith::Div(part, steps)), steps)))) == part
        }
    &&& forall|n: u32|
        #![trigger unit(Arith::FromInt(n as u64))]
        n > 0 ==> {
            let steps = unit(Arith::FromInt(n as u64));
            let nothing = double::negative_zero();
            &&& unit(Arith::Round(unit(Arith::Mul(nothing, steps)))) == nothing
            &&& unit(Arith::Div(nothing, steps)) == nothing
        }
}

/// What IEEE 754 arithmetic gives for numbers in `[0, 1]` and for NaN: the
/// distance to 1, and the share of `n` rounded to a whole one, stay what they
/// were.
pub open spec fn keeps_unit(unit: spec_fn(Arith) -> Double) -> bool {
    &&& forall|v: Double|
        {
            let distance = #[trigger] unit(Arith::Sub(double::one(), v));
            &&& double::in_unit(v) ==> double::in_unit(distance)
            &&& v.nan() ==> distance.nan()
        }
    &&& forall|v: Double, n: u32|
        #![trigger unit(Arith::Mul(v, unit(Arith::FromInt(n as u64))))]
        n > 0 ==> {
            let steps = unit(Arith::FromInt(n as u64));
            let share = unit(Arith::Div(unit(Arith::Round(unit(Arith::Mul(v, steps)))), steps));
            &&& double::in_unit(v) ==> double::in_unit(share)
            &&& v.nan() ==> share.nan()
        }
}

/// Whether an operation is one of the four basic ones on finite operands, with
/// a result.
pub open spec fn basic(op: Arith) -> bool {
    match op {
        Arith::Add(a, b) | Arith::Sub(a, b) | Arith::Mul(a, b) => a.finite() && b.finite(),
        Arith::Div(a, b) => a.finite() && b.finite() && b.units() != 0,
        _ => false,
    }
}

/// The exact result of a basic operation: a numerator and a positive
/// denominator, in units of 2 to the power -1074.
pub open spec fn exact(op: Arith) -> (int, int) {
    let scale = double::one().units();
    match op {
        Arith::Add(a, b) => (a.units() + b.units(), 1),
        Arith::Sub(a, b) => (a.units() - b.units(), 1),
        Arith::Mul(a, b) => (a.units() * b.units(), scale),
        Arith::Div(a, b) => if b.units() > 0 {
            (a.units() * scale, b.units())
        } else {
            (-(a.units() * scale), -b.units())
        },
        _ => (0, 1),
    }
}

/// Whether the exact result of `p` is no larger than that of `q`.
pub open spec fn exactly_at_most(p: Arith, q: Arith) -> bool {
    exact(p).0 * exact(q).1 <= exact(q).0 * exact(p).1
}

/// What IEEE 754 arithmetic does to order: rounding is one function of the
/// exact result and keeps the order, so do rounding to whole numbers and the
/// conversion of integers.
#[verifier::opaque]
pub open spec fn keeps_order(unit: spec_fn(Arith) -> Double) -> bool {
    &&& forall|p: Arith, q: Arith|
        basic(p) && basic(q) && exactly_at_most(p, q) ==> (#[trigger] unit(p)).at_most(
            #[trigger] unit(q),
        )
    &&& forall|a: Double, b: Double|
        a.at_most(b) ==> (#[trigger] unit(Arith::Round(a))).at_most(#[trigger] unit(Arith::Round(b)))
    &&& forall|m: u64, n: u64|
        m <= n ==> (#[trigger] unit(Arith::FromInt(m))).at_most(#[trigger] unit(Arith::FromInt(n)))
}

/// How far IEEE 754 results lie from exact ones: by no more than a part in 2 to
/// the power 53, or by one unit where that is more, as long as they are far
/// from overflow.
#[verifier::opaque]
pub open spec fn rounds_closely(unit: spec_fn(Arith) -> Double) -> bool {
    forall|op: Arith| #[trigger] basic(op) ==> {
        let (p, q) = exact(op);
        let size = if p < 0 {
            -p
        } else {
            p
        };
        size <= 0x10_0000_0000 * double::one().units() * q ==> {
            let r = unit(op);
            &&& !r.nan()
            &&& 0x20_0000_0000_0000 * (r.units() * q - p) <= size + 0x20_0000_0000_0000 * q
            &&& 0x20_0000_0000_0000 * (p - r.units() * q) <= size + 0x20_0000_0000_0000 * q
        }
    }
}

/// What rounding to whole numbers and the conversion of integers give: a number
/// at most a half away, and the integer itself.
pub open spec fn rounds_to_nearest(unit: spec_fn(Arith) -> Double) -> bool {
    &&& forall|a: Double|
        a.finite() ==> {
            let r = #[trigger] unit(Arith::Round(a));
            &&& r.finite()
            &&& 2 * (r.units() - a.units()) <= double::one().units()
            &&& 2 * (a.units() - r.units()) <= double::one().units()
        }
    &&& forall|n: u32|
        (#[trigger] unit(Arith::FromInt(n as u64))).units() == n * double::one().units()
}

/// What IEEE 754 arithmetic does with infinite operands, and where a quotient
/// is infinite.
pub open spec fn carries_infinity(unit: spec_fn(Arith) -> Double) -> bool {
    &&& unit(Arith::Div(double::one(), double::zero())) == double::infinity()
    &&& forall|x: Double|
        x.finite() ==> #[trigger] unit(Arith::Add(x, double::infinity())) == double::infinity()
    &&& forall|x: Double, y: Double|
        x.finite() && !y.finite() && !y.nan() ==> {
            let quotient = #[trigger] unit(Arith::Div(x, y));
            !quotient.nan() && quotient.units() == 0
        }
    &&& forall|x: Double, y: Double|
        !x.finite() && !x.nan() && y.finite() && y.units() != 0 ==> #[trigger] unit(
            Arith::Div(x, y),
        ) == (if y.units() > 0 {
            x
        } else {
            x.negated()
        })
}

/// The operands on which IEEE 754 arithmetic gives numbers, not NaN.
pub open spec fn avoids_nan(unit: spec_fn(Arith) -> Double) -> bool {
    &&& forall|a: Double, b: Double|
        !a.nan() && !b.nan() && (a.finite() || b.finite()) ==> !(#[trigger] unit(
            Arith::Add(a, b),
        )).nan()
    &&& forall|a: Double, b: Double|
        !a.nan() && !b.nan() && (a.finite() || b.finite()) ==> !(#[trigger] unit(
            Arith::Sub(a, b),
        )).nan()
    &&& forall|a: Double, b: Double|
        !a.nan() && !b.nan() && (a.finite() || b.units() != 0) && (b.finite() || a.units() != 0)
            ==> !(#[trigger] unit(Arith::Mul(a, b))).nan()
    &&& forall|a: Double, b: Double|
        !a.nan() && !b.nan() && (a.finite() || b.finite()) && (a.units() != 0 || b.units() != 0)
            ==> !(#[trigger] unit(Arith::Div(a, b))).nan()
    &&& forall|a: Double, b: Double|
        double::in_unit(a) && b.finite() ==> (#[trigger] unit(Arith::Sub(a, b))).finite()
}

/// All that IEEE 754 arithmetic, rounding to nearest, is known by here.
pub open spec fn follows_ieee(unit: spec_fn(Arith) -> Double) -> bool {
    &&& exact_where_ieee_is(unit)
    &&& rounds_like_ieee(unit)
    &&& returns_parts(unit)
    &&& keeps_unit(unit)
    &&& keeps_order(unit)
    &&& carries_infinity(unit)
    &&& avoids_nan(unit)
}

/// What is expected of the exponential function: it keeps the order, is 1 at
/// 0, and stays within coarse bounds.
pub open spec fn exp_in_order(unit: spec_fn(Arith) -> Double) -> bool {
    &&& forall|x: Double, y: Double|
        x.at_most(y) ==> (#[trigger] unit(Arith::Exp(x))).at_most(#[trigger] unit(Arith::Exp(y)))
    &&& unit(Arith::Exp(double::zero())) == double::one()
    &&& forall|x: Double| !x.nan() ==> double::zero().at_most(#[trigger] unit(Arith::Exp(x)))
    &&& forall|x: Double|
        double::power(-28).at_most(x) ==> above_one().at_most(#[trigger] unit(Arith::Exp(x)))
    &&& forall|x: Double|
        x.at_most(double::power(9)) ==> (#[trigger] unit(Arith::Exp(x))).at_most(
            double::power(740),
        )
}

/// 1 + 2 to the power -30.
pub open spec fn above_one() -> Double {
    Double { bits: 0x3FF0_0000_0040_0000 }
}

/// What is expected of the natural logarithm: it keeps the order, is 0 at 1
/// and above that beyond it, and stays within coarse bounds.
pub open spec fn ln_in_order(unit: spec_fn(Arith) -> Double) -> bool {
    &&& forall|x: Double, y: Double|
        double::zero().below(x) && x.at_most(y) ==> (#[trigger] unit(Arith::Ln(x))).at_most(
            #[trigger] unit(Arith::Ln(y)),
        )
    &&& unit(Arith::Ln(double::one())) == double::zero()
    &&& forall|x: Double|
        double::one().below(x) ==> double::zero().below(#[trigger] unit(Arith::Ln(x)))
    &&& forall|x: Double|
        double::zero().below(x) && x.finite() ==> {
            let log = #[trigger] unit(Arith::Ln(x));
            double::power(10).negated().at_most(log) && log.at_most(double::power(10))
        }
}

/// What is expected of powers of numbers that are not negative: they keep the
/// order of the base, reversed for a negative exponent; below 1 they reverse
/// that of the exponent; and they are exact for the base 1, for the base 0
/// with a positive exponent, and for the exponent 1.
pub open spec fn pow_in_order(unit: spec_fn(Arith) -> Double) -> bool {
    &&& forall|x: Double, y: Double|
        !x.negative() && !x.nan() && !y.nan() ==> double::zero().at_most(
            #[trigger] unit(Arith::Pow(x, y)),
        )
    &&& forall|a: Double, b: Double, y: Double|
        double::zero().at_most(a) && a.at_most(b) && double::zero().at_most(y) ==> (#[trigger] unit(
            Arith::Pow(a, y),
        )).at_most(#[trigger] unit(Arith::Pow(b, y)))
    &&& forall|a: Double, b: Double, y: Double|
        double::zero().below(a) && a.at_most(b) && y.below(double::zero()) ==> (#[trigger] unit(
            Arith::Pow(b, y),
        )).at_most(#[trigger] unit(Arith::Pow(a, y)))
    &&& forall|x: Double, y: Double, z: Double|
        double::zero().below(x) && x.at_most(double::one()) && y.at_most(z) ==> (#[trigger] unit(
            Arith::Pow(x, z),
        )).at_most(#[trigger] unit(Arith::Pow(x, y)))
    &&& forall|y: Double|
        !y.nan() ==> #[trigger] unit(Arith::Pow(double::one(), y)) == double::one()
    &&& forall|y: Double|
        double::zero().below(y) ==> #[trigger] unit(Arith::Pow(double::zero(), y))
            == double::zero()
    &&& forall|x: Double|
        double::zero().below(x) && x.finite() ==> #[trigger] unit(Arith::Pow(x, double::one()))
            == x
    &&& forall|x: Double, y: Double|
        double::one().at_most(x) && x.at_most(double::power(20)) && double::one().negated().at_most(
            y,
        ) && y.at_most(double::zero()) ==> double::power(-21).at_most(
            #[trigger] unit(Arith::Pow(x, y)),
        )
}

/// Whether `x` stands to `y` at most as `(a - 1) / (a + 1)` to
/// `(b - 1) / (b + 1)`, up to a part in 2 to the power 45 of `y`. Where `a` and
/// `b` are the exponentials of `x` and `y`, the two quotients are hyperbolic
/// tangents, whose slope falls.
pub open spec fn bends(x: int, a: int, y: int, b: int) -> bool {
    let s = double::one().units();
    0x2000_0000_0000 * (x * ((b - s) * (a + s)) - y * ((a - s) * (b + s))) <= y * ((a + s) * (b
        + s))
}

/// What is expected of the exponential function at operands of up to 6: it is
/// at most 512, lies above its tangent at 0, gives reciprocal results for
/// opposite operands, and bends as it should, all up to rounding.
pub open spec fn exp_in_shape(unit: spec_fn(Arith) -> Double) -> bool {
    let s = double::one().units();
    &&& forall|x: Double|
        !x.nan() && -(6 * s) <= x.units() <= 6 * s ==> (#[trigger] unit(Arith::Exp(x))).at_most(
            double::power(9),
        )
    &&& forall|x: Double|
        !x.nan() && 0 <= x.units() <= 6 * s ==> 0x4000_0000_0000 * (s + x.units() - (#[trigger] unit(
            Arith::Exp(x),
        )).units()) <= s
    &&& forall|x: Double, y: Double|
        {
            &&& !x.nan() && -(6 * s) <= x.units() <= 6 * s
            &&& !y.nan() && -(6 * s) <= y.units() <= 6 * s
            &&& -s <= 0x4000_0000_0000 * (x.units() + y.units()) <= s
        } ==> {
            let product = (#[trigger] unit(Arith::Exp(x))).units() * (#[trigger] unit(
                Arith::Exp(y),
            )).units();
            -(s * s) <= 0x2000_0000_0000 * (product - s * s) <= s * s
        }
    &&& forall|x: Double, y: Double|
        !x.nan() && !y.nan() && 0 <= x.units() <= y.units() <= 6 * s ==> bends(
            x.units(),
            (#[trigger] unit(Arith::Exp(x))).units(),
            y.units(),
            (#[trigger] unit(Arith::Exp(y))).units(),
        )
}

/// What is expected of the natural logarithm at operands between 1/1024 and
/// 1024: it is at most 8 in size, lies above `1 - 1 / x` from 1 on, gives
/// opposite results for reciprocal operands, and bends as the inverse of the
/// exponential function should, all up to rounding.
pub open spec fn ln_in_shape(unit: spec_fn(Arith) -> Double) -> bool {
    let s = double::one().units();
    &&& forall|x: Double|
        !x.nan() && s <= 1024 * x.units() && x.units() <= 1024 * s ==> {
            let log = #[trigger] unit(Arith::Ln(x));
            !log.nan() && -(8 * s) <= log.units() <= 8 * s
        }
    &&& forall|x: Double|
        !x.nan() && s <= x.units() <= 1024 * s ==> 0x4000_0000_0000 * ((x.units() - s) * s - (
        #[trigger] unit(Arith::Ln(x))).units() * x.units()) <= s * x.units()
    &&& forall|x: Double, y: Double|
        {
            let off = x.units() * y.units() - s * s;
            &&& !x.nan() && s <= 1024 * x.units() && x.units() <= 1024 * s
            &&& !y.nan() && s <= 1024 * y.units() && y.units() <= 1024 * s
            &&& -(s * s) <= 2 * off <= s * s
        } ==> {
            let off = x.units() * y.units() - s * s;
            let size = if off < 0 {
                -off
            } else {
                off
            };
            let sum = (#[trigger] unit(Arith::Ln(x))).units() + (#[trigger] unit(
                Arith::Ln(y),
            )).units();
            &&& 0x4000_0000_0000 * (sum * s - 2 * size) <= s * s
            &&& 0x4000_0000_0000 * (-(sum * s) - 2 * size) <= s * s
        }
    &&& forall|x: Double, y: Double|
        !x.nan() && !y.nan() && s <= x.units() <= y.units() <= 1024 * s ==> bends(
            (#[trigger] unit(Arith::Ln(x))).units(),
            x.units(),
            (#[trigger] unit(Arith::Ln(y))).units(),
            y.units(),
        )
}

/// What is expected of the rise of the natural logarithm at operands between 1
/// and 1024: from `x` to `y` it gains at least `1 - x / y`, up to rounding.
pub open spec fn ln_climbs(unit: spec_fn(Arith) -> Double) -> bool {
    let s = double::one().units();
    forall|x: Double, y: Double|
        !x.nan() && !y.nan() && s <= x.units() <= y.units() <= 1024 * s ==> 0x4000_0000_0000 * ((
        y.units() - x.units()) * s - ((#[trigger] unit(Arith::Ln(y))).units() - (#[trigger] unit(
            Arith::Ln(x),
        )).units()) * y.units()) <= s * y.units()
}

/// Whether `(v / s) * (c / d)` is at most `x / s` to the power `a / s`.
pub open spec fn below_power(v: int, c: int, d: int, x: int, a: nat, s: nat) -> bool {
    pow(v, s) * pow(c, s) * pow(s as int, a) <= pow(x, a) * pow(s as int, s) * pow(d, s)
}

/// Whether `(v / s) * (c / d)` is at least `x / s` to the power `a / s`.
pub open spec fn above_power(v: int, c: int, d: int, x: int, a: nat, s: nat) -> bool {
    pow(x, a) * pow(s as int, s) * pow(d, s) <= pow(v, s) * pow(c, s) * pow(s as int, a)
}

/// Whether `v / s` is `x / s` to the power `a / s`, up to a part in 2 to the
/// power 50.
pub open spec fn close_power(x: int, a: nat, v: int, s: nat) -> bool {
    &&& v > 0
    &&& below_power(v, 0x3_FFFF_FFFF_FFFF, 0x4_0000_0000_0000, x, a, s)
    &&& above_power(v, 0x4_0000_0000_0001, 0x4_0000_0000_0000, x, a, s)
}

/// What is expected of powers of numbers in `(0, 1]` with exponents from 1/16
/// on: they are the exact powers up to a part in 2 to the power 50, as long as
/// these are far from vanishing.
pub open spec fn pow_close(unit: spec_fn(Arith) -> Double) -> bool {
    let s = double::one().units();
    forall|x: Double, y: Double, m: int|
        #![trigger unit(Arith::Pow(x, y)), double::power(-m)]
        {
            &&& 1 <= m <= 1000
            &&& double::power(-m).at_most(x)
            &&& x.at_most(double::one())
            &&& y.finite()
            &&& s <= 16 * y.units()
            &&& y.units() * m <= 1000 * s
        } ==> !unit(Arith::Pow(x, y)).nan() && close_power(
            x.units(),
            y.units() as nat,
            unit(Arith::Pow(x, y)).units(),
            s as nat,
        )
}

/// What is expected of the functions of the C library. Its documentation
/// promises no order of rounded results; laws that need this say so.
pub open spec fn library_in_order(unit: spec_fn(Arith) -> Double) -> bool {
    exp_in_order(unit) && ln_in_order(unit) && pow_in_order(unit)
}

} // verus!
