//! Binary64 numbers as bit patterns.
//!
//! The library never computes with machine floating point. It keeps a number
//! as the 64 bits of its IEEE 754 encoding, and does here what those bits
//! alone decide: ordering, clamping, sign changes and truncation. Rounded
//! arithmetic is asked of the caller, see [`crate::arith`].

use vstd::prelude::*;
use vstd::arithmetic::power2::*;
use vstd::arithmetic::div_mod::*;

verus! {

/// Weight of the sign bit.
pub const SIGN_BIT: u64 = 0x8000_0000_0000_0000;

/// Encoding of positive infinity; larger magnitudes are NaN.
pub const INFINITY_BITS: u64 = 0x7FF0_0000_0000_0000;

/// Number of fractions that share one exponent.
pub const FRACTIONS: u64 = 0x0010_0000_0000_0000;

/// 0.0
pub const ZERO_BITS: u64 = 0;

/// 1.0
pub const ONE_BITS: u64 = 0x3FF0_0000_0000_0000;

/// A binary64 number, held by its encoding.
#[derive(Clone, Copy, Debug, PartialEq, Eq, Structural)]
pub struct Double {
    pub bits: u64,
}

/// The size of a number with the given magnitude bits, in units of the
/// smallest positive number (2 to the power -1074). Infinity counts as the
/// number that would follow the largest finite one.
pub open spec fn magnitude_units(magnitude: int) -> int {
    let exponent = magnitude / (FRACTIONS as int);
    let fraction = magnitude % (FRACTIONS as int);
    if exponent == 0 {
        fraction
    } else {
        (FRACTIONS + fraction) * pow2((exponent - 1) as nat)
    }
}

/// The number `0.0`.
pub open spec fn zero() -> Double {
    Double { bits: ZERO_BITS }
}

/// The number `1.0`.
pub open spec fn one() -> Double {
    Double { bits: ONE_BITS }
}

/// The number `-0.0`.
pub open spec fn negative_zero() -> Double {
    Double { bits: SIGN_BIT }
}

/// Positive infinity.
pub open spec fn infinity() -> Double {
    Double { bits: INFINITY_BITS }
}

/// 2 to the power `e`, for an `e` from -1022 to 1023.
pub open spec fn power(e: int) -> Double {
    Double { bits: ((1023 + e) * FRACTIONS) as u64 }
}

/// Whether a number lies in `[0, 1]`.
pub open spec fn in_unit(d: Double) -> bool {
    zero().at_most(d) && d.at_most(one())
}

impl Double {
    /// Whether the sign bit is set.
    pub open spec fn negative(self) -> bool {
        self.bits >= SIGN_BIT
    }

    /// The encoding without its sign bit.
    pub open spec fn magnitude(self) -> int {
        if self.negative() {
            self.bits - SIGN_BIT
        } else {
            self.bits as int
        }
    }

    /// Whether this is not a number.
    pub open spec fn nan(self) -> bool {
        self.magnitude() > INFINITY_BITS
    }

    /// Whether this is neither infinite nor NaN.
    pub open spec fn finite(self) -> bool {
        self.magnitude() < INFINITY_BITS
    }

    /// The exact value, in units of 2 to the power -1074.
    pub open spec fn units(self) -> int {
        if self.negative() {
            -magnitude_units(self.magnitude())
        } else {
            magnitude_units(self.magnitude())
        }
    }

    /// The IEEE 754 relation `self < other`: false when either is NaN.
    pub open spec fn below(self, other: Double) -> bool {
        !self.nan() && !other.nan() && self.units() < other.units()
    }

    /// The IEEE 754 relation `self <= other`: false when either is NaN.
    pub open spec fn at_most(self, other: Double) -> bool {
        !self.nan() && !other.nan() && self.units() <= other.units()
    }

    /// The number with the sign bit cleared.
    pub open spec fn absolute(self) -> Double {
        if self.negative() {
            Double { bits: (self.bits - SIGN_BIT) as u64 }
        } else {
            self
        }
    }

    /// The number with the sign bit flipped.
    pub open spec fn negated(self) -> Double {
        if self.negative() {
            Double { bits: (self.bits - SIGN_BIT) as u64 }
        } else {
            Double { bits: (self.bits + SIGN_BIT) as u64 }
        }
    }

    /// The number restricted to `[low, high]`; NaN stays as it is.
    pub open spec fn clamped(self, low: Double, high: Double) -> Double {
        if self.below(low) {
            low
        } else if high.below(self) {
            high
        } else {
            self
        }
    }

    /// The number restricted to `[0, 1]`; NaN stays as it is.
    pub open spec fn clamped_to_unit(self) -> Double {
        self.clamped(zero(), one())
    }

    /// The number, or zero where it is negative or NaN.
    pub open spec fn floored_at_zero(self) -> Double {
        if zero().below(self) {
            self
        } else {
            zero()
        }
    }

    /// The value with its fraction cut off, restricted to `[0, 65535]`; zero
    /// for NaN.
    pub open spec fn truncated(self) -> int {
        let whole = self.units() / (pow2(1074) as int);
        if self.nan() || self.units() <= 0 {
            0
        } else if whole > u16::MAX {
            u16::MAX as int
        } else {
            whole
        }
    }

    /// The order key of a number: its magnitude bits with its sign.
    pub open spec fn key(self) -> int {
        if self.negative() {
            -self.magnitude()
        } else {
            self.magnitude()
        }
    }

    /// `self < other`, as the binary64 comparison has it.
    pub fn lt(self, other: Double) -> (r: bool)
        ensures
            r == self.below(other),
    {
        let a: u64 = self.abs().bits;
        let b: u64 = other.abs().bits;
        proof {
            lemma_key_order(self, other);
        }
        if a > INFINITY_BITS || b > INFINITY_BITS {
            false
        } else if self.bits >= SIGN_BIT {
            if other.bits >= SIGN_BIT {
                b < a
            } else {
                a != 0 || b != 0
            }
        } else {
            other.bits < SIGN_BIT && a < b
        }
    }

    /// `self <= other`, as the binary64 comparison has it.
    pub fn le(self, other: Double) -> (r: bool)
        ensures
            r == self.at_most(other),
    {
        let a: u64 = self.abs().bits;
        let b: u64 = other.abs().bits;
        a <= INFINITY_BITS && b <= INFINITY_BITS && !other.lt(self)
    }

    /// The absolute value.
    pub fn abs(self) -> (r: Double)
        ensures
            r == self.absolute(),
    {
        if self.bits >= SIGN_BIT {
            Double { bits: self.bits - SIGN_BIT }
        } else {
            self
        }
    }

    /// The number with the opposite sign.
    pub fn neg(self) -> (r: Double)
        ensures
            r == self.negated(),
    {
        if self.bits >= SIGN_BIT {
            Double { bits: self.bits - SIGN_BIT }
        } else {
            Double { bits: self.bits + SIGN_BIT }
        }
    }

    /// Restricts the number to `[low, high]`.
    pub fn clamp(self, low: Double, high: Double) -> (r: Double)
        requires
            low.at_most(high),
        ensures
            r == self.clamped(low, high),
    {
        if self.lt(low) {
            low
        } else if high.lt(self) {
            high
        } else {
            self
        }
    }

    /// Restricts the number to `[0, 1]`.
    pub fn clamp_to_unit(self) -> (r: Double)
        ensures
            r == self.clamped_to_unit(),
    {
        proof {
            lemma_key_order(zero(), one());
        }
        self.clamp(Double { bits: ZERO_BITS }, Double { bits: ONE_BITS })
    }

    /// The larger of the number and zero; zero for NaN.
    pub fn max_zero(self) -> (r: Double)
        ensures
            r == self.floored_at_zero(),
    {
        let none = Double { bits: ZERO_BITS };
        if none.lt(self) {
            self
        } else {
            none
        }
    }

    /// Cuts off the fraction and saturates, as a cast to `u16` does.
    pub fn to_u16(self) -> (r: u16)
        ensures
            r == self.truncated(),
    {
        if self.bits > INFINITY_BITS {
            proof {
                lemma_negative_units(self);
            }
            return 0;
        }
        let exponent: u64 = self.bits / FRACTIONS;
        let fraction: u64 = self.bits % FRACTIONS;
        proof {
            lemma_truncation(self);
        }
        if exponent < 1023 {
            0
        } else if exponent >= 1039 {
            u16::MAX
        } else {
            let significand: u64 = FRACTIONS + fraction;
            let shift: u64 = 1075 - exponent;
            proof {
                vstd::bits::lemma_u64_shr_is_div(significand, shift);
            }
            (significand >> shift) as u16
        }
    }
}

/// Larger magnitude bits stand for larger numbers.
pub proof fn lemma_magnitude_order(a: int, b: int)
    requires
        0 <= a < b,
    ensures
        0 <= magnitude_units(a) < magnitude_units(b),
{
    let n: int = FRACTIONS as int;
    let (ea, fa): (int, int) = (a / n, a % n);
    let (eb, fb): (int, int) = (b / n, b % n);
    lemma_fundamental_div_mod(a, n);
    lemma_fundamental_div_mod(b, n);
    assert(0 <= ea <= eb && 0 <= fa < n && 0 <= fb < n && (ea == eb ==> fa < fb)) by (nonlinear_arith)
        requires
            a == n * ea + fa,
            b == n * eb + fb,
            0 <= fa < n,
            0 <= fb < n,
            0 <= a < b,
            n > 0,
    ;
    if eb > 0 {
        let q: int = pow2((eb - 1) as nat) as int;
        lemma_pow2_pos((eb - 1) as nat);
        assert((n + fb) * q >= n + fb) by (nonlinear_arith)
            requires
                q >= 1,
                n + fb >= 0,
        ;
        if ea > 0 {
            let p: int = pow2((ea - 1) as nat) as int;
            lemma_pow2_pos((ea - 1) as nat);
            assert((n + fa) * p >= 0) by (nonlinear_arith)
                requires
                    p >= 0,
                    n + fa >= 0,
            ;
            if ea == eb {
                assert((n + fa) * q < (n + fb) * q) by (nonlinear_arith)
                    requires
                        fa < fb,
                        q >= 1,
                ;
            } else {
                lemma_pow2_unfold(ea as nat);
                assert(pow2(ea as nat) == 2 * p);
                if ea < eb - 1 {
                    lemma_pow2_strictly_increases(ea as nat, (eb - 1) as nat);
                }
                assert((n + fa) * p < (n + fb) * q) by (nonlinear_arith)
                    requires
                        0 <= fa < n,
                        0 <= fb,
                        p >= 1,
                        2 * p <= q,
                ;
            }
        }
    }
}

/// The value of a number grows with its order key.
pub proof fn lemma_key_order(a: Double, b: Double)
    ensures
        a.units() < b.units() <==> a.key() < b.key(),
        a.units() == 0 <==> a.key() == 0,
        a.units() < 0 <==> a.key() < 0,
{
    assert(magnitude_units(0) == 0);
    let (ma, mb): (int, int) = (a.magnitude(), b.magnitude());
    if ma > 0 {
        lemma_magnitude_order(0, ma);
    }
    if mb > 0 {
        lemma_magnitude_order(0, mb);
    }
    if ma < mb {
        lemma_magnitude_order(ma, mb);
    }
    if mb < ma {
        lemma_magnitude_order(mb, ma);
    }
}

/// Clamping a number leaves it within the bounds, changes nothing that lies
/// there, and leaves NaN alone.
pub proof fn lemma_clamp(d: Double, low: Double, high: Double)
    requires
        low.at_most(high),
    ensures
        d.nan() ==> d.clamped(low, high) == d,
        !d.nan() ==> low.at_most(d.clamped(low, high)) && d.clamped(low, high).at_most(high),
        low.at_most(d) && d.at_most(high) ==> d.clamped(low, high) == d,
        d.clamped(low, high).clamped(low, high) == d.clamped(low, high),
{
}

/// The bits of zero stand for 0 and those of one for more.
pub proof fn lemma_zero_one()
    ensures
        zero().units() == 0,
        zero().at_most(one()),
        zero().below(one()),
        one().units() > 0,
{
    lemma_key_order(zero(), one());
    lemma_key_order(one(), zero());
}

/// A number of value zero is one of the two zeros.
pub proof fn lemma_zero_units(d: Double)
    ensures
        d.units() == 0 <==> d.magnitude() == 0,
{
    lemma_key_order(d, d);
}

/// Truncation is the identity on the largest level.
pub proof fn lemma_truncated_full()
    ensures
        (Double { bits: 0x40EF_FFE0_0000_0000 }).truncated() == u16::MAX,
{
    let full = Double { bits: 0x40EF_FFE0_0000_0000 };
    lemma_truncation(full);
    lemma2_to64_rest();
    assert(0x40EF_FFE0_0000_0000int / 0x10_0000_0000_0000 == 1038);
    assert(0x40EF_FFE0_0000_0000int % 0x10_0000_0000_0000 == 0xF_FFE0_0000_0000);
    assert(0x1F_FFE0_0000_0000int / 0x20_0000_0000 == 0xFFFF);
}

/// A number whose bits exceed those of infinity is NaN or not above zero.
proof fn lemma_negative_units(d: Double)
    requires
        d.bits > INFINITY_BITS,
    ensures
        d.nan() || d.units() <= 0,
{
    lemma_key_order(d, zero());
}

/// What truncation comes to, by the exponent of a number that is not negative.
proof fn lemma_truncation(d: Double)
    requires
        d.bits <= INFINITY_BITS,
    ensures
        ({
            let exponent: int = d.bits as int / FRACTIONS as int;
            let significand: int = FRACTIONS + d.bits as int % FRACTIONS as int;
            if exponent < 1023 {
                d.truncated() == 0
            } else if exponent >= 1039 {
                d.truncated() == u16::MAX
            } else {
                &&& d.truncated() == significand / (pow2((1075 - exponent) as nat) as int)
                &&& d.truncated() <= u16::MAX
            }
        }),
{
    let n: int = FRACTIONS as int;
    let m: int = d.bits as int;
    let e: int = m / n;
    let f: int = m % n;
    let scale: int = pow2(1074) as int;
    lemma_fundamental_div_mod(m, n);
    lemma2_to64();
    lemma2_to64_rest();
    lemma_pow2_pos(1074);
    assert(pow2(52) == n);
    lemma_pow2_adds(52, 1022);
    if e >= 1 {
        let p: int = pow2((e - 1) as nat) as int;
        lemma_pow2_pos((e - 1) as nat);
        assert(d.units() == (n + f) * p);
        assert((n + f) * p > 0) by (nonlinear_arith)
            requires
                n + f > 0,
                p > 0,
        ;
        if e < 1023 {
            lemma_pow2_unfold(e as nat);
            assert(pow2(e as nat) == 2 * p);
            if e < 1022 {
                lemma_pow2_strictly_increases(e as nat, 1022);
            }
            assert((n + f) * p < scale) by (nonlinear_arith)
                requires
                    0 <= f < n,
                    p > 0,
                    2 * p <= pow2(1022),
                    scale == n * pow2(1022),
            ;
            lemma_basic_div(d.units(), scale);
        } else if e >= 1039 {
            if e > 1039 {
                lemma_pow2_strictly_increases(1038, (e - 1) as nat);
            }
            lemma_pow2_adds(16, 1022);
            assert((n + f) * p >= 65536 * scale) by (nonlinear_arith)
                requires
                    f >= 0,
                    n > 0,
                    p >= pow2(1038),
                    pow2(1038) == 65536 * pow2(1022),
                    scale == n * pow2(1022),
            ;
            lemma_div_is_ordered(65536 * scale, d.units(), scale);
            lemma_div_by_multiple(65536, scale);
        } else {
            let q: int = pow2((1075 - e) as nat) as int;
            lemma_pow2_pos((1075 - e) as nat);
            lemma_pow2_adds((e - 1) as nat, (1075 - e) as nat);
            assert(scale == p * q);
            lemma_div_denominator((n + f) * p, p, q);
            lemma_div_by_multiple(n + f, p);
            assert(d.units() / scale == (n + f) / q);
            if e < 1038 {
                lemma_pow2_strictly_increases(37, (1075 - e) as nat);
            }
            assert((n + f) / q <= 65535) by (nonlinear_arith)
                requires
                    0 <= f < n,
                    n == 0x10_0000_0000_0000,
                    q >= 0x20_0000_0000,
            ;
            assert((n + f) / q >= 0) by (nonlinear_arith)
                requires
                    n + f >= 0,
                    q > 0,
            ;
        }
    } else {
        lemma_pow2_pos(1022);
        assert(f < scale) by (nonlinear_arith)
            requires
                0 <= f < n,
                scale == n * pow2(1022),
                pow2(1022) >= 1,
        ;
        lemma_basic_div(f, scale);
    }
}

/// Numbers compare as their bits do: by size, with the sign on top, and not at
/// all where one of them exceeds infinity in size.
pub proof fn law_order_of_bits(a: Double, b: Double)
    ensures
        ({
            let (m, n) = (a.bits as int % 0x8000_0000_0000_0000, b.bits as int
                % 0x8000_0000_0000_0000);
            let x = if a.bits < 0x8000_0000_0000_0000 { m } else { -m };
            let y = if b.bits < 0x8000_0000_0000_0000 { n } else { -n };
            let numbers = m <= 0x7FF0_0000_0000_0000 && n <= 0x7FF0_0000_0000_0000;
            &&& a.below(b) <==> numbers && x < y
            &&& a.at_most(b) <==> numbers && x <= y
            &&& a.nan() <==> m > 0x7FF0_0000_0000_0000
            &&& a.finite() <==> m < 0x7FF0_0000_0000_0000
        }),
{
    lemma_key_order(a, b);
    lemma_key_order(b, a);
}

/// A change of sign is one of the value, and the absolute value is the value
/// without its sign.
pub proof fn law_signs(d: Double)
    ensures
        d.negated().units() == -d.units(),
        d.negated() != d,
        d.negated().negated() == d,
        d.negated().nan() == d.nan(),
        d.absolute().units() == if d.units() < 0 { -d.units() } else { d.units() },
        d.absolute() == d || d.absolute() == d.negated(),
        d.absolute().bits < 0x8000_0000_0000_0000,
{
    lemma_key_order(d, d);
}

/// No number between the bounds lies nearer to a number than what it is
/// restricted to, and NaN stays what it is.
pub proof fn law_clamped(d: Double, low: Double, high: Double, other: Double)
    requires
        low.at_most(high),
        low.at_most(other),
        other.at_most(high),
    ensures
        ({
            let r = d.clamped(low, high);
            &&& d.nan() ==> r == d
            &&& !d.nan() ==> {
                &&& low.at_most(r) && r.at_most(high)
                &&& r == d || r == low || r == high
                &&& d.units() <= r.units() ==> r.units() - d.units() <= if other.units()
                    < d.units() { d.units() - other.units() } else { other.units() - d.units() }
                &&& r.units() <= d.units() ==> d.units() - r.units() <= if other.units()
                    < d.units() { d.units() - other.units() } else { other.units() - d.units() }
            }
        }),
{
}

/// A number above zero is kept, and everything else becomes zero.
pub proof fn law_floored(d: Double)
    ensures
        !d.nan() && d.units() > 0 ==> d.floored_at_zero() == d,
        d.nan() || d.units() <= 0 ==> d.floored_at_zero() == (Double { bits: 0 }),
{
    lemma_key_order(zero(), zero());
}

/// Truncation gives the whole number below, from 0 to 65535; NaN gives 0.
pub proof fn law_truncated(d: Double)
    ensures
        0 <= d.truncated() <= 65535,
        d.nan() ==> d.truncated() == 0,
        d.truncated() > 0 ==> d.truncated() * one().units() <= d.units(),
        !d.nan() && d.truncated() < 65535 ==> d.units() < (d.truncated() + 1) * one().units(),
{
    let n: int = FRACTIONS as int;
    let s: int = pow2(1074) as int;
    lemma2_to64();
    lemma2_to64_rest();
    lemma_pow2_pos(1074);
    lemma_pow2_adds(52, 1022);
    lemma_fundamental_div_mod_converse(0x3FF0_0000_0000_0000, n, 1023, 0);
    assert(one().units() == s);
    let u: int = d.units();
    lemma_fundamental_div_mod(u, s);
    let q: int = u / s;
    assert(q * s <= u < (q + 1) * s && (u > 0 ==> q >= 0)) by (nonlinear_arith)
        requires
            u == s * q + u % s,
            0 <= u % s < s,
    ;
    assert(65535 < q ==> 65535 * s <= q * s) by (nonlinear_arith)
        requires
            s > 0,
    ;
}

} // verus!
