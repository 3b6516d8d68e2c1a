//! Single-precision numbers as bit patterns.
//!
//! Physical parameters, times and radii are IEEE 754 binary32 numbers: they
//! come from the command line, the panel and the device as such and go back to
//! the device as such.  [`Scalar`] holds the bit pattern of one.  Comparisons
//! and the five basic operations work on the pattern with integers, and each
//! result is the exact result rounded to nearest, ties to even, which is the
//! one result the standard allows.  An operation with no numeric result gives
//! the quiet pattern [`NAN_BITS`].

use vstd::arithmetic::div_mod::*;
use vstd::arithmetic::power2::*;
use vstd::prelude::*;

use crate::rounding;
use crate::rounding::{BINADE, INFINITE};

verus! {

/// The sign bit.
pub const SIGN: u32 = 0x8000_0000;

/// The pattern that stands for "not a number" in results.
pub const NAN_BITS: u32 = 0x7fc0_0000;

/// Exponent of one in units of `2^-149`.
pub const ONE_EXPONENT: u32 = 149;

pub const ZERO: u32 = 0;
pub const QUARTER: u32 = 0x3e80_0000;
pub const HALF: u32 = 0x3f00_0000;
pub const ONE: u32 = 0x3f80_0000;
pub const ONE_AND_A_HALF: u32 = 0x3fc0_0000;
pub const TWO: u32 = 0x4000_0000;
pub const TWO_AND_A_HALF: u32 = 0x4020_0000;
pub const THREE: u32 = 0x4040_0000;
pub const FOUR: u32 = 0x4080_0000;
pub const SIX: u32 = 0x40c0_0000;
pub const TWELVE: u32 = 0x4140_0000;

/// A binary32 number, by its bit pattern.
#[derive(Clone, Copy, Debug, PartialEq, Eq, Structural)]
pub struct Scalar {
    pub bits: u32,
}

/// Significand of the magnitude with pattern `m`.
pub open spec fn significand(m: nat) -> nat {
    if m < BINADE {
        m
    } else {
        BINADE as nat + m % (BINADE as nat)
    }
}

/// Exponent that goes with [`significand`].
pub open spec fn exponent(m: nat) -> nat {
    if m < BINADE {
        0
    } else {
        (m / (BINADE as nat) - 1) as nat
    }
}

/// The magnitude with pattern `m` in units of `2^-149`.
///
/// The formula also gives infinity a place: it is above every finite value.
pub open spec fn units(m: nat) -> nat {
    significand(m) * pow2(exponent(m))
}

/// Units in one.
pub open spec fn one_units() -> nat {
    pow2(ONE_EXPONENT as nat)
}

/// The number with the given sign and magnitude pattern.
pub open spec fn signed(negative: bool, m: nat) -> Scalar {
    Scalar {
        bits: if negative {
            (SIGN + m) as u32
        } else {
            m as u32
        },
    }
}

impl Scalar {
    pub open spec fn of_bits_spec(bits: u32) -> Scalar {
        Scalar { bits }
    }

    pub open spec fn negative_spec(self) -> bool {
        self.bits >= SIGN
    }

    /// The pattern without its sign.
    pub open spec fn magnitude(self) -> nat {
        (self.bits % SIGN) as nat
    }

    pub open spec fn is_nan_spec(self) -> bool {
        self.magnitude() > INFINITE
    }

    pub open spec fn is_infinite(self) -> bool {
        self.magnitude() == INFINITE
    }

    pub open spec fn is_finite_spec(self) -> bool {
        self.magnitude() < INFINITE
    }

    /// The number in units of `2^-149`.
    pub open spec fn value(self) -> int {
        if self.negative_spec() {
            -(units(self.magnitude()) as int)
        } else {
            units(self.magnitude()) as int
        }
    }

    pub open spec fn nan() -> Scalar {
        Scalar { bits: NAN_BITS }
    }

    pub open spec fn lt_spec(self, other: Scalar) -> bool {
        !self.is_nan_spec() && !other.is_nan_spec() && self.value() < other.value()
    }

    pub open spec fn le_spec(self, other: Scalar) -> bool {
        !self.is_nan_spec() && !other.is_nan_spec() && self.value() <= other.value()
    }

    pub open spec fn same_spec(self, other: Scalar) -> bool {
        !self.is_nan_spec() && !other.is_nan_spec() && self.value() == other.value()
    }

    pub open spec fn negated_spec(self) -> Scalar {
        signed(!self.negative_spec(), self.magnitude())
    }

    pub open spec fn abs_spec(self) -> Scalar {
        signed(false, self.magnitude())
    }

    /// Sum.  Opposite operands cancel to a positive zero.
    #[verifier::opaque]
    pub open spec fn plus_spec(self, other: Scalar) -> Scalar {
        if self.is_nan_spec() || other.is_nan_spec() {
            Scalar::nan()
        } else if self.is_infinite() {
            if other.is_infinite() && self.negative_spec() != other.negative_spec() {
                Scalar::nan()
            } else {
                self
            }
        } else if other.is_infinite() {
            other
        } else {
            let v = self.value() + other.value();
            if v == 0 {
                signed(self.negative_spec() && other.negative_spec(), 0)
            } else if v < 0 {
                signed(true, rounding::round_magnitude((-v) as nat, 1))
            } else {
                signed(false, rounding::round_magnitude(v as nat, 1))
            }
        }
    }

    pub open spec fn minus_spec(self, other: Scalar) -> Scalar {
        self.plus_spec(other.negated_spec())
    }

    /// Product.
    #[verifier::opaque]
    pub open spec fn times_spec(self, other: Scalar) -> Scalar {
        let negative = self.negative_spec() != other.negative_spec();
        if self.is_nan_spec() || other.is_nan_spec() {
            Scalar::nan()
        } else if self.is_infinite() || other.is_infinite() {
            if self.magnitude() == 0 || other.magnitude() == 0 {
                Scalar::nan()
            } else {
                signed(negative, INFINITE as nat)
            }
        } else {
            signed(
                negative,
                rounding::round_magnitude(units(self.magnitude()) * units(other.magnitude()), one_units()),
            )
        }
    }

    /// Quotient.
    #[verifier::opaque]
    pub open spec fn over_spec(self, other: Scalar) -> Scalar {
        let negative = self.negative_spec() != other.negative_spec();
        if self.is_nan_spec() || other.is_nan_spec() {
            Scalar::nan()
        } else if self.is_infinite() {
            if other.is_infinite() {
                Scalar::nan()
            } else {
                signed(negative, INFINITE as nat)
            }
        } else if other.is_infinite() {
            signed(negative, 0)
        } else if other.magnitude() == 0 {
            if self.magnitude() == 0 {
                Scalar::nan()
            } else {
                signed(negative, INFINITE as nat)
            }
        } else {
            signed(
                negative,
                rounding::round_magnitude(units(self.magnitude()) * one_units(), units(other.magnitude())),
            )
        }
    }

    /// Square root.
    #[verifier::opaque]
    pub open spec fn sqrt_spec(self) -> Scalar {
        if self.is_nan_spec() {
            Scalar::nan()
        } else if self.magnitude() == 0 {
            self
        } else if self.negative_spec() {
            Scalar::nan()
        } else if self.is_infinite() {
            self
        } else {
            signed(false, rounding::round_root(units(self.magnitude()) * one_units()))
        }
    }

    /// The larger operand; a NaN gives way to the other.
    pub open spec fn max_spec(self, other: Scalar) -> Scalar {
        if self.is_nan_spec() || self.lt_spec(other) {
            other
        } else {
            self
        }
    }

    /// The operand, moved into `[low, high]`; a NaN stays one.
    pub open spec fn clamp_spec(self, low: Scalar, high: Scalar) -> Scalar {
        if self.lt_spec(low) {
            low
        } else if high.lt_spec(self) {
            high
        } else {
            self
        }
    }

    /// The number nearest to an integer.
    #[verifier::opaque]
    pub open spec fn of_integer_spec(n: u64) -> Scalar {
        signed(false, rounding::round_magnitude(n as nat * one_units(), 1))
    }

    /// The fourth, third and second powers by repeated multiplication.
    pub open spec fn squared_spec(self) -> Scalar {
        self.times_spec(self)
    }

    pub open spec fn cubed_spec(self) -> Scalar {
        self.times_spec(self.times_spec(self))
    }

    pub open spec fn fourth_spec(self) -> Scalar {
        self.times_spec(self).times_spec(self.times_spec(self))
    }

    /// The number with the given pattern.
    #[verifier::when_used_as_spec(of_bits_spec)]
    pub fn of_bits(bits: u32) -> (r: Scalar)
        ensures
            r == Scalar::of_bits_spec(bits),
    {
        Scalar { bits }
    }

    /// Whether the sign bit is set.
    #[verifier::when_used_as_spec(negative_spec)]
    pub fn negative(self) -> (r: bool)
        ensures
            r == self.negative_spec(),
    {
        self.bits >= SIGN
    }

    fn pattern(self) -> (r: u32)
        ensures
            r == self.magnitude(),
    {
        self.bits % SIGN
    }

    #[verifier::when_used_as_spec(is_nan_spec)]
    pub fn is_nan(self) -> (r: bool)
        ensures
            r == self.is_nan_spec(),
    {
        self.pattern() > INFINITE
    }

    #[verifier::when_used_as_spec(is_finite_spec)]
    pub fn is_finite(self) -> (r: bool)
        ensures
            r == self.is_finite_spec(),
    {
        self.pattern() < INFINITE
    }

    fn of_parts(negative: bool, m: u32) -> (r: Scalar)
        requires
            m <= INFINITE,
        ensures
            r == signed(negative, m as nat),
    {
        if negative {
            Scalar { bits: SIGN + m }
        } else {
            Scalar { bits: m }
        }
    }

    fn parts(self) -> (r: (u128, i32))
        requires
            self.is_finite_spec(),
        ensures
            r.0 == significand(self.magnitude()),
            r.1 == exponent(self.magnitude()),
            r.0 < 0x100_0000,
            0 <= r.1 <= 253,
    {
        let m: u32 = self.pattern();
        proof {
            lemma_parts_bounded(m as nat);
        }
        if m < BINADE {
            (m as u128, 0)
        } else {
            ((BINADE + m % BINADE) as u128, (m / BINADE) as i32 - 1)
        }
    }

    /// Position of the number in the order of the format.
    fn rank(self) -> (r: i64)
        ensures
            r == if self.negative_spec() {
                -(self.magnitude() as int)
            } else {
                self.magnitude() as int
            },
    {
        if self.bits >= SIGN {
            -((self.bits - SIGN) as i64)
        } else {
            self.bits as i64
        }
    }

    /// `self < other`.
    #[verifier::when_used_as_spec(lt_spec)]
    pub fn lt(self, other: Scalar) -> (r: bool)
        ensures
            r == self.lt_spec(other),
    {
        proof {
            lemma_rank_order(self, other);
        }
        !self.is_nan() && !other.is_nan() && self.rank() < other.rank()
    }

    /// `self <= other`.
    #[verifier::when_used_as_spec(le_spec)]
    pub fn le(self, other: Scalar) -> (r: bool)
        ensures
            r == self.le_spec(other),
    {
        proof {
            lemma_rank_order(self, other);
        }
        !self.is_nan() && !other.is_nan() && self.rank() <= other.rank()
    }

    /// `self == other` as numbers: zeros agree, NaN agrees with nothing.
    #[verifier::when_used_as_spec(same_spec)]
    pub fn same(self, other: Scalar) -> (r: bool)
        ensures
            r == self.same_spec(other),
    {
        proof {
            lemma_rank_order(self, other);
        }
        !self.is_nan() && !other.is_nan() && self.rank() == other.rank()
    }

    /// `-self`.
    #[verifier::when_used_as_spec(negated_spec)]
    pub fn negated(self) -> (r: Scalar)
        ensures
            r == self.negated_spec(),
    {
        if self.bits >= SIGN {
            Scalar { bits: self.bits - SIGN }
        } else {
            Scalar { bits: self.bits + SIGN }
        }
    }

    /// `|self|`.
    #[verifier::when_used_as_spec(abs_spec)]
    pub fn abs(self) -> (r: Scalar)
        ensures
            r == self.abs_spec(),
    {
        Scalar { bits: self.bits % SIGN }
    }

    /// `self + other`.
    #[verifier::when_used_as_spec(plus_spec)]
    pub fn plus(self, other: Scalar) -> (r: Scalar)
        ensures
            r == self.plus_spec(other),
    {
        proof {
            reveal(Scalar::plus_spec);
        }
        if self.is_nan() || other.is_nan() {
            return Scalar { bits: NAN_BITS };
        }
        if self.pattern() == INFINITE {
            if other.pattern() == INFINITE && self.negative() != other.negative() {
                return Scalar { bits: NAN_BITS };
            }
            return self;
        }
        if other.pattern() == INFINITE {
            return other;
        }
        if self.parts().1 >= other.parts().1 {
            finite_sum(self, other)
        } else {
            finite_sum(other, self)
        }
    }

    /// `self - other`.
    #[verifier::when_used_as_spec(minus_spec)]
    pub fn minus(self, other: Scalar) -> (r: Scalar)
        ensures
            r == self.minus_spec(other),
    {
        self.plus(other.negated())
    }

    /// `self * other`.
    #[verifier::when_used_as_spec(times_spec)]
    pub fn times(self, other: Scalar) -> (r: Scalar)
        ensures
            r == self.times_spec(other),
    {
        proof {
            reveal(Scalar::times_spec);
        }
        let negative: bool = self.negative() != other.negative();
        if self.is_nan() || other.is_nan() {
            return Scalar { bits: NAN_BITS };
        }
        if self.pattern() == INFINITE || other.pattern() == INFINITE {
            if self.pattern() == 0 || other.pattern() == 0 {
                return Scalar { bits: NAN_BITS };
            }
            return Scalar::of_parts(negative, INFINITE);
        }
        let (a, x): (u128, i32) = self.parts();
        let (b, y): (u128, i32) = other.parts();
        assert(a * b < 0x1_0000_0000_0000) by (nonlinear_arith)
            requires
                0 <= a < 0x100_0000,
                0 <= b < 0x100_0000,
        ;
        let m: u32 = rounding::round_scaled(a * b, x + y - 149);
        proof {
            lemma_product(a as nat, x as nat, b as nat, y as nat);
        }
        Scalar::of_parts(negative, m)
    }

    /// `self / other`.
    #[verifier::when_used_as_spec(over_spec)]
    pub fn over(self, other: Scalar) -> (r: Scalar)
        ensures
            r == self.over_spec(other),
    {
        proof {
            reveal(Scalar::over_spec);
        }
        let negative: bool = self.negative() != other.negative();
        if self.is_nan() || other.is_nan() {
            return Scalar { bits: NAN_BITS };
        }
        if self.pattern() == INFINITE {
            if other.pattern() == INFINITE {
                return Scalar { bits: NAN_BITS };
            }
            return Scalar::of_parts(negative, INFINITE);
        }
        if other.pattern() == INFINITE {
            return Scalar::of_parts(negative, 0);
        }
        if other.pattern() == 0 {
            if self.pattern() == 0 {
                return Scalar { bits: NAN_BITS };
            }
            return Scalar::of_parts(negative, INFINITE);
        }
        let (a, x): (u128, i32) = self.parts();
        let (b, y): (u128, i32) = other.parts();
        proof {
            lemma_parts_bounded(self.magnitude());
            lemma_parts_bounded(other.magnitude());
        }
        if a == 0 {
            proof {
                lemma_units_zero(other.magnitude());
                lemma_zero_quotient(units(other.magnitude()));
                assert(self.magnitude() == 0);
            }
            return Scalar::of_parts(negative, 0);
        }
        let n: u128 = a * 0x1_0000_0000_0000_0000;
        let q: u128 = n / b;
        let sticky: u128 = if n % b == 0 {
            0
        } else {
            1
        };
        proof {
            lemma_fundamental_div_mod(n as int, b as int);
            assert(q >= 0x100_0000 && q < 0x100_0000_0000_0000_0000_0000) by (nonlinear_arith)
                requires
                    n == b * q + n % b,
                    0 <= n % b < b,
                    0 < b < 0x100_0000,
                    0x1_0000_0000_0000_0000 <= n < 0x100_0000_0000_0000_0000_0000,
                    q >= 0,
            ;
        }
        let m: u32 = rounding::round_scaled(2 * q + sticky, x - y + 84);
        proof {
            rounding::lemma_round_sticky(n as nat, b as nat, x - y + 85);
            lemma_quotient(a as nat, x as nat, b as nat, y as nat);
        }
        Scalar::of_parts(negative, m)
    }

    /// The square root.
    #[verifier::when_used_as_spec(sqrt_spec)]
    pub fn sqrt(self) -> (r: Scalar)
        ensures
            r == self.sqrt_spec(),
    {
        proof {
            reveal(Scalar::sqrt_spec);
        }
        if self.is_nan() {
            return Scalar { bits: NAN_BITS };
        }
        if self.pattern() == 0 {
            return self;
        }
        if self.negative() {
            return Scalar { bits: NAN_BITS };
        }
        if self.pattern() == INFINITE {
            return self;
        }
        let (a, x): (u128, i32) = self.parts();
        proof {
            lemma_parts_bounded(self.magnitude());
        }
        // The radicand is `a * 2^(x + 149)`; split off an even power.
        let odd: bool = x % 2 == 0;
        let b: u128 = if odd {
            2 * a
        } else {
            a
        };
        let h: i32 = if odd {
            (x + 148) / 2 - 40
        } else {
            (x + 149) / 2 - 40
        };
        let w: u128 = b * 0x1_0000_0000_0000_0000_0000;
        let q: u64 = rounding::integer_root(w);
        assert(q >= 0x100_0000) by (nonlinear_arith)
            requires
                w < (q + 1) * (q + 1),
                w >= 0x1_0000_0000_0000_0000_0000,
                q >= 0,
        ;
        let square: u128 = {
            assert((q as int) * (q as int) <= w);
            q as u128 * q as u128
        };
        let sticky: u128 = if square == w {
            0
        } else {
            1
        };
        let m: u32 = rounding::round_scaled(2 * (q as u128) + sticky, h - 1);
        proof {
            rounding::lemma_round_root_sticky(w as nat, q as nat, h as nat);
            lemma_radicand(a as nat, x as nat, h as nat, w as nat);
        }
        Scalar::of_parts(false, m)
    }

    /// The larger of two numbers.
    #[verifier::when_used_as_spec(max_spec)]
    pub fn max(self, other: Scalar) -> (r: Scalar)
        ensures
            r == self.max_spec(other),
    {
        if self.is_nan() || self.lt(other) {
            other
        } else {
            self
        }
    }

    /// The number moved into `[low, high]`.
    #[verifier::when_used_as_spec(clamp_spec)]
    pub fn clamp(self, low: Scalar, high: Scalar) -> (r: Scalar)
        ensures
            r == self.clamp_spec(low, high),
    {
        if self.lt(low) {
            low
        } else if high.lt(self) {
            high
        } else {
            self
        }
    }

    /// The number nearest to `n`.
    #[verifier::when_used_as_spec(of_integer_spec)]
    pub fn of_integer(n: u64) -> (r: Scalar)
        ensures
            r == Scalar::of_integer_spec(n),
    {
        proof {
            reveal(Scalar::of_integer_spec);
        }
        let m: u32 = rounding::round_scaled(n as u128, 149);
        Scalar::of_parts(false, m)
    }

    /// `self^2`.
    #[verifier::when_used_as_spec(squared_spec)]
    pub fn squared(self) -> (r: Scalar)
        ensures
            r == self.squared_spec(),
    {
        self.times(self)
    }

    /// `self^3`.
    #[verifier::when_used_as_spec(cubed_spec)]
    pub fn cubed(self) -> (r: Scalar)
        ensures
            r == self.cubed_spec(),
    {
        self.times(self.times(self))
    }

    /// `self^4`.
    #[verifier::when_used_as_spec(fourth_spec)]
    pub fn fourth(self) -> (r: Scalar)
        ensures
            r == self.fourth_spec(),
    {
        let square: Scalar = self.times(self);
        square.times(square)
    }
}

// ---------------------------------------------------------------------------
//  Patterns and values
// ---------------------------------------------------------------------------

/// The next pattern stands for a larger value.
proof fn lemma_units_step(m: nat)
    ensures
        units(m) < units(m + 1),
{
    let b = BINADE as nat;
    lemma2_to64();
    if m + 1 < b {
        assert(units(m) == m * pow2(0));
        assert(units(m + 1) == (m + 1) * pow2(0));
    } else if m + 1 == b {
        assert(m % b == m);
        assert(units(m) == m * pow2(0));
        assert(b / b == 1 && b % b == 0);
        assert(units(b) == b * pow2(0));
    } else {
        let e = m / b;
        let f = m % b;
        lemma_fundamental_div_mod(m as int, b as int);
        let x = (e - 1) as nat;
        lemma_pow2_pos(x);
        let p = pow2(x);
        if f + 1 < b {
            lemma_fundamental_div_mod_converse((m + 1) as int, b as int, e as int, (f + 1) as int);
            assert((b + f) * p < (b + (f + 1)) * p) by (nonlinear_arith)
                requires
                    p > 0,
            ;
        } else {
            assert((m + 1) == (e + 1) * b + 0) by (nonlinear_arith)
                requires
                    m == b * e + f,
                    f + 1 == b,
            ;
            lemma_fundamental_div_mod_converse((m + 1) as int, b as int, (e + 1) as int, 0);
            lemma_pow2_unfold(e);
            assert((b + f) * p < b * (2 * p)) by (nonlinear_arith)
                requires
                    p > 0,
                    f < b,
            ;
            assert(significand(m + 1) == b);
            assert(exponent(m + 1) == e);
        }
    }
}

/// Larger patterns stand for larger values.
pub proof fn lemma_units_order(m: nat, n: nat)
    requires
        m < n,
    ensures
        units(m) < units(n),
    decreases n - m,
{
    lemma_units_step(m);
    if m + 1 < n {
        lemma_units_order(m + 1, n);
    }
}

/// Only the zero pattern stands for zero.
pub proof fn lemma_units_zero(m: nat)
    ensures
        units(0) == 0,
        m > 0 ==> units(m) > 0,
{
    lemma2_to64();
    assert(significand(0) == 0);
    assert(0 * pow2(exponent(0)) == 0);
    if m > 0 {
        lemma_units_order(0, m);
    }
}

/// A value of the format rounds to itself.
pub proof fn lemma_round_exact(m: nat)
    requires
        m <= INFINITE,
    ensures
        rounding::round_magnitude(units(m), 1) == m,
{
    let b = BINADE as nat;
    let g = significand(m);
    let x = exponent(m);
    lemma2_to64();
    lemma_fundamental_div_mod(m as int, b as int);
    lemma_pow2_pos(x);
    let p = pow2(x);
    let n = g * p;
    assert(n / 1 == n);
    if x == 0 {
        assert(n == g) by (nonlinear_arith)
            requires
                n == g * p,
                p == 1,
        ;
        rounding::lemma_bit_len_range(n);
        if rounding::bit_len(n) > 24 {
            if rounding::bit_len(n) > 25 {
                lemma_pow2_strictly_increases(24, (rounding::bit_len(n) - 1) as nat);
            }
        }
        assert(rounding::excess(n) == 0);
        lemma_fundamental_div_mod_converse(n as int, 1, n as int, 0);
        assert(rounding::nearest_even(n, 1 * pow2(0)) == n);
        assert(g == m) by {
            if m >= b {
                assert(m / b == 1);
            }
        }
    } else {
        rounding::lemma_pow2_sum(23, x);
        rounding::lemma_pow2_sum(24, x);
        assert(pow2(23) * p <= g * p < pow2(24) * p) by (nonlinear_arith)
            requires
                pow2(23) <= g < pow2(24),
                p > 0,
        ;
        rounding::lemma_bit_len_unique(n, 24 + x);
        assert(rounding::excess(n) == x);
        lemma_fundamental_div_mod_converse(n as int, p as int, g as int, 0);
        assert(1 * p == p);
        assert(rounding::nearest_even(n, 1 * p) == g);
        assert(x * b + g == m) by (nonlinear_arith)
            requires
                m == b * (x + 1) + m % b,
                g == b + m % b,
        ;
    }
}

/// A value far below the last digit of another does not change it.
proof fn lemma_absorbed(m: nat, delta: nat, x: nat)
    requires
        m < INFINITE,
        x == exponent(m),
        x >= 2,
        delta < pow2((x - 2) as nat),
    ensures
        rounding::round_magnitude(units(m) + delta, 1) == m,
        units(m) >= delta,
        rounding::round_magnitude((units(m) - delta) as nat, 1) == m,
{
    let b = BINADE as nat;
    let g = significand(m);
    lemma2_to64();
    lemma_fundamental_div_mod(m as int, b as int);
    lemma_pow2_pos((x - 2) as nat);
    lemma_pow2_unfold(x);
    lemma_pow2_unfold((x - 1) as nat);
    let p = pow2(x);
    let half = pow2((x - 1) as nat);
    assert(b <= g < 2 * b);
    assert(x * b + g == m) by (nonlinear_arith)
        requires
            m == b * (x + 1) + m % b,
            g == b + m % b,
    ;
    rounding::lemma_pow2_sum(23, x);
    rounding::lemma_pow2_sum(24, x);
    // Above.
    let up = g * p + delta;
    assert(pow2(23) * p <= up) by (nonlinear_arith)
        requires
            pow2(23) <= g,
            p > 0,
            up == g * p + delta,
            delta >= 0,
    ;
    assert(up < pow2(24) * p) by (nonlinear_arith)
        requires
            g + 1 <= pow2(24),
            up == g * p + delta,
            delta < p,
            p > 0,
    ;
    rounding::lemma_bit_len_unique(up, 24 + x);
    assert(up / 1 == up);
    lemma_fundamental_div_mod_converse(up as int, p as int, g as int, delta as int);
    assert(1 * p == p);
    assert(rounding::nearest_even(up, 1 * p) == g);
    // Below.
    assert(g * p >= p) by (nonlinear_arith)
        requires
            g >= 1,
            p > 0,
    ;
    let down = (g * p - delta) as nat;
    assert(down / 1 == down);
    if delta == 0 {
    } else if g > b {
        assert(pow2(23) * p <= down) by (nonlinear_arith)
            requires
                g >= pow2(23) + 1,
                down == g * p - delta,
                delta < p,
                p > 0,
        ;
        rounding::lemma_bit_len_unique(down, 24 + x);
        assert(down == (g - 1) * p + (p - delta)) by (nonlinear_arith)
            requires
                down == g * p - delta,
        ;
        lemma_fundamental_div_mod_converse(down as int, p as int, g - 1, p - delta);
        assert(rounding::nearest_even(down, 1 * p) == g);
    } else {
        rounding::lemma_pow2_sum(22, x);
        assert(g == pow2(23));
        rounding::lemma_pow2_sum(23, (x - 1) as nat);
        rounding::lemma_pow2_sum(24, (x - 1) as nat);
        assert(pow2(23) * half <= down) by (nonlinear_arith)
            requires
                down == pow2(23) * p - delta,
                p == 2 * half,
                delta < half,
                pow2(23) == 0x80_0000,
        ;
        assert(down < pow2(24) * half) by (nonlinear_arith)
            requires
                down == pow2(23) * p - delta,
                delta > 0,
                p == 2 * half,
                pow2(24) == 2 * pow2(23),
        ;
        rounding::lemma_bit_len_unique(down, (23 + x) as nat);
        assert(rounding::excess(down) == x - 1);
        assert(down == (2 * g - 1) * half + (half - delta)) by (nonlinear_arith)
            requires
                down == g * p - delta,
                p == 2 * half,
        ;
        lemma_fundamental_div_mod_converse(down as int, half as int, 2 * g - 1, half - delta);
        assert(1 * half == half);
        assert(rounding::nearest_even(down, 1 * half) == 2 * g);
        assert((x - 1) * b + 2 * g == x * b + g) by (nonlinear_arith)
            requires
                g == b,
        ;
    }
}

/// Exponents of finite magnitudes are below 254, significands below `2^24`.
pub proof fn lemma_parts_bounded(m: nat)
    requires
        m < INFINITE,
    ensures
        significand(m) < 0x100_0000,
        exponent(m) <= 253,
        m > 0 ==> significand(m) > 0,
        exponent(m) > 0 ==> significand(m) >= 0x80_0000,
{
    let b = BINADE as nat;
    lemma_fundamental_div_mod(m as int, b as int);
}

/// Sum of two finite numbers, the first with the larger exponent.
fn finite_sum(big: Scalar, small: Scalar) -> (r: Scalar)
    requires
        big.is_finite_spec(),
        small.is_finite_spec(),
        exponent(big.magnitude()) >= exponent(small.magnitude()),
    ensures
        r == big.plus_spec(small),
        r == small.plus_spec(big),
{
    proof {
        reveal(Scalar::plus_spec);
    }
    let (a, x): (u128, i32) = big.parts();
    let (b, y): (u128, i32) = small.parts();
    let gap: u32 = (x - y) as u32;
    let ghost p = pow2(y as nat);
    proof {
        lemma_pow2_pos(y as nat);
    }
    if gap > 64 {
        proof {
            lemma_far_sum(big, small);
        }
        return big;
    }
    proof {
        rounding::lemma_pow2_sum(gap as nat, y as nat);
        lemma2_to64();
        if gap < 64 {
            lemma_pow2_strictly_increases(gap as nat, 64);
        }
        assert(a * pow2(gap as nat) < 0x100_0000_0000_0000_0000_0000) by (nonlinear_arith)
            requires
                0 <= a < 0x100_0000,
                0 < pow2(gap as nat) <= 0x1_0000_0000_0000_0000,
        ;
        assert(a * pow2(x as nat) == (a * pow2(gap as nat)) * p) by (nonlinear_arith)
            requires
                pow2(x as nat) == pow2(gap as nat) * p,
        ;
    }
    let scaled: u128 = a * rounding::power_of_two(gap);
    if big.negative() == small.negative() {
        let total: u128 = scaled + b;
        proof {
            assert(scaled * p + b * p == total * p) by (nonlinear_arith)
                requires
                    total == scaled + b,
            ;
            lemma_sign_of_product(total as int, p as int);
        }
        let m: u32 = rounding::round_scaled(total, y);
        if total == 0 {
            Scalar::of_parts(big.negative(), 0)
        } else {
            Scalar::of_parts(big.negative(), m)
        }
    } else if scaled >= b {
        let total: u128 = (scaled - b) as u128;
        proof {
            assert(scaled * p - b * p == total * p) by (nonlinear_arith)
                requires
                    total == scaled - b,
            ;
            lemma_sign_of_product(total as int, p as int);
        }
        let m: u32 = rounding::round_scaled(total, y);
        if total == 0 {
            Scalar::of_parts(false, 0)
        } else {
            Scalar::of_parts(big.negative(), m)
        }
    } else {
        let total: u128 = (b - scaled) as u128;
        proof {
            assert(b * p - scaled * p == total * p) by (nonlinear_arith)
                requires
                    total == b - scaled,
            ;
            lemma_sign_of_product(total as int, p as int);
        }
        let m: u32 = rounding::round_scaled(total, y);
        Scalar::of_parts(small.negative(), m)
    }
}

proof fn lemma_sign_of_product(t: int, p: int)
    requires
        p > 0,
        t >= 0,
    ensures
        t * p >= 0,
        t * p == 0 <==> t == 0,
{
    assert(t * p >= 0 && (t * p == 0 <==> t == 0)) by (nonlinear_arith)
        requires
            p > 0,
            t >= 0,
    ;
}

/// A sum whose exponents are far apart is its larger operand.
proof fn lemma_far_sum(big: Scalar, small: Scalar)
    requires
        big.is_finite_spec(),
        small.is_finite_spec(),
        exponent(big.magnitude()) > exponent(small.magnitude()) + 64,
    ensures
        big.plus_spec(small) == big,
        small.plus_spec(big) == big,
{
    reveal(Scalar::plus_spec);
    let m = big.magnitude();
    let x = exponent(m);
    let y = exponent(small.magnitude());
    let b = significand(small.magnitude());
    lemma_parts_bounded(m);
    lemma_parts_bounded(small.magnitude());
    lemma2_to64();
    rounding::lemma_pow2_sum(24, y);
    let delta = b * pow2(y);
    assert(delta < pow2(24) * pow2(y)) by (nonlinear_arith)
        requires
            delta == b * pow2(y),
            b < pow2(24),
            pow2(y) > 0,
    ;
    lemma_pow2_strictly_increases(24 + y, (x - 2) as nat);
    lemma_absorbed(m, delta, x);
    lemma_pow2_strictly_increases(24 + y, x);
    assert(units(m) > delta) by (nonlinear_arith)
        requires
            units(m) == significand(m) * pow2(x),
            significand(m) >= 1,
            pow2(x) > delta,
    ;
}

/// The order of patterns is the order of values.
proof fn lemma_rank_order(a: Scalar, b: Scalar)
    ensures
        ({
            let ra = if a.negative_spec() {
                -(a.magnitude() as int)
            } else {
                a.magnitude() as int
            };
            let rb = if b.negative_spec() {
                -(b.magnitude() as int)
            } else {
                b.magnitude() as int
            };
            &&& ra < rb <==> a.value() < b.value()
            &&& ra == rb <==> a.value() == b.value()
        }),
{
    let m = a.magnitude();
    let n = b.magnitude();
    lemma_units_zero(m);
    lemma_units_zero(n);
    if m < n {
        lemma_units_order(m, n);
    } else if n < m {
        lemma_units_order(n, m);
    }
}

/// The product of two values is the product of their significands, scaled.
proof fn lemma_product(a: nat, x: nat, b: nat, y: nat)
    ensures
        rounding::round_at(a * b, 1, x + y - 149) == rounding::round_magnitude(
            (a * pow2(x)) * (b * pow2(y)),
            one_units(),
        ),
{
    rounding::lemma_pow2_sum(x, y);
    lemma_pow2_pos(149);
    let e = x + y;
    assert((a * pow2(x)) * (b * pow2(y)) == (a * b) * pow2(e)) by (nonlinear_arith)
        requires
            pow2(e) == pow2(x) * pow2(y),
    ;
    rounding::lemma_round_at_shift(a * b, 1, e, -149);
    assert(rounding::round_at((a * b) * pow2(e), 1, -149) == rounding::round_magnitude(
        (a * b) * pow2(e),
        1 * pow2(149),
    ));
}

/// The quotient of two values is the quotient of their significands, scaled.
proof fn lemma_quotient(a: nat, x: nat, b: nat, y: nat)
    requires
        b > 0,
    ensures
        rounding::round_at(a * 0x1_0000_0000_0000_0000, b, x - y + 85) == rounding::round_magnitude(
            (a * pow2(x)) * one_units(),
            b * pow2(y),
        ),
{
    lemma2_to64();
    rounding::lemma_pow2_sum(x, 149);
    rounding::lemma_pow2_sum(64, 85);
    rounding::lemma_round_at_shift(a, b, 64, x - y + 85);
    let e = x + 149;
    assert((a * pow2(x)) * pow2(149) == a * pow2(e)) by (nonlinear_arith)
        requires
            pow2(e) == pow2(x) * pow2(149),
    ;
    rounding::lemma_round_at_shift(a, b, e, -(y as int));
    assert(rounding::round_at(a * pow2(e), b, -(y as int)) == rounding::round_magnitude(
        a * pow2(e),
        b * pow2(y),
    )) by {
        if y == 0 {
            assert(a * pow2(e) * pow2(0) == a * pow2(e));
            assert(b * pow2(0) == b);
        }
    }
}

/// Zero over anything rounds to zero.
proof fn lemma_zero_quotient(d: nat)
    requires
        d > 0,
    ensures
        rounding::round_magnitude(units(0) * one_units(), d) == 0,
{
    lemma2_to64();
    lemma_units_zero(0);
    assert(units(0) * one_units() == 0);
    lemma_fundamental_div_mod_converse(0, d as int, 0, 0);
    assert(d * pow2(0) == d);
}

/// The radicand of a square root, split into an even power and the rest.
proof fn lemma_radicand(a: nat, x: nat, h: nat, w: nat)
    requires
        x % 2 == 0 ==> w == 2 * a * 0x1_0000_0000_0000_0000_0000 && 2 * (h + 40) == x + 148,
        x % 2 == 1 ==> w == a * 0x1_0000_0000_0000_0000_0000 && 2 * (h + 40) == x + 149,
    ensures
        w * (pow2(h) * pow2(h)) == (a * pow2(x)) * one_units(),
{
    lemma2_to64();
    rounding::lemma_pow2_sum(64, 16);
    assert(pow2(80) == 0x1_0000_0000_0000_0000_0000);
    rounding::lemma_pow2_sum(h, h);
    rounding::lemma_pow2_sum(x, 149);
    rounding::lemma_pow2_sum(80, 2 * h);
    lemma_pow2_unfold(x + 149);
    let p = pow2(2 * h);
    assert(pow2(h) * pow2(h) == p);
    if x % 2 == 0 {
        assert(80 + 2 * h == x + 148);
        assert(w * p == (a * pow2(x)) * pow2(149)) by (nonlinear_arith)
            requires
                w == 2 * a * pow2(80),
                pow2((80 + 2 * h) as nat) == pow2(80) * p,
                pow2(x) * pow2(149) == 2 * pow2((80 + 2 * h) as nat),
        ;
    } else {
        assert(80 + 2 * h == x + 149);
        assert(w * p == (a * pow2(x)) * pow2(149)) by (nonlinear_arith)
            requires
                w == a * pow2(80),
                pow2((80 + 2 * h) as nat) == pow2(80) * p,
                pow2(x) * pow2(149) == pow2((80 + 2 * h) as nat),
        ;
    }
}

// ---------------------------------------------------------------------------
//  Consequences
// ---------------------------------------------------------------------------

/// A rational that does not exceed a value of the format does not round past
/// it.
pub proof fn lemma_round_bounded(n: nat, d: nat, m: nat)
    requires
        d > 0,
        n <= d * units(m),
        m <= INFINITE,
    ensures
        rounding::round_magnitude(n, d) <= m,
{
    rounding::lemma_round_monotone(n, d * units(m), d);
    rounding::lemma_round_scales(units(m), 1, d);
    assert(d * 1 == d);
    lemma_round_exact(m);
}

/// A number times one is the number itself.
pub proof fn lemma_times_one(a: Scalar)
    requires
        a.is_finite(),
    ensures
        a.times(Scalar::of_bits(ONE)) == a,
{
    reveal(Scalar::times_spec);
    let m = a.magnitude();
    let one = Scalar::of_bits(ONE);
    lemma2_to64();
    assert(one.magnitude() == ONE);
    assert(significand(ONE as nat) == 0x80_0000);
    assert(exponent(ONE as nat) == 126);
    rounding::lemma_pow2_sum(23, 126);
    assert(units(ONE as nat) == one_units());
    lemma_pow2_pos(149);
    let p = pow2(149);
    assert(units(m) * p == p * units(m)) by (nonlinear_arith);
    assert(p == p * 1);
    rounding::lemma_round_scales(units(m), 1, p);
    lemma_round_exact(m);
}

/// What an integer is worth: at most 64 digits keep it finite.
pub proof fn lemma_of_integer(n: u64)
    ensures
        Scalar::of_integer(n).is_finite(),
        !Scalar::of_integer(n).negative(),
        n < 0x100_0000 ==> Scalar::of_integer(n).value() == n * one_units(),
{
    reveal(Scalar::of_integer_spec);
    lemma2_to64();
    rounding::lemma_pow2_sum(64, 149);
    rounding::lemma_pow2_sum(23, 190);
    // The pattern of 2^64.
    let top = (191 * 0x80_0000) as nat;
    assert(significand(top) == 0x80_0000 && exponent(top) == 190);
    let u = n as nat * one_units();
    assert(u <= 1 * units(top)) by (nonlinear_arith)
        requires
            u == n * pow2(149),
            n <= pow2(64),
            pow2(149) > 0,
            units(top) == pow2(64) * pow2(149),
    ;
    lemma_round_bounded(u, 1, top);
    if n < 0x100_0000 {
        lemma_small_integer(n as nat);
    }
}

/// Integers of at most 24 digits are values of the format.
proof fn lemma_small_integer(n: nat)
    requires
        n < 0x100_0000,
    ensures
        units(rounding::round_magnitude(n * one_units(), 1)) == n * one_units(),
{
    let u = n * one_units();
    lemma2_to64();
    lemma_pow2_pos(149);
    if n == 0 {
        lemma_units_zero(0);
        lemma_round_exact(0);
        assert(0 * one_units() == 0);
    } else {
        rounding::lemma_bit_len_range(n);
        let l = rounding::bit_len(n);
        if l > 24 {
            if l > 25 {
                lemma_pow2_strictly_increases(24, (l - 1) as nat);
            }
        }
        // Shift the integer up to a full significand.
        let k = (24 - l) as nat;
        let g = n * pow2(k);
        rounding::lemma_pow2_sum(l, k);
        rounding::lemma_pow2_sum((l - 1) as nat, k);
        assert(pow2(23) <= g < pow2(24)) by (nonlinear_arith)
            requires
                g == n * pow2(k),
                pow2((l - 1) as nat) <= n < pow2(l),
                pow2(23) == pow2((l - 1) as nat) * pow2(k),
                pow2(24) == pow2(l) * pow2(k),
                pow2(k) > 0,
        ;
        let x = (149 - k) as nat;
        rounding::lemma_pow2_sum(k, x);
        let b = BINADE as nat;
        let m = x * b + g;
        assert(m == (x + 1) * b + (g - b)) by (nonlinear_arith)
            requires
                m == x * b + g,
        ;
        lemma_fundamental_div_mod_converse(m as int, b as int, (x + 1) as int, g - b);
        assert(m >= b) by (nonlinear_arith)
            requires
                m == (x + 1) * b + (g - b),
                g >= b,
                x >= 0,
                b >= 0,
        ;
        assert(units(m) == g * pow2(x));
        assert(g * pow2(x) == u) by (nonlinear_arith)
            requires
                g == n * pow2(k),
                u == n * pow2(149),
                pow2(149) == pow2(k) * pow2(x),
        ;
        assert(m <= INFINITE) by (nonlinear_arith)
            requires
                m == x * b + g,
                x <= 149,
                g < 2 * b,
                b == 0x80_0000,
                INFINITE == 0x7f80_0000u32,
        ;
        lemma_round_exact(m);
    }
}

/// A pattern with a sign.
pub proof fn lemma_signed(negative: bool, m: nat)
    requires
        m <= INFINITE,
    ensures
        signed(negative, m).negative() == negative,
        signed(negative, m).magnitude() == m,
        !signed(negative, m).is_nan(),
        signed(negative, m).value() == if negative {
            -(units(m) as int)
        } else {
            units(m) as int
        },
{
}

/// A sum that rounds upwards of zero is no less than a term it exceeds.
proof fn lemma_round_above(m: nat, v: nat)
    requires
        m <= INFINITE,
        units(m) <= v,
    ensures
        units(m) <= units(rounding::round_magnitude(v, 1)),
        rounding::round_magnitude(v, 1) <= INFINITE,
{
    let r = rounding::round_magnitude(v, 1);
    rounding::lemma_round_monotone(units(m), v, 1);
    lemma_round_exact(m);
    if m < r {
        lemma_units_order(m, r);
    }
}

/// Adding what is not negative does not lead down.
pub proof fn lemma_plus_grows(a: Scalar, b: Scalar)
    requires
        !a.is_nan(),
        b.is_finite(),
        b.value() >= 0,
    ensures
        a.le(a.plus(b)),
{
    reveal(Scalar::plus_spec);
    if a.is_finite() {
        let m = a.magnitude();
        let v = a.value() + b.value();
        lemma_units_zero(0);
        if v == 0 {
            lemma_signed(a.negative() && b.negative(), 0);
        } else if v > 0 {
            let r = rounding::round_magnitude(v as nat, 1);
            if a.value() >= 0 {
                lemma_round_above(m, v as nat);
            }
            lemma_signed(false, r);
        } else {
            let r = rounding::round_magnitude((-v) as nat, 1);
            assert((-v) as nat <= 1 * units(m));
            lemma_round_bounded((-v) as nat, 1, m);
            if r < m {
                lemma_units_order(r, m);
            }
            lemma_signed(true, r);
        }
    }
}

/// Half of a number that stays at full precision is one binade down.
pub proof fn lemma_half(a: Scalar)
    requires
        a.is_finite(),
        !a.negative(),
        a.magnitude() >= 2 * BINADE,
    ensures
        Scalar::of_bits(HALF).times(a) == Scalar::of_bits((a.bits - BINADE) as u32),
        units(a.magnitude()) == 2 * units((a.magnitude() - BINADE) as nat),
{
    reveal(Scalar::times_spec);
    let m = a.magnitude();
    let h = (m - BINADE) as nat;
    let b = BINADE as int;
    lemma2_to64();
    lemma_fundamental_div_mod(m as int, b);
    lemma_fundamental_div_mod_converse(h as int, b, m as int / b - 1, m as int % b);
    assert(significand(h) == significand(m));
    assert(exponent(m) == exponent(h) + 1);
    let x = exponent(h);
    rounding::lemma_pow2_sum(1, x);
    assert(significand(m) * (2 * pow2(x)) == 2 * (significand(m) * pow2(x))) by (nonlinear_arith);
    let u = units(h);
    // One half is 2^148 units.
    assert(significand(HALF as nat) == 0x80_0000 && exponent(HALF as nat) == 125);
    rounding::lemma_pow2_sum(23, 125);
    rounding::lemma_pow2_sum(1, 148);
    let p = pow2(148);
    lemma_pow2_pos(148);
    lemma_pow2_pos(149);
    assert(units(HALF as nat) == p);
    assert(one_units() == 2 * p);
    assert(p * (2 * u) == (2 * p) * u) by (nonlinear_arith);
    assert(2 * p == (2 * p) * 1);
    rounding::lemma_round_scales(u, 1, 2 * p);
    lemma_round_exact(h);
}

/// Half of a number, divided by the number, is one half.
pub proof fn lemma_half_over(a: Scalar)
    requires
        a.is_finite(),
        !a.negative(),
        a.magnitude() >= ONE,
    ensures
        Scalar::of_bits(HALF).times(a).over(a) == Scalar::of_bits(HALF),
{
    reveal(Scalar::over_spec);
    lemma_half(a);
    let h = Scalar::of_bits(HALF).times(a);
    let u = units(h.magnitude());
    lemma2_to64();
    lemma_units_zero(h.magnitude());
    rounding::lemma_pow2_sum(1, 148);
    let p = pow2(148);
    assert(significand(HALF as nat) == 0x80_0000 && exponent(HALF as nat) == 125);
    rounding::lemma_pow2_sum(23, 125);
    assert(units(HALF as nat) == p);
    // u * 2^149 over 2 u is 2^148 over one.
    assert(u * one_units() == (2 * u) * p) by (nonlinear_arith)
        requires
            one_units() == 2 * p,
    ;
    assert(2 * u == (2 * u) * 1);
    rounding::lemma_round_scales(p, 1, 2 * u);
    lemma_round_exact(HALF as nat);
}

/// A quotient whose exact value does not exceed a bound of the format does not
/// either.
pub proof fn lemma_over_bounded(a: Scalar, b: Scalar, bound: nat)
    requires
        a.is_finite(),
        b.is_finite(),
        !a.negative(),
        !b.negative(),
        b.magnitude() > 0,
        bound <= INFINITE,
        units(a.magnitude()) * one_units() <= units(b.magnitude()) * units(bound),
    ensures
        !a.over(b).is_nan(),
        !a.over(b).negative(),
        a.over(b).magnitude() <= bound,
{
    reveal(Scalar::over_spec);
    lemma_units_zero(b.magnitude());
    lemma_round_bounded(
        units(a.magnitude()) * one_units(),
        units(b.magnitude()),
        bound,
    );
}

/// Larger integers do not become smaller numbers, and a positive integer is at
/// least one.
pub proof fn lemma_integers_ordered(a: u64, b: u64)
    requires
        a <= b,
    ensures
        Scalar::of_integer(a).magnitude() <= Scalar::of_integer(b).magnitude(),
        a > 0 ==> Scalar::of_integer(a).magnitude() >= ONE,
{
    reveal(Scalar::of_integer_spec);
    lemma_of_integer(a);
    lemma_of_integer(b);
    let p = one_units();
    lemma_pow2_pos(149);
    assert(a as nat * p <= b as nat * p) by (nonlinear_arith)
        requires
            a <= b,
            p > 0,
    ;
    rounding::lemma_round_monotone(a as nat * p, b as nat * p, 1);
    if a > 0 {
        lemma2_to64();
        assert(significand(ONE as nat) == 0x80_0000 && exponent(ONE as nat) == 126);
        rounding::lemma_pow2_sum(23, 126);
        assert(p <= a as nat * p) by (nonlinear_arith)
            requires
                a >= 1,
                p > 0,
        ;
        rounding::lemma_round_monotone(units(ONE as nat), a as nat * p, 1);
        lemma_round_exact(ONE as nat);
    }
}

/// Twice one half is one.
pub proof fn lemma_half_is_half()
    ensures
        one_units() == 2 * units(HALF as nat),
{
    lemma2_to64();
    assert(significand(HALF as nat) == 0x80_0000 && exponent(HALF as nat) == 125);
    rounding::lemma_pow2_sum(23, 125);
    rounding::lemma_pow2_sum(1, 148);
}

/// A product with zero is zero.
pub proof fn lemma_times_zero(a: Scalar, b: Scalar)
    requires
        a.is_finite(),
        b.magnitude() == 0,
        !a.negative(),
        !b.negative(),
    ensures
        a.times(b) == Scalar::of_bits(ZERO),
{
    reveal(Scalar::times_spec);
    lemma_units_zero(0);
    assert(units(a.magnitude()) * 0 == 0);
    lemma_pow2_pos(149);
    lemma_zero_quotient(one_units());
    assert(units(0) * one_units() == 0);
}

} // verus!
