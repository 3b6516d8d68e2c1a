//! Round-to-nearest-even on exact rationals, in the precision and range of
//! IEEE 754 binary32.
//!
//! A finite magnitude of the format is a whole number of *units*, where one
//! unit is `2^-149`, the smallest positive value.  The bit pattern of a
//! magnitude grows with the value it stands for, so rounding a rational number
//! of units comes down to choosing how many low bits are dropped and rounding
//! one quotient to the nearest integer.

use vstd::arithmetic::div_mod::*;
use vstd::arithmetic::mul::*;
use vstd::arithmetic::power2::*;
use vstd::prelude::*;

verus! {

/// Bit pattern of positive infinity, and the upper end of the finite patterns.
pub const INFINITE: u32 = 0x7f80_0000;

/// Number of values between two neighbouring powers of two.
pub const BINADE: u32 = 0x80_0000;

/// Significand width, the leading bit counted.
pub const PRECISION: u32 = 24;

// ---------------------------------------------------------------------------
//  Specification
// ---------------------------------------------------------------------------

/// Number of binary digits of `n`; zero has none.
pub open spec fn bit_len(n: nat) -> nat
    decreases n,
{
    if n == 0 {
        0
    } else {
        1 + bit_len(n / 2)
    }
}

/// `n / d` rounded to the nearest integer, ties to the even one.
pub open spec fn nearest_even(n: nat, d: nat) -> nat {
    let q = n / d;
    let r = n % d;
    if 2 * r < d || (2 * r == d && q % 2 == 0) {
        q
    } else {
        q + 1
    }
}

/// How many low bits a value of `n` units loses to fit the significand.
pub open spec fn excess(n: nat) -> nat {
    if bit_len(n) <= PRECISION {
        0
    } else {
        (bit_len(n) - PRECISION) as nat
    }
}

/// Bit pattern of the magnitude nearest to `n / d` units.
///
/// A significand that rounds up to the next power of two carries into the
/// exponent field, and a pattern at or past [`INFINITE`] is infinite.
pub open spec fn round_magnitude(n: nat, d: nat) -> nat {
    let s = excess(n / d);
    let m = s * (BINADE as nat) + nearest_even(n, d * pow2(s));
    if m > INFINITE {
        INFINITE as nat
    } else {
        m
    }
}

/// Bit pattern of the magnitude nearest to `n / d * 2^x` units.
pub open spec fn round_at(n: nat, d: nat, x: int) -> nat {
    if x >= 0 {
        round_magnitude(n * pow2(x as nat), d)
    } else {
        round_magnitude(n, d * pow2((-x) as nat))
    }
}

/// Largest integer whose square does not exceed `n`.
pub open spec fn is_root(n: nat, r: nat) -> bool {
    r * r <= n < (r + 1) * (r + 1)
}

/// The integer square root of `n`.
pub open spec fn root(n: nat) -> nat {
    choose|r: nat| is_root(n, r)
}

/// The square root of `n`, divided by `2^s`, to the nearest integer.
pub open spec fn nearest_root(n: nat, s: nat) -> nat {
    let q = root(n / (pow2(s) * pow2(s)));
    let middle = (2 * q + 1) * (2 * q + 1) * (pow2(s) * pow2(s));
    if 4 * n < middle || (4 * n == middle && q % 2 == 0) {
        q
    } else {
        q + 1
    }
}

/// Bit pattern of the magnitude nearest to the square root of `n`, in units.
pub open spec fn round_root(n: nat) -> nat {
    let s = excess(root(n));
    let m = s * (BINADE as nat) + nearest_root(n, s);
    if m > INFINITE {
        INFINITE as nat
    } else {
        m
    }
}

// ---------------------------------------------------------------------------
//  Powers of two and binary digits
// ---------------------------------------------------------------------------

/// `2^a * 2^b = 2^(a+b)` and neither factor is zero.
pub proof fn lemma_pow2_sum(a: nat, b: nat)
    ensures
        pow2(a) > 0,
        pow2(b) > 0,
        pow2(a + b) == pow2(a) * pow2(b),
{
    lemma_pow2_pos(a);
    lemma_pow2_pos(b);
    lemma_pow2_adds(a, b);
}

/// `n` has exactly `l` digits when it lies in `[2^(l-1), 2^l)`.
pub proof fn lemma_bit_len_unique(n: nat, l: nat)
    requires
        l > 0,
        pow2((l - 1) as nat) <= n < pow2(l),
    ensures
        bit_len(n) == l,
    decreases l,
{
    lemma2_to64();
    lemma_pow2_pos((l - 1) as nat);
    lemma_pow2_unfold(l);
    if l == 1 {
        assert(n == 1);
        assert(bit_len(1) == 1 + bit_len(0));
    } else {
        lemma_pow2_unfold((l - 1) as nat);
        lemma_bit_len_unique(n / 2, (l - 1) as nat);
    }
}

/// A positive `n` lies in `[2^(l-1), 2^l)` for `l` its number of digits.
pub proof fn lemma_bit_len_range(n: nat)
    ensures
        n == 0 ==> bit_len(n) == 0,
        n > 0 ==> bit_len(n) > 0 && pow2((bit_len(n) - 1) as nat) <= n,
        n < pow2(bit_len(n)),
    decreases n,
{
    lemma2_to64();
    if n > 0 {
        lemma_bit_len_range(n / 2);
        let l = bit_len(n / 2);
        lemma_pow2_unfold(l + 1);
        if n / 2 > 0 {
            lemma_pow2_unfold(l);
        } else {
            assert(n == 1);
        }
    }
}

/// Scaling the numerator and the denominator alike changes no quotient.
pub proof fn lemma_quotient_scales(n: nat, d: nat, c: nat)
    requires
        d > 0,
        c > 0,
    ensures
        c * d > 0,
        (c * n) / (c * d) == n / d,
        (c * n) % (c * d) == c * (n % d),
{
    let q = n / d;
    let r = n % d;
    lemma_fundamental_div_mod(n as int, d as int);
    assert(c * d > 0) by (nonlinear_arith)
        requires
            c > 0,
            d > 0,
    ;
    assert(c * n == (c * d) * q + c * r) by (nonlinear_arith)
        requires
            n == d * q + r,
    ;
    assert(0 <= c * r < c * d) by (nonlinear_arith)
        requires
            0 <= r < d,
            c > 0,
    ;
    assert((c * d) * q == q * (c * d)) by (nonlinear_arith);
    lemma_fundamental_div_mod_converse(
        (c * n) as int,
        (c * d) as int,
        q as int,
        (c * r) as int,
    );
}

/// Rounding a quotient does not depend on how it is written.
pub proof fn lemma_nearest_scales(n: nat, d: nat, c: nat)
    requires
        d > 0,
        c > 0,
    ensures
        nearest_even(c * n, c * d) == nearest_even(n, d),
{
    lemma_quotient_scales(n, d, c);
    let r = n % d;
    assert(2 * (c * r) < c * d <==> 2 * r < d) by (nonlinear_arith)
        requires
            c > 0,
    ;
    assert(2 * (c * r) == c * d <==> 2 * r == d) by (nonlinear_arith)
        requires
            c > 0,
    ;
}

/// Rounding to the format does not depend on how the rational is written.
pub proof fn lemma_round_scales(n: nat, d: nat, c: nat)
    requires
        d > 0,
        c > 0,
    ensures
        round_magnitude(c * n, c * d) == round_magnitude(n, d),
{
    lemma_quotient_scales(n, d, c);
    let s = excess(n / d);
    lemma_pow2_pos(s);
    assert(c * d * pow2(s) == c * (d * pow2(s))) by (nonlinear_arith);
    assert(d * pow2(s) > 0) by (nonlinear_arith)
        requires
            d > 0,
            pow2(s) > 0,
    ;
    lemma_nearest_scales(n, d * pow2(s), c);
}

/// Digits grow with the number.
proof fn lemma_bit_len_monotone(a: nat, b: nat)
    requires
        a <= b,
    ensures
        bit_len(a) <= bit_len(b),
{
    lemma_bit_len_range(a);
    lemma_bit_len_range(b);
    if bit_len(a) > bit_len(b) {
        if bit_len(b) < bit_len(a) - 1 {
            lemma_pow2_strictly_increases(bit_len(b), (bit_len(a) - 1) as nat);
        }
    }
}

/// Significand bounds of a quotient: below two binades, and at least one where
/// digits are lost.
pub proof fn lemma_significand_range(n: nat, d: nat)
    requires
        d > 0,
    ensures
        ({
            let s = excess(n / d);
            let h = n / (d * pow2(s));
            &&& d * pow2(s) > 0
            &&& h < 2 * BINADE
            &&& s > 0 ==> h >= BINADE
        }),
{
    let q = n / d;
    let s = excess(q);
    let c = d * pow2(s);
    lemma2_to64();
    lemma_pow2_pos(s);
    assert(c > 0) by (nonlinear_arith)
        requires
            c == d * pow2(s),
            d > 0,
            pow2(s) > 0,
    ;
    let h = n / c;
    lemma_fundamental_div_mod(n as int, d as int);
    lemma_fundamental_div_mod(n as int, c as int);
    lemma_bit_len_range(q);
    lemma_pow2_sum(24, s);
    if bit_len(q) < 24 + s {
        lemma_pow2_strictly_increases(bit_len(q), 24 + s);
    }
    assert(h < 0x100_0000) by (nonlinear_arith)
        requires
            n == c * h + n % c,
            n % c >= 0,
            n == d * q + n % d,
            n % d < d,
            q + 1 <= 0x100_0000 * pow2(s),
            c == d * pow2(s),
            d > 0,
            pow2(s) > 0,
    ;
    if s > 0 {
        lemma_pow2_sum(23, s);
        assert(h >= 0x80_0000) by (nonlinear_arith)
            requires
                n == c * h + n % c,
                n % c < c,
                n == d * q + n % d,
                n % d >= 0,
                q >= 0x80_0000 * pow2(s),
                c == d * pow2(s),
                d > 0,
                pow2(s) > 0,
        ;
    }
}

/// A larger number does not round to a smaller pattern.
pub proof fn lemma_round_monotone(a: nat, b: nat, d: nat)
    requires
        a <= b,
        d > 0,
    ensures
        round_magnitude(a, d) <= round_magnitude(b, d),
{
    let sa = excess(a / d);
    let sb = excess(b / d);
    lemma_div_is_ordered(a as int, b as int, d as int);
    lemma_bit_len_monotone(a / d, b / d);
    lemma_significand_range(a, d);
    lemma_significand_range(b, d);
    let ca = d * pow2(sa);
    let cb = d * pow2(sb);
    if sa == sb {
        lemma_div_is_ordered(a as int, b as int, ca as int);
        lemma_fundamental_div_mod(a as int, ca as int);
        lemma_fundamental_div_mod(b as int, ca as int);
        if a / ca == b / ca {
            assert(nearest_even(a, ca) <= nearest_even(b, ca));
        } else {
            assert(nearest_even(a, ca) <= a / ca + 1);
        }
    } else {
        assert(sa * BINADE + 2 * BINADE <= sb * BINADE + BINADE) by (nonlinear_arith)
            requires
                sa + 1 <= sb,
        ;
    }
}

/// A power of two moves freely between the numerator and the exponent.
pub proof fn lemma_round_at_shift(n: nat, d: nat, k: nat, x: int)
    requires
        d > 0,
    ensures
        round_at(n * pow2(k), d, x) == round_at(n, d, x + k),
{
    lemma_pow2_pos(k);
    if x >= 0 {
        lemma_pow2_sum(k, x as nat);
        assert(n * pow2(k) * pow2(x as nat) == n * (pow2(k) * pow2(x as nat))) by (nonlinear_arith);
    } else if x + k >= 0 {
        let m = (-x) as nat;
        let rest = (x + k) as nat;
        lemma_pow2_sum(m, rest);
        assert(n * pow2(k) == pow2(m) * (n * pow2(rest))) by (nonlinear_arith)
            requires
                pow2(k) == pow2(m) * pow2(rest),
        ;
        assert(d * pow2(m) == pow2(m) * d) by (nonlinear_arith);
        lemma_round_scales(n * pow2(rest), d, pow2(m));
    } else {
        let m = (-x) as nat;
        let rest = (-(x + k)) as nat;
        lemma_pow2_sum(k, rest);
        assert(n * pow2(k) == pow2(k) * n) by (nonlinear_arith);
        assert(d * pow2(m) == pow2(k) * (d * pow2(rest))) by (nonlinear_arith)
            requires
                pow2(m) == pow2(k) * pow2(rest),
        ;
        assert(d * pow2(rest) > 0) by (nonlinear_arith)
            requires
                d > 0,
                pow2(rest) > 0,
        ;
        lemma_round_scales(n, d * pow2(rest), pow2(k));
    }
}

// ---------------------------------------------------------------------------
//  Executable rounding
// ---------------------------------------------------------------------------

/// `2^k`.
pub fn power_of_two(k: u32) -> (r: u128)
    requires
        k < 128,
    ensures
        r == pow2(k as nat),
{
    let mut r: u128 = 1;
    let mut i: u32 = 0;
    proof {
        lemma2_to64();
    }
    while i < k
        invariant
            i <= k < 128,
            r == pow2(i as nat),
        decreases k - i,
    {
        proof {
            lemma_pow2_unfold((i + 1) as nat);
            lemma_u128_holds((i + 1) as nat);
        }
        r = r * 2;
        i = i + 1;
    }
    r
}

/// Powers of two below the 128th fit the widest integer.
proof fn lemma_u128_holds(k: nat)
    requires
        k < 128,
    ensures
        pow2(k) <= u128::MAX,
{
    lemma2_to64();
    lemma_pow2_sum(64, 63);
    if k < 127 {
        lemma_pow2_strictly_increases(k, 127);
    }
    assert(0x1_0000_0000_0000_0000nat * 0x8000_0000_0000_0000nat <= u128::MAX) by (nonlinear_arith);
    lemma_pow2_unfold(64);
}

/// The 128th power of two is the first past the widest integer.
proof fn lemma_past_u128()
    ensures
        pow2(128) > u128::MAX,
{
    lemma2_to64();
    lemma_pow2_sum(64, 64);
    assert(pow2(64) * pow2(64) > u128::MAX) by (nonlinear_arith)
        requires
            pow2(64) == 0x1_0000_0000_0000_0000nat,
    ;
}

/// Number of binary digits of `n`.
pub fn binary_digits(n: u128) -> (r: u32)
    ensures
        r == bit_len(n as nat),
        r <= 128,
{
    let mut r: u32 = 0;
    let mut rest: u128 = n;
    proof {
        lemma2_to64();
    }
    while rest > 0
        invariant
            r + bit_len(rest as nat) == bit_len(n as nat),
            r <= 128,
            rest * pow2(r as nat) <= n,
        decreases rest,
    {
        proof {
            lemma_pow2_unfold((r + 1) as nat);
            let p = pow2(r as nat);
            assert((rest / 2) * (2 * p) <= rest * p) by (nonlinear_arith)
                requires
                    p >= 0,
            ;
            if r >= 128 {
                lemma_past_u128();
                lemma_pow2_sum(128, (r - 128) as nat);
                assert(rest * pow2(r as nat) > u128::MAX) by (nonlinear_arith)
                    requires
                        rest >= 1,
                        pow2(r as nat) == pow2(128) * pow2((r - 128) as nat),
                        pow2((r - 128) as nat) > 0,
                        pow2(128) > u128::MAX,
                ;
            }
        }
        rest = rest / 2;
        r = r + 1;
    }
    r
}

/// How many digits remain of `m * 2^e` above the unit digit.
proof fn lemma_digits_at(m: nat, e: int)
    requires
        m > 0,
    ensures
        e >= 0 ==> bit_len(m * pow2(e as nat)) == bit_len(m) + e,
        e < 0 ==> bit_len(m / pow2((-e) as nat)) == (if bit_len(m) + e > 0 {
            bit_len(m) + e
        } else {
            0
        }),
{
    let l = bit_len(m);
    lemma_bit_len_range(m);
    if e >= 0 {
        let p = pow2(e as nat);
        lemma_pow2_sum((l - 1) as nat, e as nat);
        lemma_pow2_sum(l, e as nat);
        assert(pow2((l - 1) as nat) * p <= m * p < pow2(l) * p) by (nonlinear_arith)
            requires
                pow2((l - 1) as nat) <= m < pow2(l),
                p > 0,
        ;
        lemma_bit_len_unique(m * p, (l + e) as nat);
    } else {
        let k = (-e) as nat;
        let p = pow2(k);
        lemma_pow2_pos(k);
        if l <= k {
            if l < k {
                lemma_pow2_strictly_increases(l, k);
            }
            lemma_small_div(m, p);
        } else {
            let t = (l - k) as nat;
            lemma_pow2_sum(t, k);
            lemma_pow2_sum((t - 1) as nat, k);
            lemma_fundamental_div_mod(m as int, p as int);
            let q = m / p;
            let r = m % p;
            assert(q < pow2(t)) by (nonlinear_arith)
                requires
                    m == p * q + r,
                    r >= 0,
                    m < pow2(t) * p,
                    p > 0,
            ;
            assert(pow2((t - 1) as nat) <= q) by (nonlinear_arith)
                requires
                    m == p * q + r,
                    r < p,
                    pow2((t - 1) as nat) * p <= m,
                    p > 0,
            ;
            lemma_bit_len_unique(q, t);
        }
    }
}

proof fn lemma_small_div(m: nat, p: nat)
    requires
        m < p,
    ensures
        m / p == 0,
        m % p == m,
{
    lemma_fundamental_div_mod_converse(m as int, p as int, 0, m as int);
}

/// Bit pattern of the magnitude nearest to `m * 2^e` units.
pub fn round_scaled(m: u128, e: i32) -> (r: u32)
    requires
        -1000 <= e <= 1000,
    ensures
        r == round_at(m as nat, 1, e as int),
        r <= INFINITE,
{
    if m == 0 {
        proof {
            lemma_round_zero(e as int);
        }
        return 0;
    }
    let digits: i32 = binary_digits(m) as i32;
    let s: i32 = if digits + e > 24 {
        digits + e - 24
    } else {
        0
    };
    proof {
        lemma_digits_at(m as nat, e as int);
        lemma_bit_len_range(m as nat);
        lemma_round_at_parts(m as nat, e as int, s as nat);
    }
    if s > 255 {
        return INFINITE;
    }
    let k: i32 = e - s;
    let q: u32;
    if k >= 0 {
        proof {
            lemma_pow2_sum(digits as nat, k as nat);
            lemma2_to64();
            if digits + k < 24 {
                lemma_pow2_strictly_increases((digits + k) as nat, 24);
            }
            assert(m * pow2(k as nat) < pow2(24)) by (nonlinear_arith)
                requires
                    m < pow2(digits as nat),
                    pow2(k as nat) > 0,
                    pow2((digits + k) as nat) == pow2(digits as nat) * pow2(k as nat),
                    pow2((digits + k) as nat) <= pow2(24),
            ;
        }
        let p: u128 = power_of_two(k as u32);
        q = (m * p) as u32;
        proof {
            assert(m * p == 1 * (m * p));
            lemma_nearest_whole((m * p) as nat);
        }
    } else {
        let j: i32 = -k;
        if j > digits {
            q = 0;
            proof {
                lemma_pow2_unfold(j as nat);
                if digits < j - 1 {
                    lemma_pow2_strictly_increases(digits as nat, (j - 1) as nat);
                }
                lemma_small_div(m as nat, pow2(j as nat));
            }
        } else if j > 127 {
            // Every digit sits below the rounding position but the first.
            let half: u128 = power_of_two(127);
            proof {
                assert(j == 128 && digits == 128);
                lemma_pow2_unfold(128);
                lemma_small_div(m as nat, pow2(128));
            }
            q = if m > half {
                1
            } else {
                0
            };
        } else {
            let p: u128 = power_of_two(j as u32);
            proof {
                lemma_pow2_pos(j as nat);
                lemma_quotient_digits(m as nat, digits as nat, j as nat);
            }
            let whole: u128 = m / p;
            let rest: u128 = m % p;
            let beyond: bool = rest > p - rest || (rest == p - rest && whole % 2 == 1);
            q = if beyond {
                whole as u32 + 1
            } else {
                whole as u32
            };
        }
    }
    let pattern: u32 = s as u32 * BINADE + q;
    if pattern > INFINITE {
        INFINITE
    } else {
        pattern
    }
}

/// A whole number rounds to itself.
proof fn lemma_nearest_whole(n: nat)
    ensures
        nearest_even(n, 1) == n,
{
    lemma_fundamental_div_mod_converse(n as int, 1, n as int, 0);
}

/// Zero units round to zero at every scale.
proof fn lemma_round_zero(x: int)
    ensures
        round_at(0, 1, x) == 0,
{
    lemma2_to64();
    let d: nat = if x >= 0 {
        1
    } else {
        1 * pow2((-x) as nat)
    };
    lemma_pow2_pos((-x) as nat);
    assert(0 * pow2(x as nat) == 0);
    lemma_small_div(0, d);
    assert(d * pow2(0) == d);
}

/// The quotient left after dropping `j` of `l` digits has `l - j` of them.
proof fn lemma_quotient_digits(m: nat, l: nat, j: nat)
    requires
        m < pow2(l),
        j <= l,
        l - j <= 24,
    ensures
        m / pow2(j) < 0x100_0000,
{
    lemma2_to64();
    let t = (l - j) as nat;
    lemma_pow2_sum(t, j);
    if t < 24 {
        lemma_pow2_strictly_increases(t, 24);
    }
    lemma_fundamental_div_mod(m as int, pow2(j) as int);
    let q = m / pow2(j);
    let p = pow2(j);
    let r = m % p;
    assert(q < pow2(t)) by (nonlinear_arith)
        requires
            m == p * q + r,
            r >= 0,
            m < pow2(t) * p,
            p > 0,
    ;
}

/// The rounding of `m * 2^e` units, once the number of dropped digits is known.
proof fn lemma_round_at_parts(m: nat, e: int, s: nat)
    requires
        m > 0,
        s == (if bit_len(m) + e > 24 {
            bit_len(m) + e - 24
        } else {
            0
        }),
    ensures
        ({
            let q = if e - s >= 0 {
                nearest_even(m * pow2((e - s) as nat), 1)
            } else {
                nearest_even(m, pow2((s - e) as nat))
            };
            let p = s * (BINADE as nat) + q;
            round_at(m, 1, e) == if p > INFINITE {
                INFINITE as nat
            } else {
                p
            }
        }),
{
    lemma_digits_at(m, e);
    lemma_pow2_pos(s);
    if e >= 0 {
        let n = m * pow2(e as nat);
        assert(n / 1 == n);
        assert(excess(n / 1) == s);
        assert(1 * pow2(s) == pow2(s));
        if e >= s {
            let k = (e - s) as nat;
            lemma_pow2_sum(s, k);
            assert(n == pow2(s) * (m * pow2(k))) by (nonlinear_arith)
                requires
                    n == m * pow2(e as nat),
                    pow2(e as nat) == pow2(s) * pow2(k),
            ;
            assert(pow2(s) == pow2(s) * 1);
            lemma_nearest_scales(m * pow2(k), 1, pow2(s));
        } else {
            let j = (s - e) as nat;
            lemma_pow2_sum(e as nat, j);
            assert(n == pow2(e as nat) * m) by (nonlinear_arith)
                requires
                    n == m * pow2(e as nat),
            ;
            lemma_nearest_scales(m, pow2(j), pow2(e as nat));
        }
    } else {
        let d = pow2((-e) as nat);
        lemma_pow2_sum((-e) as nat, s);
        assert(1 * d == d);
        assert(excess(m / d) == s);
        assert((1 * d) * pow2(s) == pow2((s - e) as nat));
    }
}

// ---------------------------------------------------------------------------
//  Inexact operands
// ---------------------------------------------------------------------------

/// Two quotients one after the other are one quotient.
proof fn lemma_floor_of_floor(n: nat, d: nat, p: nat)
    requires
        d > 0,
        p > 0,
    ensures
        d * p > 0,
        n / (d * p) == (n / d) / p,
        n % (d * p) == ((n / d) % p) * d + n % d,
{
    let q = n / d;
    let r = n % d;
    let h = q / p;
    let a = q % p;
    lemma_fundamental_div_mod(n as int, d as int);
    lemma_fundamental_div_mod(q as int, p as int);
    assert(d * p > 0) by (nonlinear_arith)
        requires
            d > 0,
            p > 0,
    ;
    assert(n == h * (d * p) + (a * d + r)) by (nonlinear_arith)
        requires
            n == d * q + r,
            q == p * h + a,
    ;
    assert(0 <= a * d + r < d * p) by (nonlinear_arith)
        requires
            0 <= a < p,
            0 <= r < d,
    ;
    lemma_fundamental_div_mod_converse(n as int, (d * p) as int, h as int, (a * d + r) as int);
}

/// A quotient rounds alike when its fraction is replaced by one sticky digit.
proof fn lemma_nearest_sticky(n: nat, d: nat, j: nat)
    requires
        d > 0,
        j >= 1,
    ensures
        nearest_even(n, d * pow2(j)) == nearest_even(
            2 * (n / d) + if n % d == 0 {
                0nat
            } else {
                1nat
            },
            pow2(j + 1),
        ),
{
    let q = n / d;
    let r = n % d;
    let sticky: nat = if r == 0 {
        0
    } else {
        1
    };
    let p = pow2(j);
    lemma_pow2_unfold(j);
    lemma_pow2_unfold(j + 1);
    lemma_pow2_pos((j - 1) as nat);
    let half = pow2((j - 1) as nat);
    assert(p == 2 * half);
    lemma_floor_of_floor(n, d, p);
    let h = q / p;
    let a = q % p;
    lemma_fundamental_div_mod(q as int, p as int);
    assert(2 * q + sticky == h * (2 * p) + (2 * a + sticky)) by (nonlinear_arith)
        requires
            q == p * h + a,
    ;
    lemma_fundamental_div_mod_converse(
        (2 * q + sticky) as int,
        (2 * p) as int,
        h as int,
        (2 * a + sticky) as int,
    );
    let rem = a * d + r;
    assert(pow2(j + 1) == 2 * p);
    if a < half {
        assert(2 * rem < d * p) by (nonlinear_arith)
            requires
                a + 1 <= half,
                r < d,
                rem == a * d + r,
                p == 2 * half,
        ;
    } else if a > half {
        assert(2 * rem > d * p) by (nonlinear_arith)
            requires
                a >= half + 1,
                r >= 0,
                d > 0,
                rem == a * d + r,
                p == 2 * half,
        ;
    } else {
        assert(2 * rem == d * p + 2 * r) by (nonlinear_arith)
            requires
                a == half,
                rem == a * d + r,
                p == 2 * half,
        ;
    }
}

/// Rounding a quotient of at least 25 digits to the format needs only its
/// whole part and whether anything is left over.
pub proof fn lemma_round_sticky(n: nat, d: nat, x: int)
    requires
        d > 0,
        n / d >= 0x100_0000,
    ensures
        round_at(n, d, x) == round_at(
            2 * (n / d) + if n % d == 0 {
                0nat
            } else {
                1nat
            },
            1,
            x - 1,
        ),
{
    let q = n / d;
    let sticky: nat = if n % d == 0 {
        0
    } else {
        1
    };
    let m = 2 * q + sticky;
    let l = bit_len(q);
    lemma2_to64();
    lemma_bit_len_range(q);
    if l <= 24 {
        if l < 24 {
            lemma_pow2_strictly_increases(l, 24);
        }
    }
    lemma_pow2_unfold(l + 1);
    lemma_pow2_unfold(l);
    lemma_bit_len_unique(m, l + 1);
    lemma_digits_at(m, x - 1);
    let t = l + x;
    let s: nat = if t > 24 {
        (t - 24) as nat
    } else {
        0
    };
    lemma_round_at_parts(m, x - 1, s);
    let j = (s - x) as nat;
    assert(s - x >= 1);
    lemma_nearest_sticky(n, d, j);
    lemma_pow2_pos(s);
    if x >= 0 {
        let p = pow2(x as nat);
        lemma_pow2_pos(x as nat);
        lemma_fundamental_div_mod(n as int, d as int);
        let whole = (n * p) / d;
        lemma_fundamental_div_mod((n * p) as int, d as int);
        let r = n % d;
        let left = (n * p) % d;
        assert(q * p <= whole) by (nonlinear_arith)
            requires
                n == d * q + r,
                0 <= r,
                n * p == d * whole + left,
                left < d,
                d > 0,
                p > 0,
        ;
        assert(whole < (q + 1) * p) by (nonlinear_arith)
            requires
                n == d * q + r,
                r < d,
                n * p == d * whole + left,
                left >= 0,
                d > 0,
                p > 0,
        ;
        lemma_pow2_sum(l, x as nat);
        lemma_pow2_sum((l - 1) as nat, x as nat);
        assert(whole < pow2(l) * p) by (nonlinear_arith)
            requires
                whole < (q + 1) * p,
                q + 1 <= pow2(l),
                p > 0,
        ;
        assert(pow2((l - 1) as nat) * p <= whole) by (nonlinear_arith)
            requires
                q * p <= whole,
                pow2((l - 1) as nat) <= q,
                p > 0,
        ;
        lemma_bit_len_unique(whole, (l + x) as nat);
        assert(excess(whole) == s);
        lemma_pow2_sum(x as nat, j);
        assert(d * pow2(s) == p * (d * pow2(j))) by (nonlinear_arith)
            requires
                pow2(s) == p * pow2(j),
        ;
        assert(n * p == p * n) by (nonlinear_arith);
        lemma_pow2_pos(j);
        assert(d * pow2(j) > 0) by (nonlinear_arith)
            requires
                d > 0,
                pow2(j) > 0,
        ;
        lemma_nearest_scales(n, d * pow2(j), p);
    } else {
        let k = (-x) as nat;
        let p = pow2(k);
        lemma_pow2_pos(k);
        lemma_floor_of_floor(n, d, p);
        lemma_digits_at(q, x);
        assert(excess(n / (d * p)) == s);
        lemma_pow2_sum(k, s);
        assert((d * p) * pow2(s) == d * pow2(j)) by (nonlinear_arith)
            requires
                pow2(j) == p * pow2(s),
        ;
    }
}

// ---------------------------------------------------------------------------
//  Square roots
// ---------------------------------------------------------------------------

/// There is one integer square root, and [`root`] is it.
pub proof fn lemma_root_unique(n: nat, r: nat)
    requires
        is_root(n, r),
    ensures
        root(n) == r,
{
    let o = root(n);
    assert(is_root(n, o));
    assert(o == r) by (nonlinear_arith)
        requires
            r * r <= n < (r + 1) * (r + 1),
            o * o <= n < (o + 1) * (o + 1),
            r >= 0,
            o >= 0,
    ;
}

/// Every number has an integer square root, and [`root`] is it.
pub proof fn lemma_root(n: nat)
    ensures
        is_root(n, root(n)),
{
    let r = root_exists(n);
    lemma_root_unique(n, r);
}

/// The integer square root of `n`.
pub fn integer_root(n: u128) -> (r: u64)
    requires
        n < 0x4000_0000_0000_0000_0000_0000_0000_0000,
    ensures
        is_root(n as nat, r as nat),
        r < 0x8000_0000_0000_0000,
{
    let mut low: u128 = 0;
    let mut high: u128 = 0x8000_0000_0000_0000;
    assert(0x8000_0000_0000_0000int * 0x8000_0000_0000_0000int
        == 0x4000_0000_0000_0000_0000_0000_0000_0000int) by (nonlinear_arith);
    assert(low * low == 0) by (nonlinear_arith)
        requires
            low == 0,
    ;
    while high - low > 1
        invariant
            low < high <= 0x8000_0000_0000_0000,
            low * low <= n,
            n < high * high,
        decreases high - low,
    {
        let middle: u128 = low + (high - low) / 2;
        assert(middle * middle <= 0x8000_0000_0000_0000int * 0x8000_0000_0000_0000int)
            by (nonlinear_arith)
            requires
                0 <= middle <= 0x8000_0000_0000_0000,
        ;
        assert(0x8000_0000_0000_0000int * 0x8000_0000_0000_0000int
            == 0x4000_0000_0000_0000_0000_0000_0000_0000int) by (nonlinear_arith);
        if middle * middle <= n {
            low = middle;
        } else {
            high = middle;
        }
    }
    assert(high == low + 1);
    low as u64
}

/// Rounding a square root to the format needs only the root of the scaled
/// radicand and whether that root is exact.
pub proof fn lemma_round_root_sticky(w: nat, q: nat, h: nat)
    requires
        is_root(w, q),
        q >= 0x100_0000,
    ensures
        round_root(w * (pow2(h) * pow2(h))) == round_at(
            2 * q + if q * q == w {
                0nat
            } else {
                1nat
            },
            1,
            h - 1,
        ),
{
    let sticky: nat = if q * q == w {
        0
    } else {
        1
    };
    let m = 2 * q + sticky;
    let ph = pow2(h);
    let n = w * (ph * ph);
    let l = bit_len(q);
    lemma2_to64();
    lemma_bit_len_range(q);
    if l <= 24 {
        if l < 24 {
            lemma_pow2_strictly_increases(l, 24);
        }
    }
    lemma_pow2_pos(h);
    lemma_pow2_unfold(l + 1);
    lemma_pow2_unfold(l);
    lemma_bit_len_unique(m, l + 1);
    lemma_digits_at(m, h - 1);
    let s = (l + h - 24) as nat;
    lemma_round_at_parts(m, h - 1, s);
    let j = (s - h) as nat;

    // The root of the whole radicand has `l + h` digits.
    let big = root_exists(n);
    lemma_root_unique(n, big);
    assert(q * ph <= big) by (nonlinear_arith)
        requires
            q * q <= w,
            n == w * (ph * ph),
            n < (big + 1) * (big + 1),
            big >= 0,
            q >= 0,
            ph > 0,
    ;
    assert(big < (q + 1) * ph) by (nonlinear_arith)
        requires
            w < (q + 1) * (q + 1),
            n == w * (ph * ph),
            big * big <= n,
            big >= 0,
            q >= 0,
            ph > 0,
    ;
    lemma_pow2_sum(l, h);
    lemma_pow2_sum((l - 1) as nat, h);
    assert(pow2((l - 1) as nat) * ph <= big) by (nonlinear_arith)
        requires
            q * ph <= big,
            pow2((l - 1) as nat) <= q,
            ph > 0,
    ;
    assert(big < pow2(l) * ph) by (nonlinear_arith)
        requires
            big < (q + 1) * ph,
            q + 1 <= pow2(l),
            ph > 0,
    ;
    lemma_bit_len_unique(big, l + h);
    assert(excess(big) == s);

    // Dropping `s` digits of it leaves the root of `w` without `j` digits.
    let ps = pow2(s);
    let pj = pow2(j);
    lemma_pow2_sum(h, j);
    lemma_pow2_pos(s);
    assert(ps == ph * pj);
    let a = q / pj;
    let c = q % pj;
    lemma_fundamental_div_mod(q as int, pj as int);
    let ratio = n / (ps * ps);
    assert(ps * ps > 0) by (nonlinear_arith)
        requires
            ps > 0,
    ;
    assert(ps * ps == (ph * ph) * (pj * pj)) by (nonlinear_arith)
        requires
            ps == ph * pj,
    ;
    assert(ph * ph > 0) by (nonlinear_arith)
        requires
            ph > 0,
    ;
    assert(pj * pj > 0) by (nonlinear_arith)
        requires
            pj > 0,
    ;
    assert(n == (ph * ph) * w) by (nonlinear_arith)
        requires
            n == w * (ph * ph),
    ;
    lemma_quotient_scales(w, pj * pj, ph * ph);
    assert(ratio == w / (pj * pj));
    lemma_fundamental_div_mod(w as int, (pj * pj) as int);
    let rest = w % (pj * pj);
    assert(a * a <= ratio) by (nonlinear_arith)
        requires
            w == (pj * pj) * ratio + rest,
            rest < pj * pj,
            q * q <= w,
            q == pj * a + c,
            c >= 0,
            a >= 0,
            pj > 0,
    ;
    assert(ratio < (a + 1) * (a + 1)) by (nonlinear_arith)
        requires
            w == (pj * pj) * ratio + rest,
            rest >= 0,
            w < (q + 1) * (q + 1),
            q == pj * a + c,
            c + 1 <= pj,
            a >= 0,
            q >= 0,
            pj > 0,
    ;
    lemma_root_unique(ratio, a);

    // The midpoint decides alike on both sides.
    lemma_pow2_unfold(j);
    lemma_pow2_unfold(j + 1);
    let half = pow2((j - 1) as nat);
    lemma_pow2_pos((j - 1) as nat);
    let middle = (2 * a + 1) * (2 * a + 1) * (ps * ps);
    let centre = (2 * a + 1) * half;
    assert(middle == 4 * ((ph * ph) * (centre * centre))) by (nonlinear_arith)
        requires
            middle == (2 * a + 1) * (2 * a + 1) * (ps * ps),
            ps == ph * pj,
            pj == 2 * half,
            centre == (2 * a + 1) * half,
    ;
    assert(4 * n < middle <==> w < centre * centre) by (nonlinear_arith)
        requires
            middle == 4 * ((ph * ph) * (centre * centre)),
            n == (ph * ph) * w,
            ph * ph > 0,
    ;
    assert(4 * n == middle <==> w == centre * centre) by (nonlinear_arith)
        requires
            middle == 4 * ((ph * ph) * (centre * centre)),
            n == (ph * ph) * w,
            ph * ph > 0,
    ;
    assert(centre == pj * a + half) by (nonlinear_arith)
        requires
            centre == (2 * a + 1) * half,
            pj == 2 * half,
    ;
    assert(m == a * (2 * pj) + (2 * c + sticky)) by (nonlinear_arith)
        requires
            m == 2 * q + sticky,
            q == pj * a + c,
    ;
    lemma_fundamental_div_mod_converse(
        m as int,
        (2 * pj) as int,
        a as int,
        (2 * c + sticky) as int,
    );
    if c < half {
        assert(w < centre * centre) by (nonlinear_arith)
            requires
                w < (q + 1) * (q + 1),
                q + 1 <= centre,
                q >= 0,
        ;
    } else if c > half {
        assert(w > centre * centre) by (nonlinear_arith)
            requires
                q * q <= w,
                q >= centre + 1,
                centre >= 0,
        ;
    } else {
        assert(q == centre);
    }
}

/// Every number has an integer square root.
proof fn root_exists(n: nat) -> (r: nat)
    ensures
        is_root(n, r),
    decreases n,
{
    if n == 0 {
        assert(is_root(0, 0)) by (nonlinear_arith);
        0
    } else {
        let r = root_exists((n - 1) as nat);
        let next = r + 1;
        assert(next * next < (next + 1) * (next + 1)) by (nonlinear_arith);
        if next * next <= n {
            next
        } else {
            r
        }
    }
}

} // verus!
