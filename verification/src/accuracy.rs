//! How far computed numbers lie from exact ones.

use vstd::arithmetic::div_mod::*;
use vstd::arithmetic::power2::*;
use vstd::prelude::*;

use crate::rounding;
use crate::rounding::{BINADE, INFINITE};
use crate::scalar;
use crate::scalar::{
    Scalar, HALF, ONE, ONE_AND_A_HALF, SIX, TWELVE, TWO,
};

verus! {

/// The number a scalar stands for.
pub open spec fn exact(x: Scalar) -> real {
    x.value() as real / scalar::one_units() as real
}

/// The distance from one to the next number, `2^-23`.
pub open spec fn step() -> real {
    1 as real / BINADE as real
}

/// Whether `x` is `t` up to `k` steps, relative to `t`.
pub open spec fn near(x: real, t: real, k: int) -> bool {
    &&& t * (1 as real - k as real * step()) <= x
    &&& x <= t * (1 as real + k as real * step())
}

/// Whether a number is positive and finite.
pub open spec fn positive(x: Scalar) -> bool {
    0 < x.bits < INFINITE
}

/// Whether a number is positive, finite and held to full precision.
pub open spec fn normal(x: Scalar) -> bool {
    BINADE <= x.bits < INFINITE
}

/// Rounding to a normal number changes a value by a step at most.
proof fn lemma_round_close(n: nat, d: nat)
    requires
        d > 0,
        BINADE <= rounding::round_magnitude(n, d) < INFINITE,
    ensures
        ({
            let u = scalar::units(rounding::round_magnitude(n, d));
            &&& BINADE * (u * d - n) <= n
            &&& BINADE * (n - u * d) <= n
            &&& (2 * BINADE - 1) * (u * d) <= 2 * BINADE * n
        }),
{
    let m = rounding::round_magnitude(n, d);
    let s = rounding::excess(n / d);
    let p = pow2(s);
    let c = d * p;
    let b = BINADE as nat;
    rounding::lemma_significand_range(n, d);
    let h = n / c;
    let r = n % c;
    let q = rounding::nearest_even(n, c);
    lemma_fundamental_div_mod(n as int, c as int);
    assert(m == s * b + q);
    lemma2_to64();
    assert(b <= q <= 2 * b);
    let u = scalar::units(m);
    assert(u == q * p) by {
        if q < 2 * b {
            lemma_fundamental_div_mod_converse(m as int, b as int, s as int + 1, q - b);
        } else {
            lemma_fundamental_div_mod_converse(m as int, b as int, s as int + 2, 0);
            lemma_pow2_unfold(s + 1);
            assert(b * (2 * p) == (2 * b) * p) by (nonlinear_arith);
        }
    }
    assert(u * d == c * q) by (nonlinear_arith)
        requires
            u == q * p,
            c == d * p,
    ;
    if q != h {
        assert(c * q == c * h + c) by (nonlinear_arith)
            requires
                q == h + 1,
        ;
    }
    assert(2 * (u * d - n) <= c && 2 * (n - u * d) <= c);
    assert(b * c <= 2 * n) by (nonlinear_arith)
        requires
            n == c * h + r,
            r >= 0,
            c > 0,
            h >= b - 1,
            b >= 2,
    ;
    assert(b * (u * d - n) <= n) by (nonlinear_arith)
        requires
            2 * (u * d - n) <= c,
            b * c <= 2 * n,
            b > 0,
    ;
    assert(b * (n - u * d) <= n) by (nonlinear_arith)
        requires
            2 * (n - u * d) <= c,
            b * c <= 2 * n,
            b > 0,
    ;
    let v = u * d;
    assert((2 * b - 1) * v <= 2 * b * n) by (nonlinear_arith)
        requires
            2 * (v - n) <= c,
            v == c * q,
            q >= b,
            b > 0,
            c > 0,
    ;
}

/// The square of a rounded square root is off by a few steps at most.
proof fn lemma_root_close(n: nat)
    requires
        rounding::root(n) >= BINADE,
        rounding::root(n) < pow2(240),
    ensures
        ({
            let m = rounding::round_root(n);
            let u = scalar::units(m);
            let b = BINADE as int;
            &&& BINADE <= m < INFINITE
            &&& (b - 1) * (b - 1) * (u * u) <= (b * b) * n
            &&& (b * b) * n <= (b + 1) * (b + 1) * (u * u)
        }),
{
    let b = BINADE as nat;
    let m = rounding::round_root(n);
    let w = rounding::root(n);
    let s = rounding::excess(w);
    let p = pow2(s);
    let q = rounding::nearest_root(n, s);
    let h = rounding::root(n / (p * p));
    let u = scalar::units(m);
    lemma2_to64();
    lemma_pow2_pos(s);
    rounding::lemma_root(n);
    rounding::lemma_root(n / (p * p));
    // Digits of the root.
    rounding::lemma_bit_len_range(w);
    assert(rounding::bit_len(w) >= 24) by {
        if rounding::bit_len(w) < 24 {
            if rounding::bit_len(w) < 23 {
                lemma_pow2_strictly_increases(rounding::bit_len(w), 23);
            }
        }
    }
    rounding::lemma_pow2_sum(23, s);
    rounding::lemma_pow2_sum(24, s);
    assert(b * p <= w < 2 * b * p);
    assert(p * p > 0) by (nonlinear_arith)
        requires
            p > 0,
    ;
    let c = p * p;
    lemma_fundamental_div_mod(n as int, c as int);
    let k = n / c;
    assert(h * h * c <= n < (h + 1) * (h + 1) * c) by (nonlinear_arith)
        requires
            n == c * k + n % c,
            0 <= n % c < c,
            h * h <= k,
            k + 1 <= (h + 1) * (h + 1),
    ;
    assert(h >= b) by (nonlinear_arith)
        requires
            w * w <= n,
            n < (h + 1) * (h + 1) * c,
            c == p * p,
            b * p <= w,
            p > 0,
            h >= 0,
            b > 0,
    ;
    assert(h < 2 * b) by (nonlinear_arith)
        requires
            h * h * c <= n,
            n < (w + 1) * (w + 1),
            c == p * p,
            w + 1 <= 2 * b * p,
            p > 0,
            h >= 0,
            b > 0,
    ;
    assert(b <= q <= 2 * b);
    assert(s <= 216) by {
        if rounding::bit_len(w) > 240 {
            if rounding::bit_len(w) > 241 {
                lemma_pow2_strictly_increases(240, (rounding::bit_len(w) - 1) as nat);
            }
        }
    }
    assert(m == s * b + q);
    assert(u == q * p) by {
        if q < 2 * b {
            lemma_fundamental_div_mod_converse(m as int, b as int, s as int + 1, q - b);
        } else {
            lemma_fundamental_div_mod_converse(m as int, b as int, s as int + 2, 0);
            lemma_pow2_unfold(s + 1);
            assert(b * (2 * p) == (2 * b) * p) by (nonlinear_arith);
        }
    }
    // Twice the root is within one place of twice the rounded root.
    assert((2 * q - 1) * (2 * q - 1) * c <= 4 * n <= (2 * q + 1) * (2 * q + 1) * c) by {
        let middle = (2 * h + 1) * (2 * h + 1) * c;
        if q == h {
            assert((2 * h - 1) * (2 * h - 1) * c <= 4 * (h * h * c)) by (nonlinear_arith)
                requires
                    h >= 1,
                    c > 0,
            ;
        } else {
            assert((2 * q - 1) == 2 * h + 1);
            assert(4 * ((h + 1) * (h + 1) * c) <= (2 * q + 1) * (2 * q + 1) * c)
                by (nonlinear_arith)
                requires
                    q == h + 1,
                    h >= 0,
                    c > 0,
            ;
        }
    }
    lemma_scaled_squares(b as int, q as int, c as int, n as int);
    assert(u * u == (q * q) * c) by (nonlinear_arith)
        requires
            u == q * p,
            c == p * p,
    ;
}

proof fn lemma_scaled_squares(b: int, q: int, c: int, n: int)
    requires
        b >= 1,
        q >= b,
        c > 0,
        (2 * q - 1) * (2 * q - 1) * c <= 4 * n <= (2 * q + 1) * (2 * q + 1) * c,
    ensures
        (b - 1) * (b - 1) * ((q * q) * c) <= (b * b) * n,
        (b * b) * n <= (b + 1) * (b + 1) * ((q * q) * c),
{
    // (b - 1) q <= b (q - 1/2) and b (q + 1/2) <= (b + 1) q.
    let low = b * (2 * q - 1);
    let high = b * (2 * q + 1);
    assert(0 <= 2 * (b - 1) * q <= low) by (nonlinear_arith)
        requires
            low == b * (2 * q - 1),
            q >= b,
            b >= 1,
    ;
    assert(0 <= high <= 2 * (b + 1) * q) by (nonlinear_arith)
        requires
            high == b * (2 * q + 1),
            q >= b,
            b >= 1,
    ;
    let x = 2 * (b - 1) * q;
    let y = 2 * (b + 1) * q;
    assert(x * x <= low * low && high * high <= y * y) by (nonlinear_arith)
        requires
            0 <= x <= low,
            0 <= high <= y,
    ;
    assert(x * x == 4 * ((b - 1) * (b - 1) * (q * q))) by (nonlinear_arith)
        requires
            x == 2 * (b - 1) * q,
    ;
    assert(y * y == 4 * ((b + 1) * (b + 1) * (q * q))) by (nonlinear_arith)
        requires
            y == 2 * (b + 1) * q,
    ;
    assert(low * low == (b * b) * ((2 * q - 1) * (2 * q - 1))) by (nonlinear_arith)
        requires
            low == b * (2 * q - 1),
    ;
    assert(high * high == (b * b) * ((2 * q + 1) * (2 * q + 1))) by (nonlinear_arith)
        requires
            high == b * (2 * q + 1),
    ;
    let e = (2 * q - 1) * (2 * q - 1);
    let f = (2 * q + 1) * (2 * q + 1);
    let g = (b - 1) * (b - 1) * (q * q);
    let k = (b + 1) * (b + 1) * (q * q);
    assert(4 * (g * c) <= 4 * ((b * b) * n)) by (nonlinear_arith)
        requires
            4 * g <= (b * b) * e,
            e * c <= 4 * n,
            c > 0,
            b >= 1,
    ;
    assert(4 * ((b * b) * n) <= 4 * (k * c)) by (nonlinear_arith)
        requires
            (b * b) * f <= 4 * k,
            4 * n <= f * c,
            c > 0,
            b >= 1,
    ;
    assert(g * c == (b - 1) * (b - 1) * ((q * q) * c)) by (nonlinear_arith)
        requires
            g == (b - 1) * (b - 1) * (q * q),
    ;
    assert(k * c == (b + 1) * (b + 1) * ((q * q) * c)) by (nonlinear_arith)
        requires
            k == (b + 1) * (b + 1) * (q * q),
    ;
}

/// A whole number near a quotient, as numbers.
proof fn lemma_near_quotient(u: int, n: int, d: int)
    requires
        d > 0,
        n >= 0,
        BINADE * (u * d - n) <= n,
        BINADE * (n - u * d) <= n,
    ensures
        near(u as real, n as real / d as real, 1),
{
    let b = BINADE as real;
    let (x, y, z) = (u as real, n as real, d as real);
    assert((u * d) as real == x * z) by (nonlinear_arith)
        requires
            x == u as real,
            z == d as real,
    ;
    let k = u * d - n;
    assert(k as real == x * z - y);
    assert((BINADE * k) as real == b * (x * z - y)) by (nonlinear_arith)
        requires
            k as real == x * z - y,
            b == BINADE as real,
    ;
    assert(BINADE * (n - u * d) == -(BINADE * k)) by (nonlinear_arith)
        requires
            k == u * d - n,
    ;
    let t = y / z;
    assert(t * z == y) by (nonlinear_arith)
        requires
            t == y / z,
            z > 0 as real,
    ;
    let e = step();
    assert(e * b == 1 as real) by (nonlinear_arith)
        requires
            e == 1 as real / b,
            b == 0x80_0000 as real,
    ;
    assert(t * (1 as real - e) <= x && x <= t * (1 as real + e)) by (nonlinear_arith)
        requires
            b * (x * z - y) <= y,
            -(b * (x * z - y)) <= y,
            t * z == y,
            e * b == 1 as real,
            z > 0 as real,
            b > 0 as real,
    ;
    assert(1int as real * e == e);
}

/// Being near does not depend on the unit.
pub proof fn lemma_near_scales(x: real, t: real, k: int, c: real)
    requires
        near(x, t, k),
        c > 0 as real,
    ensures
        near(x / c, t / c, k),
{
    let e = k as real * step();
    let (y, s) = (x / c, t / c);
    assert(y * c == x && s * c == t) by (nonlinear_arith)
        requires
            y == x / c,
            s == t / c,
            c > 0 as real,
    ;
    assert(s * (1 as real - e) <= y && y <= s * (1 as real + e)) by (nonlinear_arith)
        requires
            y * c == x,
            s * c == t,
            c > 0 as real,
            t * (1 as real - e) <= x,
            x <= t * (1 as real + e),
    ;
}

// ---------------------------------------------------------------------------
//  Being near
// ---------------------------------------------------------------------------

/// What is not negative keeps an order.
pub proof fn lemma_order(x: real, y: real, c: real)
    requires
        x <= y,
        c >= 0 as real,
    ensures
        x * c <= y * c,
        c * x <= c * y,
{
    assert(x * c <= y * c && c * x <= c * y) by (nonlinear_arith)
        requires
            x <= y,
            c >= 0 as real,
    ;
}

/// A positive factor can be dropped from an order.
proof fn lemma_order_drops(x: real, y: real, c: real)
    requires
        x * c <= y * c,
        c > 0 as real,
    ensures
        x <= y,
{
    if x > y {
        assert(x * c > y * c) by (nonlinear_arith)
            requires
                x > y,
                c > 0 as real,
        ;
    }
}

pub proof fn lemma_positive_product(x: real, y: real)
    requires
        x > 0 as real,
        y > 0 as real,
    ensures
        x * y > 0 as real,
{
    assert(x * y > 0 as real) by (nonlinear_arith)
        requires
            x > 0 as real,
            y > 0 as real,
    ;
}

/// A quotient times what it was divided by.
pub proof fn lemma_quotient_back(x: real, y: real)
    requires
        y > 0 as real,
    ensures
        (x / y) * y == x,
        x > 0 as real ==> x / y > 0 as real,
{
    assert((x / y) * y == x) by (nonlinear_arith)
        requires
            y > 0 as real,
    ;
    if x > 0 as real && x / y <= 0 as real {
        lemma_order(x / y, 0 as real, y);
    }
}

/// What a step is.
pub proof fn lemma_step()
    ensures
        step() > 0 as real,
        0x80_0000 as real * step() == 1 as real,
{
    let e = step();
    assert(e > 0 as real && 0x80_0000 as real * e == 1 as real) by (nonlinear_arith)
        requires
            e == 1 as real / 0x80_0000 as real,
    ;
}

/// Near within fewer steps is near within more.
pub proof fn lemma_near_widens(x: real, t: real, j: int, k: int)
    requires
        near(x, t, j),
        j <= k,
        t >= 0 as real,
    ensures
        near(x, t, k),
{
    lemma_step();
    lemma_order(j as real, k as real, step());
    let (e, f) = (j as real * step(), k as real * step());
    lemma_order(1 as real - f, 1 as real - e, t);
    lemma_order(1 as real + e, 1 as real + f, t);
}

/// The widths of two margins and of one that holds their product.
proof fn lemma_margins(j: int, k: int) -> (r: (real, real, real))
    requires
        0 <= j <= 100,
        0 <= k <= 100,
    ensures
        r.0 == j as real * step(),
        r.1 == k as real * step(),
        r.2 == (j + k + 1) as real * step(),
        0 as real <= r.0,
        0 as real <= r.1,
        r.0 + r.1 <= r.2,
        100 as real * r.2 <= 1 as real,
        r.0 + r.1 + r.0 * r.1 <= r.2,
        r.0 + r.1 + r.1 * r.2 <= r.2,
{
    let e = step();
    lemma_step();
    let (x, y) = (j as real, k as real);
    let (a, b) = (x * e, y * e);
    let c = (j + k + 1) as real * e;
    assert((j + k + 1) as real == x + y + 1 as real);
    assert((x + y + 1 as real) * e == x * e + y * e + e) by (nonlinear_arith);
    lemma_order(0 as real, x, e);
    lemma_order(0 as real, y, e);
    lemma_order(x, 100 as real, e);
    lemma_order(y, 100 as real, e);
    // a b <= 100 e b <= e and b c <= 100 e c <= e
    assert(b <= 1 as real / 1000 as real && c <= 1 as real / 1000 as real);
    lemma_order(a, 100 as real * e, b);
    lemma_order(b, 1 as real / 1000 as real, 100 as real * e);
    lemma_order(b, 100 as real * e, c);
    lemma_order(c, 1 as real / 1000 as real, 100 as real * e);
    assert((1 as real / 1000 as real) * (100 as real * e) <= e) by (nonlinear_arith)
        requires
            e > 0 as real,
    ;
    assert((100 as real * e) * b == b * (100 as real * e) && (100 as real * e) * c == c * (
    100 as real * e)) by (nonlinear_arith);
    (a, b, c)
}

/// What two margins make of one.
proof fn lemma_margin_products(e: real, f: real, g: real)
    requires
        0 as real <= e,
        0 as real <= f,
        e + f <= g,
        e + f + e * f <= g,
        e + f + f * g <= g,
    ensures
        (1 as real - e) * (1 as real - f) >= 1 as real - g,
        (1 as real + e) * (1 as real + f) <= 1 as real + g,
        (1 as real - g) * (1 as real + f) <= 1 as real - e,
        (1 as real + g) * (1 as real - f) >= 1 as real + e,
{
    lemma_order(0 as real, e, f);
    lemma_order(0 as real, g, f);
    assert((1 as real - e) * (1 as real - f) == 1 as real - e - f + e * f) by (nonlinear_arith);
    assert((1 as real + e) * (1 as real + f) == 1 as real + e + f + e * f) by (nonlinear_arith);
    assert((1 as real - g) * (1 as real + f) == 1 as real - g + f - g * f) by (nonlinear_arith);
    assert((1 as real + g) * (1 as real - f) == 1 as real + g - f - g * f) by (nonlinear_arith);
    assert(f * g == g * f) by (nonlinear_arith);
}

/// Products of near numbers are near.
pub proof fn lemma_near_product(a: real, x: real, j: int, b: real, y: real, k: int)
    requires
        near(a, x, j),
        near(b, y, k),
        0 <= j <= 100,
        0 <= k <= 100,
        x > 0 as real,
        y > 0 as real,
    ensures
        near(a * b, x * y, j + k + 1),
{
    let (e, f, g) = lemma_margins(j, k);
    lemma_margin_products(e, f, g);
    let p = x * y;
    lemma_positive_product(x, y);
    let (al, ah) = (x * (1 as real - e), x * (1 as real + e));
    let (bl, bh) = (y * (1 as real - f), y * (1 as real + f));
    lemma_positive_product(x, 1 as real - e);
    lemma_positive_product(y, 1 as real - f);
    // al bl <= a bl <= a b <= ah b <= ah bh
    lemma_order(al, a, bl);
    lemma_order(bl, b, a);
    lemma_order(a, ah, b);
    lemma_order(b, bh, ah);
    let (lo, hi) = ((1 as real - e) * (1 as real - f), (1 as real + e) * (1 as real + f));
    lemma_regroup(x, 1 as real - e, y, 1 as real - f);
    lemma_regroup(x, 1 as real + e, y, 1 as real + f);
    lemma_order(1 as real - g, lo, p);
    lemma_order(hi, 1 as real + g, p);
}

proof fn lemma_regroup(x: real, s: real, y: real, t: real)
    ensures
        (x * s) * (y * t) == (x * y) * (s * t),
{
    assert((x * s) * (y * t) == (x * y) * (s * t)) by (nonlinear_arith);
}

/// Quotients of near numbers are near.
pub proof fn lemma_near_ratio(a: real, x: real, j: int, b: real, y: real, k: int)
    requires
        near(a, x, j),
        near(b, y, k),
        0 <= j <= 100,
        0 <= k <= 100,
        x > 0 as real,
        y > 0 as real,
    ensures
        near(a / b, x / y, j + k + 1),
{
    let (e, f, g) = lemma_margins(j, k);
    lemma_margin_products(e, f, g);
    lemma_positive_product(y, 1 as real - f);
    let t = x / y;
    let q = a / b;
    lemma_quotient_back(x, y);
    lemma_quotient_back(a, b);
    let (low, high) = (t * (1 as real - g), t * (1 as real + g));
    lemma_positive_product(t, 1 as real - g);
    lemma_positive_product(t, 1 as real + g);
    // t (1 - g) b <= t (1 - g) y (1 + f) <= x (1 - e) <= a = q b
    lemma_order(b, y * (1 as real + f), low);
    lemma_regroup(t, 1 as real - g, y, 1 as real + f);
    lemma_order((1 as real - g) * (1 as real + f), 1 as real - e, x);
    lemma_order_drops(low, q, b);
    // t (1 + g) b >= t (1 + g) y (1 - f) >= x (1 + e) >= a = q b
    lemma_order(y * (1 as real - f), b, high);
    lemma_regroup(t, 1 as real + g, y, 1 as real - f);
    lemma_order(1 as real + e, (1 as real + g) * (1 as real - f), x);
    lemma_order_drops(q, high, b);
}

/// Near to what is near is near.
pub proof fn lemma_near_joins(x: real, y: real, j: int, z: real, k: int)
    requires
        near(x, y, j),
        near(y, z, k),
        0 <= j <= 100,
        0 <= k <= 100,
        z > 0 as real,
    ensures
        near(x, z, j + k + 1),
{
    let (e, f, g) = lemma_margins(j, k);
    lemma_margin_products(e, f, g);
    let (lo, hi) = ((1 as real - f) * (1 as real - e), (1 as real + f) * (1 as real + e));
    assert(lo == (1 as real - e) * (1 as real - f) && hi == (1 as real + e) * (1 as real + f))
        by (nonlinear_arith)
        requires
            lo == (1 as real - f) * (1 as real - e),
            hi == (1 as real + f) * (1 as real + e),
    ;
    lemma_order(z * (1 as real - f), y, 1 as real - e);
    lemma_order(y, z * (1 as real + f), 1 as real + e);
    lemma_associates(z, 1 as real - f, 1 as real - e);
    lemma_associates(z, 1 as real + f, 1 as real + e);
    lemma_order(1 as real - g, lo, z);
    lemma_order(hi, 1 as real + g, z);
}

proof fn lemma_associates(x: real, y: real, z: real)
    ensures
        (x * y) * z == x * (y * z),
{
    assert((x * y) * z == x * (y * z)) by (nonlinear_arith);
}

/// Being near goes both ways.
pub proof fn lemma_near_turns(x: real, y: real, k: int)
    requires
        near(x, y, k),
        0 <= k <= 100,
        y > 0 as real,
    ensures
        x > 0 as real,
        near(y, x, k + 1),
{
    let (e, f, g) = lemma_margins(0, k);
    assert(e == 0 as real);
    lemma_margin_products(e, f, g);
    lemma_positive_product(y, 1 as real - f);
    let (low, high) = ((1 as real + f) * (1 as real - g), (1 as real - f) * (1 as real + g));
    assert(low == (1 as real - g) * (1 as real + f) && high == (1 as real + g) * (1 as real - f))
        by (nonlinear_arith)
        requires
            low == (1 as real + f) * (1 as real - g),
            high == (1 as real - f) * (1 as real + g),
    ;
    lemma_order(x, y * (1 as real + f), 1 as real - g);
    lemma_associates(y, 1 as real + f, 1 as real - g);
    lemma_order(low, 1 as real, y);
    lemma_order(y * (1 as real - f), x, 1 as real + g);
    lemma_associates(y, 1 as real - f, 1 as real + g);
    lemma_order(1 as real, high, y);
}

/// Numbers whose squares are near are near.
pub proof fn lemma_near_roots(x: real, y: real, k: int)
    requires
        near(x * x, y * y, k),
        0 <= k <= 100,
        x > 0 as real,
        y > 0 as real,
    ensures
        near(x, y, k),
{
    let (e, f, g) = lemma_margins(0, k);
    let (s, t) = (1 as real - f, 1 as real + f);
    let (low, high) = (y * s, y * t);
    lemma_positive_product(y, y);
    lemma_positive_product(y, s);
    lemma_positive_product(y, t);
    lemma_regroup(y, s, y, s);
    lemma_regroup(y, t, y, t);
    // s s <= s and t <= t t
    lemma_order(s, 1 as real, s);
    lemma_order(1 as real, t, t);
    lemma_order(s * s, s, y * y);
    lemma_order(t, t * t, y * y);
    lemma_square_order(low, x);
    lemma_square_order(x, high);
}

proof fn lemma_square_order(x: real, y: real)
    requires
        x * x <= y * y,
        x > 0 as real,
        y > 0 as real,
    ensures
        x <= y,
{
    if x > y {
        lemma_order(y, x, x);
        assert(y * y < x * y) by (nonlinear_arith)
            requires
                x > y,
                y > 0 as real,
        ;
        assert(x * y == y * x) by (nonlinear_arith);
    }
}

// ---------------------------------------------------------------------------
//  Operations
// ---------------------------------------------------------------------------

/// What a positive number is in units.
pub proof fn lemma_positive(x: Scalar)
    requires
        positive(x),
    ensures
        x.is_finite(),
        !x.negative(),
        x.magnitude() == x.bits,
        x.value() == scalar::units(x.bits as nat),
        scalar::units(x.bits as nat) > 0,
        exact(x) == scalar::units(x.bits as nat) as real / scalar::one_units() as real,
        exact(x) > 0 as real,
        scalar::one_units() > 0,
{
    lemma_pow2_pos(149);
    scalar::lemma_units_zero(x.bits as nat);
    lemma_quotient_back(
        scalar::units(x.bits as nat) as real,
        scalar::one_units() as real,
    );
}

/// The smallest normal number in units.
pub proof fn lemma_least()
    ensures
        scalar::units(BINADE as nat) == BINADE,
{
    lemma2_to64();
    assert(scalar::significand(BINADE as nat) == BINADE && scalar::exponent(BINADE as nat) == 0);
    assert(BINADE * 1 == BINADE);
}

/// A value of at least the smallest normal number rounds to a normal one,
/// unless it is past them.
proof fn lemma_rounds_up(n: nat, d: nat)
    requires
        d > 0,
        n >= d * BINADE,
    ensures
        rounding::round_magnitude(n, d) >= BINADE,
{
    lemma_least();
    let b = BINADE as nat;
    rounding::lemma_round_monotone(d * b, n, d);
    rounding::lemma_round_scales(b, 1, d);
    assert(d * 1 == d);
    scalar::lemma_round_exact(b);
}

/// A normal product is the exact one up to a step.
pub proof fn lemma_times_near(a: Scalar, b: Scalar)
    requires
        positive(a),
        positive(b),
        normal(a.times(b)),
    ensures
        near(exact(a.times(b)), exact(a) * exact(b), 1),
{
    reveal(Scalar::times_spec);
    lemma_positive(a);
    lemma_positive(b);
    lemma_positive(a.times(b));
    let (p, q) = (scalar::units(a.bits as nat), scalar::units(b.bits as nat));
    let one = scalar::one_units();
    let n = p * q;
    lemma_round_close(n, one);
    let u = scalar::units(a.times(b).bits as nat);
    lemma_near_quotient(u as int, n as int, one as int);
    let z = one as real;
    lemma_near_scales(u as real, n as real / z, 1, z);
    let (x, y) = (p as real, q as real);
    assert(n as real == x * y) by (nonlinear_arith)
        requires
            n == p * q,
            x == p as real,
            y == q as real,
    ;
    assert((x * y) / z / z == (x / z) * (y / z)) by (nonlinear_arith)
        requires
            z > 0 as real,
    ;
}

/// A normal quotient is the exact one up to a step.
pub proof fn lemma_over_near(a: Scalar, b: Scalar)
    requires
        positive(a),
        positive(b),
        normal(a.over(b)),
    ensures
        near(exact(a.over(b)), exact(a) / exact(b), 1),
{
    reveal(Scalar::over_spec);
    lemma_positive(a);
    lemma_positive(b);
    lemma_positive(a.over(b));
    let (p, q) = (scalar::units(a.bits as nat), scalar::units(b.bits as nat));
    let one = scalar::one_units();
    let n = p * one;
    lemma_round_close(n, q);
    let u = scalar::units(a.over(b).bits as nat);
    lemma_near_quotient(u as int, n as int, q as int);
    let (x, y, z) = (p as real, q as real, one as real);
    lemma_near_scales(u as real, n as real / y, 1, z);
    assert(n as real == x * z) by (nonlinear_arith)
        requires
            n == p * one,
            x == p as real,
            z == one as real,
    ;
    assert((x * z) / y / z == (x / z) / (y / z)) by (nonlinear_arith)
        requires
            y > 0 as real,
            z > 0 as real,
    ;
}

/// The square root of a positive number is normal, and its square is the number
/// up to a few steps.
pub proof fn lemma_sqrt_near(a: Scalar)
    requires
        positive(a),
    ensures
        normal(a.sqrt()),
        pow2(73) <= scalar::units(a.sqrt().bits as nat) < pow2(240),
        near(exact(a.sqrt()) * exact(a.sqrt()), exact(a), 3),
{
    reveal(Scalar::sqrt_spec);
    lemma_positive(a);
    let p = scalar::units(a.bits as nat);
    let one = scalar::one_units();
    let n = p * one;
    let w = rounding::root(n);
    lemma_root_range(a);
    lemma_pow2_strictly_increases(239, 240);
    lemma_root_close(n);
    let s = a.sqrt();
    let m = rounding::round_root(n);
    scalar::lemma_signed(false, m);
    assert(s.bits == m);
    lemma_positive(s);
    let u = scalar::units(m);
    let b = BINADE as int;
    lemma2_to64();
    rounding::lemma_root(n);
    // The root is not far below.
    assert(u >= pow2(73)) by {
        rounding::lemma_pow2_sum(1, 73);
        let h = pow2(73) as int;
        if u < h {
            assert((b + 1) * (b + 1) * (u * u) < (b * b) * (4 * (h * h))) by (nonlinear_arith)
                requires
                    0 <= u < h,
                    b == 0x80_0000,
            ;
            assert(n >= 4 * (h * h)) by (nonlinear_arith)
                requires
                    w * w <= n,
                    w >= 2 * h,
                    h > 0,
            ;
            assert((b * b) * n >= (b * b) * (4 * (h * h))) by (nonlinear_arith)
                requires
                    n >= 4 * (h * h),
                    b == 0x80_0000,
            ;
        }
    }
    assert(n > 0) by (nonlinear_arith)
        requires
            n == p * one,
            p > 0,
            one > 0,
    ;
    assert(u < pow2(240)) by {
        let t = pow2(240) as int;
        rounding::lemma_pow2_sum(1, 239);
        let g = pow2(239) as int;
        assert(w < g);
        if u >= t {
            assert(n < g * g) by (nonlinear_arith)
                requires
                    n < (w + 1) * (w + 1),
                    0 <= w,
                    w + 1 <= g,
            ;
            assert(false) by (nonlinear_arith)
                requires
                    (b - 1) * (b - 1) * (u * u) <= (b * b) * n,
                    n < g * g,
                    u >= 2 * g,
                    g >= 1,
                    b == 0x80_0000,
            ;
        }
    }
    lemma_square_near(u as int, n as int);
    let (x, y, z) = (u as real, p as real, one as real);
    assert(n as real == y * z) by (nonlinear_arith)
        requires
            n == p * one,
            y == p as real,
            z == one as real,
    ;
    lemma_near_scales(x * x, y * z, 3, z);
    lemma_near_scales((x * x) / z, (y * z) / z, 3, z);
    assert((x * x) / z / z == (x / z) * (x / z) && (y * z) / z / z == y / z) by (nonlinear_arith)
        requires
            z > 0 as real,
    ;
}

/// Where the root of a positive number lies.
proof fn lemma_root_range(a: Scalar)
    requires
        positive(a),
    ensures
        ({
            let w = rounding::root(scalar::units(a.bits as nat) * scalar::one_units());
            &&& pow2(74) <= w < pow2(239)
            &&& BINADE <= w
        }),
{
    let m = a.bits as nat;
    let u = scalar::units(m);
    let n = u * scalar::one_units();
    let w = rounding::root(n);
    lemma2_to64();
    rounding::lemma_root(n);
    lemma_positive(a);
    scalar::lemma_parts_bounded(m);
    let x = scalar::exponent(m);
    if x < 253 {
        lemma_pow2_strictly_increases(x, 253);
    }
    rounding::lemma_pow2_sum(24, 253);
    rounding::lemma_pow2_sum(74, 74);
    lemma_pow2_strictly_increases(148, 149);
    rounding::lemma_pow2_sum(277, 149);
    rounding::lemma_pow2_sum(239, 239);
    lemma_pow2_strictly_increases(426, 478);
    lemma_pow2_strictly_increases(23, 74);
    let g = scalar::significand(m);
    assert(u < pow2(277)) by (nonlinear_arith)
        requires
            u == g * pow2(x),
            g < 0x100_0000,
            pow2(x) <= pow2(253),
            pow2(253) > 0,
            pow2(277) == 0x100_0000 * pow2(253),
    ;
    assert(pow2(149) <= n < pow2(426)) by (nonlinear_arith)
        requires
            n == u * pow2(149),
            1 <= u < pow2(277),
            pow2(149) > 0,
            pow2(426) == pow2(277) * pow2(149),
    ;
    let (h, t) = (pow2(74), pow2(239));
    assert(w >= h) by (nonlinear_arith)
        requires
            h * h <= n,
            n < (w + 1) * (w + 1),
            w >= 0,
    ;
    assert(w < t) by (nonlinear_arith)
        requires
            w * w <= n,
            n < t * t,
            t > 0,
    ;
}

/// A square near a number, as numbers.
proof fn lemma_square_near(u: int, n: int)
    requires
        u > 0,
        n > 0,
        ({
            let b = BINADE as int;
            &&& (b - 1) * (b - 1) * (u * u) <= (b * b) * n
            &&& (b * b) * n <= (b + 1) * (b + 1) * (u * u)
        }),
    ensures
        near(u as real * u as real, n as real, 3),
{
    lemma_step();
    let b = BINADE as int;
    let e = step();
    let (x, y, z) = (u as real, n as real, b as real);
    let k = u * u;
    assert(k as real == x * x) by (nonlinear_arith)
        requires
            k == u * u,
            x == u as real,
    ;
    let q = x * x;
    lemma_positive_product(x, x);
    let (c, d, f) = (0x80_0000 - 1int, 0x80_0000 + 1int, 0x80_0000 * 0x80_0000int);
    assert(c * c * k <= f * n && f * n <= d * d * k);
    let (l, h) = (c * c, d * d);
    assert((l * k) as real == (l as real) * q && (f * n) as real == (f as real) * y && (h * k)
        as real == (h as real) * q) by (nonlinear_arith)
        requires
            k as real == q,
            y == n as real,
    ;
    // (1 - 3 e) n <= u u <= (1 + 3 e) n
    assert(q <= y * (1 as real + 3 as real * e)) by (nonlinear_arith)
        requires
            (0x7f_ffff * 0x7f_ffffint) as real * q <= (0x80_0000 * 0x80_0000int) as real * y,
            y > 0 as real,
            0x80_0000 as real * e == 1 as real,
    ;
    assert(y * (1 as real - 3 as real * e) <= q) by (nonlinear_arith)
        requires
            (0x80_0000 * 0x80_0000int) as real * y <= (0x80_0001 * 0x80_0001int) as real * q,
            q > 0 as real,
            y > 0 as real,
            0x80_0000 as real * e == 1 as real,
    ;
    assert(3int as real == 3 as real);
}

/// A difference of numbers without a sign is finite, and the exact one up to a
/// step of its size.
proof fn lemma_minus_near(a: Scalar, b: Scalar)
    requires
        counts(a),
        counts(b),
    ensures
        a.minus(b).is_finite(),
        exact(a) >= exact(b) ==> near(exact(a.minus(b)), exact(a) - exact(b), 1),
        exact(a) <= exact(b) ==> near(-exact(a.minus(b)), exact(b) - exact(a), 1),
{
    reveal(Scalar::plus_spec);
    lemma_counts(a);
    lemma_counts(b);
    let c = b.negated();
    scalar::lemma_signed(true, b.magnitude());
    let r = a.minus(b);
    let (p, q) = (scalar::units(a.bits as nat) as int, scalar::units(b.bits as nat) as int);
    let one = scalar::one_units() as real;
    assert(a.value() + c.value() == p - q);
    scalar::lemma_units_zero(0);
    let v = p - q;
    lemma_difference(p as real, q as real, one);
    lemma_step();
    if v > 0 {
        scalar::lemma_round_bounded(v as nat, 1, a.bits as nat);
        lemma_integer_close(v as nat);
        let m = rounding::round_magnitude(v as nat, 1);
        scalar::lemma_signed(false, m);
        lemma_near_quotient(scalar::units(m) as int, v, 1);
        assert(v as real / 1int as real == v as real);
        lemma_near_scales(scalar::units(m) as real, v as real, 1, one);
        lemma_quotient_back(v as real, one);
    } else if v < 0 {
        scalar::lemma_round_bounded((-v) as nat, 1, b.bits as nat);
        lemma_integer_close((-v) as nat);
        let m = rounding::round_magnitude((-v) as nat, 1);
        scalar::lemma_signed(true, m);
        lemma_near_quotient(scalar::units(m) as int, -v, 1);
        assert((-v) as real / 1int as real == (-v) as real);
        lemma_near_scales(scalar::units(m) as real, (-v) as real, 1, one);
        lemma_difference(0 as real, scalar::units(m) as real, one);
        lemma_difference(q as real, p as real, one);
        lemma_quotient_back((-v) as real, one);
    } else {
        scalar::lemma_signed(false, 0);
        assert(0 as real / one == 0 as real) by (nonlinear_arith)
            requires
                one > 0 as real,
        ;
        assert(0 as real * (1 as real - 1int as real * step()) == 0 as real) by (nonlinear_arith);
        assert(0 as real * (1 as real + 1int as real * step()) == 0 as real) by (nonlinear_arith);
    }
}

proof fn lemma_difference(x: real, y: real, c: real)
    requires
        c > 0 as real,
    ensures
        x / c - y / c == (x - y) / c,
        (0 as real) / c == 0 as real,
{
    assert(x / c - y / c == (x - y) / c) by (nonlinear_arith)
        requires
            c > 0 as real,
    ;
    assert((0 as real) / c == 0 as real) by (nonlinear_arith)
        requires
            c > 0 as real,
    ;
}

/// Rounding a whole number of units changes it by a step at most.
proof fn lemma_integer_close(v: nat)
    requires
        v > 0,
        rounding::round_magnitude(v, 1) < INFINITE,
    ensures
        ({
            let u = scalar::units(rounding::round_magnitude(v, 1));
            &&& BINADE * (u * 1 - v) <= v
            &&& BINADE * (v - u * 1) <= v
        }),
{
    let m = rounding::round_magnitude(v, 1);
    if m >= BINADE {
        lemma_round_close(v, 1);
    } else {
        let s = rounding::excess(v / 1);
        if s > 0 {
            rounding::lemma_significand_range(v, 1);
            assert(s * BINADE >= BINADE) by (nonlinear_arith)
                requires
                    s >= 1,
            ;
        }
        lemma2_to64();
        assert(1 * pow2(0) == 1);
        assert(v / 1 == v && v % 1 == 0);
        assert(m == v);
        assert(scalar::units(m) == m * 1);
    }
}

// ---------------------------------------------------------------------------
//  Ranges and constants
// ---------------------------------------------------------------------------

/// Nothing finite comes of what is not.
pub proof fn lemma_finite_product(a: Scalar, b: Scalar)
    requires
        a.times(b).is_finite(),
    ensures
        a.is_finite(),
        b.is_finite(),
{
    reveal(Scalar::times_spec);
    scalar::lemma_signed(true, INFINITE as nat);
    scalar::lemma_signed(false, INFINITE as nat);
}

/// Nothing finite comes of what is not.
pub proof fn lemma_finite_quotient(a: Scalar, b: Scalar)
    requires
        a.over(b).is_finite(),
        positive(b),
    ensures
        a.is_finite(),
{
    reveal(Scalar::over_spec);
    lemma_positive(b);
    scalar::lemma_signed(true, INFINITE as nat);
    scalar::lemma_signed(false, INFINITE as nat);
}

/// A product that is large enough is normal, unless it is past the format.
pub proof fn lemma_normal_product(a: Scalar, b: Scalar)
    requires
        positive(a),
        positive(b),
        a.times(b).is_finite(),
        scalar::units(a.bits as nat) * scalar::units(b.bits as nat) >= scalar::one_units() * BINADE,
    ensures
        normal(a.times(b)),
{
    reveal(Scalar::times_spec);
    lemma_positive(a);
    lemma_positive(b);
    let n = scalar::units(a.bits as nat) * scalar::units(b.bits as nat);
    lemma_rounds_up(n, scalar::one_units());
    scalar::lemma_signed(false, rounding::round_magnitude(n, scalar::one_units()));
}

/// A quotient that is large enough is normal, unless it is past the format.
pub proof fn lemma_normal_quotient(a: Scalar, b: Scalar)
    requires
        positive(a),
        positive(b),
        a.over(b).is_finite(),
        scalar::units(a.bits as nat) * scalar::one_units() >= scalar::units(b.bits as nat) * BINADE,
    ensures
        normal(a.over(b)),
{
    reveal(Scalar::over_spec);
    lemma_positive(a);
    lemma_positive(b);
    let n = scalar::units(a.bits as nat) * scalar::one_units();
    lemma_rounds_up(n, scalar::units(b.bits as nat));
    scalar::lemma_signed(false, rounding::round_magnitude(n, scalar::units(b.bits as nat)));
}

/// One times a number is the number itself.
pub proof fn lemma_one_times(a: Scalar)
    requires
        a.is_finite(),
    ensures
        Scalar::of_bits(ONE).times(a) == a,
{
    let one = Scalar::of_bits(ONE);
    scalar::lemma_times_one(a);
    assert(one.times(a) == a.times(one)) by {
        reveal(Scalar::times_spec);
        let (p, q) = (scalar::units(a.magnitude()), scalar::units(one.magnitude()));
        assert(p * q == q * p) by (nonlinear_arith);
    }
}

/// A number over one is the number itself.
pub proof fn lemma_over_one(a: Scalar)
    requires
        a.is_finite(),
    ensures
        a.over(Scalar::of_bits(ONE)) == a,
{
    reveal(Scalar::over_spec);
    lemma_constants();
    lemma_pow2_pos(149);
    let (u, z) = (scalar::units(a.magnitude()), scalar::one_units());
    assert(u * z == z * u && z == z * 1) by (nonlinear_arith);
    rounding::lemma_round_scales(u, 1, z);
    scalar::lemma_round_exact(a.magnitude());
}

/// The constants of the model in units.
pub proof fn lemma_constants()
    ensures
        2 * scalar::units(HALF as nat) == scalar::one_units(),
        scalar::units(ONE as nat) == scalar::one_units(),
        2 * scalar::units(ONE_AND_A_HALF as nat) == 3 * scalar::one_units(),
        scalar::units(TWO as nat) == 2 * scalar::one_units(),
        scalar::units(SIX as nat) == 6 * scalar::one_units(),
        scalar::units(TWELVE as nat) == 12 * scalar::one_units(),
{
    lemma2_to64();
    rounding::lemma_pow2_sum(23, 126);
    rounding::lemma_pow2_sum(1, 125);
    rounding::lemma_pow2_sum(1, 126);
    rounding::lemma_pow2_sum(1, 127);
    rounding::lemma_pow2_sum(1, 128);
    assert(scalar::significand(HALF as nat) == 0x80_0000 && scalar::exponent(HALF as nat) == 125);
    assert(scalar::significand(ONE as nat) == 0x80_0000 && scalar::exponent(ONE as nat) == 126);
    assert(scalar::significand(ONE_AND_A_HALF as nat) == 0xc0_0000 && scalar::exponent(
        ONE_AND_A_HALF as nat,
    ) == 126);
    assert(scalar::significand(TWO as nat) == 0x80_0000 && scalar::exponent(TWO as nat) == 127);
    assert(scalar::significand(SIX as nat) == 0xc0_0000 && scalar::exponent(SIX as nat) == 128);
    assert(scalar::significand(TWELVE as nat) == 0xc0_0000 && scalar::exponent(TWELVE as nat)
        == 129);
}

/// A constant whose units are a multiple of those of one.
pub proof fn lemma_constant(bits: u32, p: int, q: int)
    requires
        positive(Scalar::of_bits(bits)),
        q > 0,
        q * scalar::units(bits as nat) == p * scalar::one_units(),
    ensures
        exact(Scalar::of_bits(bits)) == p as real / q as real,
{
    let x = Scalar::of_bits(bits);
    lemma_positive(x);
    let (u, z) = (scalar::units(bits as nat) as int, scalar::one_units() as int);
    let (a, b, c, d) = (u as real, z as real, p as real, q as real);
    assert(d * a == c * b) by (nonlinear_arith)
        requires
            q * u == p * z,
            a == u as real,
            b == z as real,
            c == p as real,
            d == q as real,
    ;
    assert(a / b == c / d) by (nonlinear_arith)
        requires
            d * a == c * b,
            b > 0 as real,
            d > 0 as real,
    ;
}

// ---------------------------------------------------------------------------
//  Numbers of any size
// ---------------------------------------------------------------------------

/// The smallest positive number, `2^-149`.
pub open spec fn unit() -> real {
    1 as real / scalar::one_units() as real
}

/// Whether a number is finite and has no sign.
pub open spec fn counts(x: Scalar) -> bool {
    x.bits < INFINITE
}

/// Whether `x` is `y` up to `d`.
pub open spec fn within(x: real, y: real, d: real) -> bool {
    y - d <= x <= y + d
}

/// What a number without a sign is in units.
pub proof fn lemma_counts(x: Scalar)
    requires
        counts(x),
    ensures
        x.is_finite(),
        !x.negative(),
        x.magnitude() == x.bits,
        x.value() == scalar::units(x.bits as nat),
        exact(x) == scalar::units(x.bits as nat) as real / scalar::one_units() as real,
        exact(x) >= 0 as real,
        scalar::one_units() > 0,
        unit() > 0 as real,
{
    lemma_pow2_pos(149);
    let (u, z) = (scalar::units(x.bits as nat) as real, scalar::one_units() as real);
    assert(u / z >= 0 as real) by (nonlinear_arith)
        requires
            u >= 0 as real,
            z > 0 as real,
    ;
    lemma_quotient_back(1 as real, z);
}

/// Rounding changes a value by a step of it and a unit at most.
proof fn lemma_round_within(n: nat, d: nat)
    requires
        d > 0,
        rounding::round_magnitude(n, d) < INFINITE,
    ensures
        ({
            let u = scalar::units(rounding::round_magnitude(n, d));
            &&& BINADE * (u * d - n) <= n + BINADE * d
            &&& BINADE * (n - u * d) <= n + BINADE * d
        }),
{
    let m = rounding::round_magnitude(n, d);
    let b = BINADE as int;
    assert(b * d >= 0) by (nonlinear_arith)
        requires
            b >= 0,
            d >= 0,
    ;
    if m >= BINADE {
        lemma_round_close(n, d);
    } else {
        let s = rounding::excess(n / d);
        if s > 0 {
            assert(s * BINADE >= BINADE) by (nonlinear_arith)
                requires
                    s >= 1,
            ;
        }
        lemma2_to64();
        assert(d * pow2(0) == d) by (nonlinear_arith)
            requires
                pow2(0) == 1,
        ;
        let q = rounding::nearest_even(n, d);
        assert(m == q);
        assert(scalar::units(m) == m * 1);
        lemma_fundamental_div_mod(n as int, d as int);
        let (h, r) = (n / d, n % d);
        if q == h {
            assert(n - q * d == r) by (nonlinear_arith)
                requires
                    n == d * h + r,
                    q == h,
            ;
        } else {
            assert(n - q * d == r - d) by (nonlinear_arith)
                requires
                    n == d * h + r,
                    q == h + 1,
            ;
        }
        let e = n - q * d;
        assert(-d <= e <= d);
        assert(b * e <= b * d && b * (-e) <= b * d) by (nonlinear_arith)
            requires
                -d <= e <= d,
                b >= 0,
        ;
    }
}

/// A whole number of units close to a quotient, as numbers.
proof fn lemma_within_quotient(u: int, n: int, d: int, z: int)
    requires
        d > 0,
        z > 0,
        n >= 0,
        BINADE * (u * d - n) <= n + BINADE * d,
        BINADE * (n - u * d) <= n + BINADE * d,
    ensures
        within(
            u as real / z as real,
            n as real / d as real / z as real,
            step() * (n as real / d as real / z as real) + 1 as real / z as real,
        ),
{
    lemma_step();
    let b = 0x80_0000 as real;
    let e = step();
    let (x, y, w, v) = (u as real, n as real, d as real, z as real);
    let k = u * d - n;
    assert((u * d) as real == x * w) by (nonlinear_arith)
        requires
            x == u as real,
            w == d as real,
    ;
    assert(k as real == x * w - y);
    let c = BINADE * d;
    assert((BINADE * k) as real == b * (x * w - y) && c as real == b * w) by (nonlinear_arith)
        requires
            k as real == x * w - y,
            c == BINADE * d,
            w == d as real,
            b == 0x80_0000 as real,
            BINADE == 0x80_0000,
    ;
    assert(BINADE * (n - u * d) == -(BINADE * k)) by (nonlinear_arith)
        requires
            k == u * d - n,
    ;
    // In units: t = n / d, and u lies within e t + 1 of it.
    let t = y / w;
    lemma_quotient_back(y, w);
    let f = x * w - y;
    assert(f == (x - t) * w) by (nonlinear_arith)
        requires
            f == x * w - y,
            t * w == y,
    ;
    assert(y + b * w == (t + b) * w) by (nonlinear_arith)
        requires
            t * w == y,
    ;
    assert(b * f == (b * (x - t)) * w && -(b * f) == (b * (t - x)) * w) by (nonlinear_arith)
        requires
            f == (x - t) * w,
    ;
    lemma_order_drops(b * (x - t), t + b, w);
    lemma_order_drops(b * (t - x), t + b, w);
    assert(x - t <= e * t + 1 as real && t - x <= e * t + 1 as real) by (nonlinear_arith)
        requires
            b * (x - t) <= t + b,
            b * (t - x) <= t + b,
            b == 0x80_0000 as real,
            b * e == 1 as real,
    ;
    // And in ordinary units.
    let (p, q, o) = (x / v, t / v, 1 as real / v);
    lemma_quotient_back(x, v);
    lemma_quotient_back(t, v);
    lemma_quotient_back(1 as real, v);
    assert((e * q + o) * v == e * t + 1 as real && (p - q) * v == x - t && (q - p) * v == t - x)
        by (nonlinear_arith)
        requires
            p * v == x,
            q * v == t,
            o * v == 1 as real,
    ;
    lemma_order_drops(p - q, e * q + o, v);
    lemma_order_drops(q - p, e * q + o, v);
}

/// A finite product is the exact one up to a step and a unit.
pub proof fn lemma_times_within(a: Scalar, b: Scalar)
    requires
        counts(a),
        counts(b),
        a.times(b).is_finite(),
    ensures
        counts(a.times(b)),
        within(
            exact(a.times(b)),
            exact(a) * exact(b),
            step() * (exact(a) * exact(b)) + unit(),
        ),
{
    reveal(Scalar::times_spec);
    lemma_counts(a);
    lemma_counts(b);
    let (p, q) = (scalar::units(a.bits as nat), scalar::units(b.bits as nat));
    let one = scalar::one_units();
    let n = p * q;
    let m = rounding::round_magnitude(n, one);
    scalar::lemma_signed(false, m);
    lemma_round_within(n, one);
    lemma_counts(a.times(b));
    lemma_within_quotient(scalar::units(m) as int, n as int, one as int, one as int);
    let (x, y, z) = (p as real, q as real, one as real);
    assert(n as real == x * y) by (nonlinear_arith)
        requires
            n == p * q,
            x == p as real,
            y == q as real,
    ;
    assert((x * y) / z / z == (x / z) * (y / z)) by (nonlinear_arith)
        requires
            z > 0 as real,
    ;
}

/// A finite quotient is the exact one up to a step and a unit.
pub proof fn lemma_over_within(a: Scalar, b: Scalar)
    requires
        counts(a),
        positive(b),
        a.over(b).is_finite(),
    ensures
        counts(a.over(b)),
        within(
            exact(a.over(b)),
            exact(a) / exact(b),
            step() * (exact(a) / exact(b)) + unit(),
        ),
{
    reveal(Scalar::over_spec);
    lemma_counts(a);
    lemma_positive(b);
    let (p, q) = (scalar::units(a.bits as nat), scalar::units(b.bits as nat));
    let one = scalar::one_units();
    let n = p * one;
    let m = rounding::round_magnitude(n, q);
    scalar::lemma_signed(false, m);
    lemma_round_within(n, q);
    lemma_counts(a.over(b));
    lemma_within_quotient(scalar::units(m) as int, n as int, q as int, one as int);
    let (x, y, z) = (p as real, q as real, one as real);
    assert(n as real == x * z) by (nonlinear_arith)
        requires
            n == p * one,
            x == p as real,
            z == one as real,
    ;
    assert((x * z) / y / z == (x / z) / (y / z)) by (nonlinear_arith)
        requires
            y > 0 as real,
            z > 0 as real,
    ;
}

/// A finite sum is the exact one up to a step.
pub proof fn lemma_plus_within(a: Scalar, b: Scalar)
    requires
        counts(a),
        counts(b),
        a.plus(b).is_finite(),
    ensures
        counts(a.plus(b)),
        within(exact(a.plus(b)), exact(a) + exact(b), step() * (exact(a) + exact(b))),
{
    reveal(Scalar::plus_spec);
    lemma_counts(a);
    lemma_counts(b);
    lemma_step();
    let (p, q) = (scalar::units(a.bits as nat), scalar::units(b.bits as nat));
    let v = p + q;
    let z = scalar::one_units() as real;
    let m = rounding::round_magnitude(v, 1);
    scalar::lemma_units_zero(0);
    assert((p as real) / z + (q as real) / z == (v as real) / z) by (nonlinear_arith)
        requires
            v as real == p as real + q as real,
            z > 0 as real,
    ;
    let t = (v as real) / z;
    if v == 0 {
        scalar::lemma_signed(false, 0);
        lemma_counts(a.plus(b));
        lemma_difference(0 as real, 0 as real, z);
        assert(step() * t == 0 as real) by (nonlinear_arith)
            requires
                t == 0 as real,
        ;
    } else {
        scalar::lemma_signed(false, m);
        lemma_counts(a.plus(b));
        lemma_integer_close(v);
        lemma_near_quotient(scalar::units(m) as int, v as int, 1);
        assert(v as real / 1int as real == v as real);
        lemma_near_scales(scalar::units(m) as real, v as real, 1, z);
        lemma_near_within(exact(a.plus(b)), t, 1);
        assert(1int as real * (step() * t) == step() * t) by (nonlinear_arith);
    }
}

/// A difference of numbers without a sign is finite, and the exact one up to a
/// step of its size; it has the sign of the exact one.
pub proof fn lemma_minus_within(a: Scalar, b: Scalar)
    requires
        counts(a),
        counts(b),
    ensures
        a.minus(b).is_finite(),
        exact(a) >= exact(b) ==> within(
            exact(a.minus(b)),
            exact(a) - exact(b),
            step() * (exact(a) - exact(b)),
        ),
        exact(a) <= exact(b) ==> within(
            exact(a.minus(b)),
            exact(a) - exact(b),
            step() * (exact(b) - exact(a)),
        ),
        exact(a) > exact(b) ==> exact(a.minus(b)) > 0 as real,
        exact(a) <= exact(b) ==> exact(a.minus(b)) <= 0 as real,
        exact(a) >= exact(b) ==> exact(a.minus(b)) >= 0 as real,
{
    lemma_counts(a);
    lemma_counts(b);
    lemma_minus_near(a, b);
    lemma_step();
    let (x, y) = (exact(a), exact(b));
    let (e, r) = (step(), exact(a.minus(b)));
    if x >= y {
        lemma_near_within(r, x - y, 1);
        lemma_order(0 as real, x - y, 1 as real - 1int as real * e);
        if x > y {
            lemma_positive_product(x - y, 1 as real - 1int as real * e);
        }
        assert(1int as real * (e * (x - y)) == e * (x - y)) by (nonlinear_arith);
    }
    if x <= y {
        lemma_near_within(-r, y - x, 1);
        lemma_order(0 as real, y - x, 1 as real - 1int as real * e);
        assert(1int as real * (e * (y - x)) == e * (y - x)) by (nonlinear_arith);
    }
}

/// Numbers compare as what they stand for.
pub proof fn lemma_exact_order(a: Scalar, b: Scalar)
    requires
        counts(a),
        counts(b),
    ensures
        exact(a) < exact(b) <==> a.lt(b),
{
    lemma_counts(a);
    lemma_counts(b);
    let (p, q) = (scalar::units(a.bits as nat), scalar::units(b.bits as nat));
    let (x, y, z) = (p as real, q as real, scalar::one_units() as real);
    if p >= q {
        assert(x / z >= y / z) by (nonlinear_arith)
            requires
                x >= y,
                z > 0 as real,
        ;
    } else {
        assert(x / z < y / z) by (nonlinear_arith)
            requires
                x < y,
                z > 0 as real,
        ;
    }
}

/// What being near means in plain terms.
pub proof fn lemma_near_within(x: real, t: real, k: int)
    requires
        near(x, t, k),
    ensures
        within(x, t, k as real * (step() * t)),
{
    let e = step();
    let c = k as real;
    assert(t * (1 as real - c * e) == t - c * (e * t) && t * (1 as real + c * e) == t + c * (e * t))
        by (nonlinear_arith);
}

/// A normal product exceeds the exact one by half a step of itself at most.
pub proof fn lemma_times_upper(a: Scalar, b: Scalar)
    requires
        positive(a),
        positive(b),
        normal(a.times(b)),
    ensures
        exact(a.times(b)) * (1 as real - step() / 2 as real) <= exact(a) * exact(b),
{
    reveal(Scalar::times_spec);
    lemma_positive(a);
    lemma_positive(b);
    lemma_positive(a.times(b));
    let (p, q) = (scalar::units(a.bits as nat), scalar::units(b.bits as nat));
    let one = scalar::one_units();
    let n = p * q;
    lemma_round_close(n, one);
    let u = scalar::units(a.times(b).bits as nat);
    lemma_upper_quotient(u as int, n as int, one as int, one as int);
    let (x, y, z) = (p as real, q as real, one as real);
    assert(n as real == x * y) by (nonlinear_arith)
        requires
            n == p * q,
            x == p as real,
            y == q as real,
    ;
    assert((x * y) / z / z == (x / z) * (y / z)) by (nonlinear_arith)
        requires
            z > 0 as real,
    ;
}

/// A normal quotient exceeds the exact one by half a step of itself at most.
pub proof fn lemma_over_upper(a: Scalar, b: Scalar)
    requires
        positive(a),
        positive(b),
        normal(a.over(b)),
    ensures
        exact(a.over(b)) * (1 as real - step() / 2 as real) <= exact(a) / exact(b),
{
    reveal(Scalar::over_spec);
    lemma_positive(a);
    lemma_positive(b);
    lemma_positive(a.over(b));
    let (p, q) = (scalar::units(a.bits as nat), scalar::units(b.bits as nat));
    let one = scalar::one_units();
    let n = p * one;
    lemma_round_close(n, q);
    let u = scalar::units(a.over(b).bits as nat);
    lemma_upper_quotient(u as int, n as int, q as int, one as int);
    let (x, y, z) = (p as real, q as real, one as real);
    assert(n as real == x * z) by (nonlinear_arith)
        requires
            n == p * one,
            x == p as real,
            z == one as real,
    ;
    assert((x * z) / y / z == (x / z) / (y / z)) by (nonlinear_arith)
        requires
            y > 0 as real,
            z > 0 as real,
    ;
}

/// A whole number of units bounded by a quotient, as numbers.
proof fn lemma_upper_quotient(u: int, n: int, d: int, z: int)
    requires
        d > 0,
        z > 0,
        (2 * BINADE - 1) * (u * d) <= 2 * BINADE * n,
    ensures
        (u as real / z as real) * (1 as real - step() / 2 as real) <= n as real / d as real
            / z as real,
{
    lemma_step();
    let e = step();
    let (x, y, w, v) = (u as real, n as real, d as real, z as real);
    let k = u * d;
    assert(k as real == x * w) by (nonlinear_arith)
        requires
            k == u * d,
            x == u as real,
            w == d as real,
    ;
    assert(0xff_ffff * k <= 0x100_0000 * n);
    assert(0xff_ffff as real * (x * w) <= 0x100_0000 as real * y);
    let t = y / w;
    lemma_quotient_back(y, w);
    assert(0xff_ffff as real * (x * w) == (0xff_ffff as real * x) * w && 0x100_0000 as real * y == (
    0x100_0000 as real * t) * w) by (nonlinear_arith)
        requires
            t * w == y,
    ;
    lemma_order_drops(0xff_ffff as real * x, 0x100_0000 as real * t, w);
    let f = 1 as real - e / 2 as real;
    assert(0x100_0000 as real * f == 0xff_ffff as real);
    assert(0x100_0000 as real * (x * f) == 0xff_ffff as real * x) by (nonlinear_arith)
        requires
            0x100_0000 as real * f == 0xff_ffff as real,
    ;
    assert(x * f <= t);
    let (p, q) = (x / v, t / v);
    lemma_quotient_back(x, v);
    lemma_quotient_back(t, v);
    assert((p * f) * v == x * f) by (nonlinear_arith)
        requires
            p * v == x,
    ;
    lemma_order_drops(p * f, q, v);
}

// ---------------------------------------------------------------------------
//  Numbers of moderate size
// ---------------------------------------------------------------------------

/// `2^100`, well inside the format.
pub open spec fn far() -> real {
    pow2(100) as real
}

/// `1.2676506e30`, which is `2^100`.
const FAR_BITS: u32 = 0x7180_0000;

proof fn lemma_far()
    ensures
        scalar::units(FAR_BITS as nat) == pow2(100) * scalar::one_units(),
        scalar::one_units() >= pow2(100) * BINADE,
        far() >= 1 as real,
        pow2(100) > 0,
{
    lemma2_to64();
    assert(scalar::significand(FAR_BITS as nat) == 0x80_0000 && scalar::exponent(FAR_BITS as nat)
        == 226);
    rounding::lemma_pow2_sum(23, 226);
    rounding::lemma_pow2_sum(100, 149);
    rounding::lemma_pow2_sum(100, 23);
    lemma_pow2_strictly_increases(123, 149);
    lemma_pow2_strictly_increases(0, 100);
}

/// Orders of exact numbers are orders of their units.
proof fn lemma_scaled_order(p: nat, q: nat, c: nat, z: nat)
    requires
        z > 0,
        p as real / z as real <= c as real * (q as real / z as real),
    ensures
        p <= c * q,
{
    let (x, y, k, w) = (p as real, q as real, c as real, z as real);
    lemma_quotient_back(x, w);
    lemma_quotient_back(y, w);
    lemma_order(x / w, k * (y / w), w);
    assert((k * (y / w)) * w == k * y) by (nonlinear_arith)
        requires
            (y / w) * w == y,
    ;
    let g = c * q;
    assert(g as real == k * y) by (nonlinear_arith)
        requires
            g == c * q,
            k == c as real,
            y == q as real,
    ;
    assert(p <= g);
}

/// A quotient of numbers that are not too far apart is held to full precision.
pub proof fn lemma_over_in_range(a: Scalar, b: Scalar)
    requires
        positive(a),
        positive(b),
        exact(a) <= far() * exact(b),
        exact(b) <= far() * exact(a),
    ensures
        normal(a.over(b)),
{
    lemma_positive(a);
    lemma_positive(b);
    lemma_far();
    let (p, q, z, f) = (
        scalar::units(a.bits as nat),
        scalar::units(b.bits as nat),
        scalar::one_units(),
        pow2(100),
    );
    lemma_scaled_order(p, q, f, z);
    lemma_scaled_order(q, p, f, z);
    assert(p * z <= q * (f * z)) by (nonlinear_arith)
        requires
            p <= f * q,
            z >= 0,
    ;
    scalar::lemma_over_bounded(a, b, FAR_BITS as nat);
    assert(p * z >= q * BINADE) by (nonlinear_arith)
        requires
            q <= f * p,
            z >= f * BINADE,
            p > 0,
    ;
    lemma_normal_quotient(a, b);
}

/// A product of moderate size is held to full precision.
pub proof fn lemma_times_in_range(a: Scalar, b: Scalar)
    requires
        positive(a),
        positive(b),
        exact(a) * exact(b) <= far(),
        1 as real <= far() * (exact(a) * exact(b)),
    ensures
        normal(a.times(b)),
{
    lemma_positive(a);
    lemma_positive(b);
    lemma_far();
    let (p, q, z, f) = (
        scalar::units(a.bits as nat),
        scalar::units(b.bits as nat),
        scalar::one_units(),
        pow2(100),
    );
    let (x, y, w, k) = (p as real, q as real, z as real, f as real);
    let (s, t) = (x / w, y / w);
    lemma_quotient_back(x, w);
    lemma_quotient_back(y, w);
    let (n, d) = (p * q, z * z);
    assert(n as real == (s * t) * (w * w)) by {
        assert(n as real == x * y) by (nonlinear_arith)
            requires
                n == p * q,
                x == p as real,
                y == q as real,
        ;
        assert(x * y == (s * t) * (w * w)) by (nonlinear_arith)
            requires
                s * w == x,
                t * w == y,
        ;
    }
    assert(d as real == w * w) by (nonlinear_arith)
        requires
            d == z * z,
            w == z as real,
    ;
    lemma_positive_product(w, w);
    lemma_order(s * t, k, w * w);
    lemma_order(1 as real, k * (s * t), w * w);
    assert((k * (s * t)) * (w * w) == k * ((s * t) * (w * w))) by (nonlinear_arith);
    let (g, h) = (f * d, f * n);
    assert(g as real == k * (w * w)) by (nonlinear_arith)
        requires
            g == f * d,
            k == f as real,
            d as real == w * w,
    ;
    assert(h as real == k * (n as real)) by (nonlinear_arith)
        requires
            h == f * n,
            k == f as real,
    ;
    assert(n <= g && d <= h);
    assert(n <= z * (f * z)) by (nonlinear_arith)
        requires
            n <= f * (z * z),
    ;
    assert(n >= z * BINADE) by (nonlinear_arith)
        requires
            z * z <= f * n,
            z >= f * BINADE,
            z > 0,
            f > 0,
    ;
    assert(a.times(b).is_finite()) by {
        reveal(Scalar::times_spec);
        scalar::lemma_round_bounded(n, z, FAR_BITS as nat);
        scalar::lemma_signed(false, rounding::round_magnitude(n, z));
    }
    lemma_normal_product(a, b);
}

/// A sum of moderate size is finite, and the exact one up to a step.
pub proof fn lemma_plus_in_range(a: Scalar, b: Scalar)
    requires
        counts(a),
        counts(b),
        exact(a) + exact(b) <= far(),
    ensures
        counts(a.plus(b)),
        near(exact(a.plus(b)), exact(a) + exact(b), 1),
{
    lemma_counts(a);
    lemma_counts(b);
    lemma_far();
    let (p, q, z, f) = (
        scalar::units(a.bits as nat),
        scalar::units(b.bits as nat),
        scalar::one_units(),
        pow2(100),
    );
    let (x, y, w, k) = (p as real, q as real, z as real, f as real);
    let v = p + q;
    lemma_quotient_back(x, w);
    lemma_quotient_back(y, w);
    lemma_order(x / w + y / w, k, w);
    assert((x / w + y / w) * w == x + y) by (nonlinear_arith)
        requires
            (x / w) * w == x,
            (y / w) * w == y,
    ;
    let g = f * z;
    assert(g as real == k * w) by (nonlinear_arith)
        requires
            g == f * z,
            k == f as real,
            w == z as real,
    ;
    assert(v as real == x + y);
    assert(v <= g);
    assert(a.plus(b).is_finite()) by {
        reveal(Scalar::plus_spec);
        assert(1 * scalar::units(FAR_BITS as nat) == scalar::units(FAR_BITS as nat));
        scalar::lemma_round_bounded(v, 1, FAR_BITS as nat);
        scalar::lemma_signed(false, rounding::round_magnitude(v, 1));
        scalar::lemma_signed(false, 0);
    }
    lemma_plus_within(a, b);
    let (t, e) = (exact(a) + exact(b), step());
    assert(t * (1 as real - 1int as real * e) == t - e * t && t * (1 as real + 1int as real * e) == t
        + e * t) by (nonlinear_arith);
}

/// A sum with one keeps what is near.
pub proof fn lemma_near_past_one(x: real, y: real, k: int)
    requires
        near(x, y, k),
        k >= 0,
    ensures
        near(1 as real + x, 1 as real + y, k),
{
    lemma_step();
    let c = k as real * step();
    lemma_order(0 as real, step(), k as real);
    assert((1 as real + y) * (1 as real - c) == y * (1 as real - c) + 1 as real - c && (1 as real
        + y) * (1 as real + c) == y * (1 as real + c) + 1 as real + c) by (nonlinear_arith);
}

/// A number is near to itself.
pub proof fn lemma_near_itself(x: real)
    ensures
        near(x, x, 0),
{
    let e = 0int as real * step();
    assert(e == 0 as real);
    assert(x * (1 as real - e) == x && x * (1 as real + e) == x) by (nonlinear_arith)
        requires
            e == 0 as real,
    ;
}

/// A whole number as a scalar is that number up to a step.
pub proof fn lemma_integer_near(n: u64)
    requires
        n > 0,
    ensures
        normal(Scalar::of_integer(n)),
        near(exact(Scalar::of_integer(n)), n as real, 1),
        scalar::one_units() <= scalar::units(Scalar::of_integer(n).bits as nat),
        exact(Scalar::of_integer(n)) >= 1 as real,
{
    let x = Scalar::of_integer(n);
    let z = scalar::one_units();
    scalar::lemma_of_integer(n);
    scalar::lemma_integers_ordered(n, n);
    lemma_pow2_pos(149);
    assert(x.bits == x.magnitude());
    lemma_constants();
    if x.bits > ONE {
        scalar::lemma_units_order(ONE as nat, x.bits as nat);
    }
    lemma_positive(x);
    let v = n as nat * z;
    assert(v > 0) by (nonlinear_arith)
        requires
            v == n as nat * z,
            n > 0,
            z > 0,
    ;
    let m = rounding::round_magnitude(v, 1);
    assert(m == x.bits) by {
        reveal(Scalar::of_integer_spec);
        if m <= INFINITE {
            scalar::lemma_signed(false, m);
        }
    }
    lemma_integer_close(v);
    lemma_near_quotient(scalar::units(m) as int, v as int, 1);
    assert(v as real / 1int as real == v as real);
    let w = z as real;
    lemma_near_scales(scalar::units(m) as real, v as real, 1, w);
    assert(v as real / w == n as real) by {
        assert(v as real == n as real * w) by (nonlinear_arith)
            requires
                v == n as nat * z,
                w == z as real,
        ;
        assert((n as real * w) / w == n as real) by (nonlinear_arith)
            requires
                w > 0 as real,
        ;
    }
    let u = scalar::units(x.bits as nat) as real;
    assert(u / w >= 1 as real) by (nonlinear_arith)
        requires
            u >= w,
            w > 0 as real,
    ;
}

/// `10^24`, a bound on what is of moderate size.
pub open spec fn wide() -> real {
    1_000_000_000_000 as real * 1_000_000_000_000 as real
}

/// Whether a positive number is of moderate size.
pub open spec fn moderate(x: real) -> bool {
    &&& x > 0 as real
    &&& x <= wide()
    &&& wide() * x >= 1 as real
}

proof fn lemma_wide()
    ensures
        2 as real * wide() <= far(),
        wide() > 2 as real,
{
    lemma2_to64();
    rounding::lemma_pow2_sum(64, 36);
    lemma_pow2_strictly_increases(32, 36);
    let (p, q, f) = (pow2(64), pow2(36), pow2(100));
    assert(f >= 10_000_000_000_000 * 1_000_000_000_000) by (nonlinear_arith)
        requires
            f == p * q,
            p >= 10_000_000_000_000_000,
            q >= 1_000_000_000,
    ;
    let g = 10_000_000_000_000int * 1_000_000_000_000int;
    assert(g as real == 10_000_000_000_000 as real * 1_000_000_000_000 as real);
}

/// What is near to something is within a factor of two of it.
proof fn lemma_near_doubles(x: real, t: real, k: int)
    requires
        near(x, t, k),
        0 <= k <= 100,
        t > 0 as real,
    ensures
        x <= 2 as real * t,
        t <= 2 as real * x,
        x > 0 as real,
{
    lemma_near_within(x, t, k);
    lemma_step();
    let (e, c) = (step(), k as real);
    let q = e * t;
    assert(0x80_0000 as real * q == t) by (nonlinear_arith)
        requires
            q == e * t,
            0x80_0000 as real * e == 1 as real,
    ;
    lemma_order(c, 100 as real, q);
}

/// A product of what is near to numbers whose product is of moderate size.
pub proof fn lemma_times_of(a: Scalar, x: real, j: int, b: Scalar, y: real, k: int)
    requires
        positive(a),
        positive(b),
        near(exact(a), x, j),
        near(exact(b), y, k),
        0 <= j <= 40,
        0 <= k <= 40,
        x > 0 as real,
        y > 0 as real,
        moderate(x * y),
    ensures
        normal(a.times(b)),
        near(exact(a.times(b)), x * y, j + k + 3),
{
    lemma_wide();
    lemma_positive(a);
    lemma_positive(b);
    let (p, q) = (exact(a), exact(b));
    lemma_near_product(p, x, j, q, y, k);
    lemma_near_doubles(p * q, x * y, j + k + 1);
    let (f, w) = (far(), wide());
    lemma_order(2 as real * w, f, p * q);
    lemma_order(x * y, 2 as real * (p * q), w);
    assert(w * (2 as real * (p * q)) == (2 as real * w) * (p * q)) by (nonlinear_arith);
    lemma_times_in_range(a, b);
    lemma_times_near(a, b);
    lemma_near_joins(exact(a.times(b)), p * q, 1, x * y, j + k + 1);
}

/// A quotient of what is near to numbers whose quotient is of moderate size.
pub proof fn lemma_over_of(a: Scalar, x: real, j: int, b: Scalar, y: real, k: int)
    requires
        positive(a),
        positive(b),
        near(exact(a), x, j),
        near(exact(b), y, k),
        0 <= j <= 40,
        0 <= k <= 40,
        x > 0 as real,
        y > 0 as real,
        moderate(x / y),
    ensures
        normal(a.over(b)),
        near(exact(a.over(b)), x / y, j + k + 3),
{
    lemma_wide();
    lemma_positive(a);
    lemma_positive(b);
    let (p, q) = (exact(a), exact(b));
    lemma_near_ratio(p, x, j, q, y, k);
    lemma_quotient_back(x, y);
    lemma_quotient_back(p, q);
    let (r, t) = (p / q, x / y);
    lemma_near_doubles(r, t, j + k + 1);
    let (f, w) = (far(), wide());
    assert(r <= f);
    lemma_order(r, f, q);
    lemma_order(t, 2 as real * r, w);
    assert(w * (2 as real * r) == (2 as real * w) * r) by (nonlinear_arith);
    lemma_order(2 as real * w, f, r);
    lemma_order(1 as real, f * r, q);
    assert((f * r) * q == f * (r * q)) by (nonlinear_arith);
    lemma_over_in_range(a, b);
    lemma_over_near(a, b);
    lemma_near_joins(exact(a.over(b)), r, 1, t, j + k + 1);
}

/// A sum of what is near to positive numbers of moderate size.
pub proof fn lemma_plus_of(a: Scalar, x: real, j: int, b: Scalar, y: real, k: int)
    requires
        positive(a),
        positive(b),
        near(exact(a), x, j),
        near(exact(b), y, k),
        0 <= j <= k <= 40,
        x > 0 as real,
        y > 0 as real,
        x + y <= wide(),
    ensures
        positive(a.plus(b)),
        near(exact(a.plus(b)), x + y, k + 2),
{
    lemma_wide();
    lemma_positive(a);
    lemma_positive(b);
    let (p, q) = (exact(a), exact(b));
    lemma_near_widens(p, x, j, k);
    let c = k as real * step();
    assert((x + y) * (1 as real - c) == x * (1 as real - c) + y * (1 as real - c) && (x + y) * (
    1 as real + c) == x * (1 as real + c) + y * (1 as real + c)) by (nonlinear_arith);
    lemma_near_doubles(p, x, k);
    lemma_near_doubles(q, y, k);
    lemma_plus_in_range(a, b);
    lemma_near_joins(exact(a.plus(b)), p + q, 1, x + y, k);
    lemma_near_doubles(exact(a.plus(b)), x + y, k + 2);
    let r = a.plus(b);
    if r.bits == 0 {
        lemma_counts(r);
        scalar::lemma_units_zero(0);
        let z = scalar::one_units() as real;
        assert(0 as real / z == 0 as real) by (nonlinear_arith)
            requires
                z > 0 as real,
        ;
    }
}

/// What a pattern stands for, given its significand and how far it is shifted
/// down.
pub proof fn lemma_pattern(bits: u32, down: nat)
    requires
        0 < bits < INFINITE,
        down <= 149,
        scalar::exponent(bits as nat) == 149 - down,
    ensures
        exact(Scalar::of_bits(bits)) * pow2(down) as real == scalar::significand(bits as nat) as real,
        exact(Scalar::of_bits(bits)) > 0 as real,
{
    let x = Scalar::of_bits(bits);
    lemma_positive(x);
    let up = (149 - down) as nat;
    rounding::lemma_pow2_sum(down, up);
    lemma_pow2_pos(down);
    lemma_pow2_pos(up);
    let (g, p, q, z) = (
        scalar::significand(bits as nat),
        pow2(down),
        pow2(up),
        scalar::one_units(),
    );
    let u = scalar::units(bits as nat);
    assert(u * p == g * z) by (nonlinear_arith)
        requires
            u == g * q,
            z == p * q,
    ;
    let (a, b, c, d) = (u as real, p as real, g as real, z as real);
    assert(a * b == c * d) by (nonlinear_arith)
        requires
            u * p == g * z,
            a == u as real,
            b == p as real,
            c == g as real,
            d == z as real,
    ;
    lemma_quotient_back(a, d);
    assert((a / d) * b == c) by (nonlinear_arith)
        requires
            (a / d) * d == a,
            a * b == c * d,
            d > 0 as real,
    ;
}

/// A whole number of units, rounded, is that many up to a step.
pub proof fn lemma_rounded_units(v: nat)
    requires
        v > 0,
        rounding::round_magnitude(v, 1) < INFINITE,
    ensures
        ({
            let z = scalar::one_units() as real;
            let x = scalar::units(rounding::round_magnitude(v, 1)) as real / z;
            let t = v as real / z;
            within(x, t, step() * t)
        }),
{
    lemma_pow2_pos(149);
    let z = scalar::one_units() as real;
    let m = rounding::round_magnitude(v, 1);
    lemma_integer_close(v);
    lemma_near_quotient(scalar::units(m) as int, v as int, 1);
    assert(v as real / 1int as real == v as real);
    lemma_near_scales(scalar::units(m) as real, v as real, 1, z);
    let t = v as real / z;
    lemma_near_within(scalar::units(m) as real / z, t, 1);
    assert(1int as real * (step() * t) == step() * t) by (nonlinear_arith);
}

/// A product that is not too large is finite.
pub proof fn lemma_times_finite(a: Scalar, b: Scalar)
    requires
        counts(a),
        counts(b),
        exact(a) * exact(b) <= far(),
    ensures
        counts(a.times(b)),
{
    reveal(Scalar::times_spec);
    lemma_counts(a);
    lemma_counts(b);
    lemma_far();
    let (p, q, z, f) = (
        scalar::units(a.bits as nat),
        scalar::units(b.bits as nat),
        scalar::one_units(),
        pow2(100),
    );
    let (x, y, w, k) = (p as real, q as real, z as real, f as real);
    lemma_quotient_back(x, w);
    lemma_quotient_back(y, w);
    let (s, t) = (x / w, y / w);
    let (n, g) = (p * q, f * (z * z));
    lemma_positive_product(w, w);
    lemma_order(s * t, k, w * w);
    assert(n as real == (s * t) * (w * w)) by {
        assert(n as real == x * y) by (nonlinear_arith)
            requires
                n == p * q,
                x == p as real,
                y == q as real,
        ;
        assert(x * y == (s * t) * (w * w)) by (nonlinear_arith)
            requires
                s * w == x,
                t * w == y,
        ;
    }
    assert(g as real == k * (w * w)) by {
        let d = z * z;
        assert(d as real == w * w) by (nonlinear_arith)
            requires
                d == z * z,
                w == z as real,
        ;
        assert(g as real == k * (d as real)) by (nonlinear_arith)
            requires
                g == f * d,
                k == f as real,
        ;
    }
    assert(n <= g);
    assert(n <= z * (f * z)) by (nonlinear_arith)
        requires
            n <= f * (z * z),
    ;
    scalar::lemma_round_bounded(n, z, FAR_BITS as nat);
    scalar::lemma_signed(false, rounding::round_magnitude(n, z));
    assert(a.times(b).bits == a.times(b).magnitude());
}

/// A quotient that is not too large is finite.
pub proof fn lemma_over_finite(a: Scalar, b: Scalar)
    requires
        counts(a),
        positive(b),
        exact(a) <= far() * exact(b),
    ensures
        counts(a.over(b)),
{
    lemma_counts(a);
    lemma_positive(b);
    lemma_far();
    let (p, q, z, f) = (
        scalar::units(a.bits as nat),
        scalar::units(b.bits as nat),
        scalar::one_units(),
        pow2(100),
    );
    lemma_scaled_order(p, q, f, z);
    assert(p * z <= q * (f * z)) by (nonlinear_arith)
        requires
            p <= f * q,
            z >= 0,
    ;
    scalar::lemma_over_bounded(a, b, FAR_BITS as nat);
    assert(a.over(b).bits == a.over(b).magnitude());
}

/// A whole number of units that is not too large does not overflow when rounded.
pub proof fn lemma_units_finite(v: nat)
    requires
        v as real <= far() * scalar::one_units() as real,
    ensures
        rounding::round_magnitude(v, 1) < INFINITE,
{
    lemma_far();
    let (f, z) = (pow2(100), scalar::one_units());
    let g = f * z;
    assert(g as real == far() * z as real) by (nonlinear_arith)
        requires
            g == f * z,
            far() == f as real,
    ;
    assert(v <= g);
    assert(1 * scalar::units(FAR_BITS as nat) == scalar::units(FAR_BITS as nat));
    scalar::lemma_round_bounded(v, 1, FAR_BITS as nat);
}

} // verus!
