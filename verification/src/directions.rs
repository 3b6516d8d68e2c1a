//! Where the camera looks, as numbers.

use vstd::prelude::*;

use crate::accuracy;
use crate::camera;
use crate::camera::{Angles, OrbitCamera, Vector};
use crate::geometry;
use crate::nucleation;
use crate::scalar::{Scalar, ONE, ZERO};
use crate::signed;
use crate::torus;

verus! {

/// Whether a sine and a cosine are those of one angle, to a millionth.
pub open spec fn of_one_angle(s: Scalar, c: Scalar) -> bool {
    let (x, y) = (accuracy::exact(s), accuracy::exact(c));
    &&& geometry::within_one(s) && geometry::within_one(c)
    &&& accuracy::within(x * x + y * y, 1 as real, 1 as real / 1_000_000 as real)
}

/// Whether a vector is `d` times `(x, y, z)`, each component to `d m`.
spec fn along(v: Vector, d: real, x: real, y: real, z: real, m: real) -> bool {
    &&& geometry::tame(v.x) && geometry::tame(v.y) && geometry::tame(v.z)
    &&& accuracy::within(accuracy::exact(v.x), d * x, d * m)
    &&& accuracy::within(accuracy::exact(v.y), d * y, d * m)
    &&& accuracy::within(accuracy::exact(v.z), d * z, d * m)
}

/// Whether `(x, y, z)` has unit length, nearly.
spec fn unit(x: real, y: real, z: real) -> bool {
    &&& torus::size(x) <= 1001 as real / 1000 as real
    &&& torus::size(y) <= 1001 as real / 1000 as real
    &&& torus::size(z) <= 1001 as real / 1000 as real
    &&& accuracy::within(x * x + y * y + z * z, 1 as real, 1 as real / 100_000 as real)
}

/// The square of a component against that of the direction.
proof fn lemma_component(v: real, d: real, x: real, m: real)
    requires
        d > 0 as real,
        d <= 1000 as real,
        0 as real <= m,
        100 as real * m <= 1 as real,
        torus::size(x) <= 1001 as real / 1000 as real,
        accuracy::within(v, d * x, d * m),
    ensures
        torus::size(v) <= 1100 as real,
        accuracy::within(v * v, (d * d) * (x * x), (d * d) * (21 as real * m / 10 as real)),
        (d * d) * (x * x) >= 0 as real,
{
    signed::lemma_size_product(d, x);
    accuracy::lemma_order(torus::size(x), 1001 as real / 1000 as real, d);
    accuracy::lemma_order(m, 1 as real / 100 as real, d);
    let t = v / d;
    accuracy::lemma_quotient_back(v, d);
    assert(accuracy::within(t, x, m)) by {
        assert(t <= x + m && t >= x - m) by (nonlinear_arith)
            requires
                t * d == v,
                v <= d * x + d * m,
                v >= d * x - d * m,
                d > 0 as real,
        ;
    }
    let (p, q) = (t - x, t + x);
    assert(t * t - x * x == p * q) by (nonlinear_arith)
        requires
            p == t - x,
            q == t + x,
    ;
    signed::lemma_size_product(p, q);
    let c = 21 as real / 10 as real;
    accuracy::lemma_order(torus::size(p), m, torus::size(q));
    accuracy::lemma_order(torus::size(q), c, m);
    assert(m * c == 21 as real * m / 10 as real && torus::size(q) * m == m * torus::size(q))
        by (nonlinear_arith)
        requires
            c == 21 as real / 10 as real,
    ;
    let g = d * d;
    accuracy::lemma_positive_product(d, d);
    let w = 21 as real * m / 10 as real;
    accuracy::lemma_order(t * t, x * x + w, g);
    accuracy::lemma_order(x * x - w, t * t, g);
    assert(g * (x * x + w) == g * (x * x) + g * w && g * (x * x - w) == g * (x * x) - g * w)
        by (nonlinear_arith);
    assert(g * (t * t) == v * v) by (nonlinear_arith)
        requires
            g == d * d,
            t * d == v,
    ;
    lemma_square_positive(x);
    accuracy::lemma_order(0 as real, x * x, g);
}

proof fn lemma_square_positive(x: real)
    ensures
        x * x >= 0 as real,
{
    assert(x * x >= 0 as real) by (nonlinear_arith);
}

/// How long a vector is that goes along a direction.
proof fn lemma_length(v: Vector, d: real, x: real, y: real, z: real, m: real)
    requires
        along(v, d, x, y, z, m),
        unit(x, y, z),
        100 as real * d >= 1 as real,
        d <= 1000 as real,
        0 as real <= m,
        100 as real * m <= 1 as real,
    ensures
        ({
            let l = accuracy::exact(v.length());
            let k = 13 as real * m / 2 as real + 1 as real / 50_000 as real;
            &&& accuracy::positive(v.length())
            &&& accuracy::within(l, d, d * k)
            &&& k <= 66 as real / 1000 as real
        }),
{
    let (a, b, c) = (accuracy::exact(v.x), accuracy::exact(v.y), accuracy::exact(v.z));
    lemma_component(a, d, x, m);
    lemma_component(b, d, y, m);
    lemma_component(c, d, z, m);
    let g = d * d;
    let (p, q, r) = (x * x, y * y, z * z);
    let s = a * a + b * b + c * c;
    let w = 21 as real * m / 10 as real;
    assert(g * p + g * q + g * r == g * (p + q + r)) by (nonlinear_arith);
    accuracy::lemma_positive_product(d, d);
    let e = 1 as real / 100_000 as real;
    accuracy::lemma_order(p + q + r, 1 as real + e, g);
    accuracy::lemma_order(1 as real - e, p + q + r, g);
    let h = 3 as real * w + e;
    assert(g * (1 as real + e) + 3 as real * (g * w) == g * (1 as real + h) && g * (1 as real - e)
        - 3 as real * (g * w) == g * (1 as real - h)) by (nonlinear_arith)
        requires
            h == 3 as real * w + e,
    ;
    assert(accuracy::within(s, g, g * h)) by {
        assert(g * (1 as real + h) == g + g * h && g * (1 as real - h) == g - g * h)
            by (nonlinear_arith);
    }
    accuracy::lemma_order(h, 1 as real / 10 as real, g);
    accuracy::lemma_order(d, 1000 as real, d);
    accuracy::lemma_order(1 as real / 100 as real, d, d);
    accuracy::lemma_order(1 as real / 100 as real, d, 1 as real / 100 as real);
    lemma_square_positive(a);
    lemma_square_positive(b);
    lemma_square_positive(c);
    geometry::lemma_vector_length(v);
    let l = accuracy::exact(v.length());
    let k = 13 as real * m / 2 as real + 1 as real / 50_000 as real;
    // l l is g up to k.
    let f = 1 as real / 500_000 as real;
    accuracy::lemma_order(s, g * (1 as real + h), f);
    assert(accuracy::within(l * l, g, g * k)) by {
        assert(s * f == s / 500_000 as real && (g * (1 as real + h)) * f == (g + g * h)
            / 500_000 as real) by (nonlinear_arith)
            requires
                f == 1 as real / 500_000 as real,
        ;
        accuracy::lemma_order(
            h + (1 as real + h) / 500_000 as real,
            k,
            g,
        );
        assert(g * (h + (1 as real + h) / 500_000 as real) == g * h + (g + g * h) / 500_000 as real)
            by (nonlinear_arith);
    }
    accuracy::lemma_counts(v.length());
    lemma_root_of_square(l, d, k);
    accuracy::lemma_order(k, 1 as real / 10 as real, d);
    if v.length().bits == 0 {
        nucleation::lemma_zero_and_half();
        assert(v.length() == Scalar::of_bits(ZERO));
    }
}

/// A number whose square is near to a square.
proof fn lemma_root_of_square(l: real, d: real, k: real)
    requires
        l >= 0 as real,
        d > 0 as real,
        0 as real <= k,
        k <= 1 as real / 10 as real,
        accuracy::within(l * l, d * d, (d * d) * k),
    ensures
        accuracy::within(l, d, d * k),
{
    let (hi, lo) = (d + d * k, d - d * k);
    accuracy::lemma_order(0 as real, d, k);
    accuracy::lemma_order(k, 1 as real, d);
    let g = d * d;
    accuracy::lemma_positive_product(d, d);
    accuracy::lemma_order(0 as real, g, k);
    accuracy::lemma_order(0 as real, g * k, k);
    accuracy::lemma_order(k, 1 as real, g * k);
    assert(hi * hi == g + 2 as real * (g * k) + (g * k) * k && lo * lo == g - 2 as real * (g * k) + (g
        * k) * k) by (nonlinear_arith)
        requires
            hi == d + d * k,
            lo == d - d * k,
            g == d * d,
    ;
    if l > hi {
        torus::lemma_square_order(hi, l);
        lemma_strict(hi, l);
    }
    if l < lo {
        torus::lemma_square_order(l, lo);
        lemma_strict(l, lo);
    }
}

proof fn lemma_strict(x: real, y: real)
    requires
        0 as real <= x,
        x < y,
    ensures
        x * x < y * y,
{
    assert(x * x < y * y) by (nonlinear_arith)
        requires
            0 as real <= x,
            x < y,
    ;
}

/// A vector along a direction, over its length, is the direction.
proof fn lemma_normalized(v: Vector, d: real, x: real, y: real, z: real, m: real)
    requires
        along(v, d, x, y, z, m),
        unit(x, y, z),
        100 as real * d >= 1 as real,
        d <= 1000 as real,
        0 as real <= m,
        100 as real * m <= 1 as real,
    ensures
        ({
            let w = v.normalized();
            let n = 9 as real * m + 1 as real / 10_000 as real;
            &&& v.normalized_or_zero() == w
            &&& w.x.is_finite() && w.y.is_finite() && w.z.is_finite()
            &&& accuracy::within(accuracy::exact(w.x), x, n)
            &&& accuracy::within(accuracy::exact(w.y), y, n)
            &&& accuracy::within(accuracy::exact(w.z), z, n)
        }),
{
    lemma_length(v, d, x, y, z, m);
    let (one, l) = (Scalar::of_bits(ONE), v.length());
    nucleation::lemma_zero_and_half();
    let t = accuracy::exact(l);
    let k = 13 as real * m / 2 as real + 1 as real / 50_000 as real;
    accuracy::lemma_order(k, 66 as real / 1000 as real, d);
    accuracy::lemma_near_itself(1 as real);
    accuracy::lemma_near_itself(t);
    let r = 1 as real / t;
    accuracy::lemma_quotient_back(1 as real, t);
    assert(r <= 1000 as real && 2000 as real * r >= 1 as real) by (nonlinear_arith)
        requires
            r * t == 1 as real,
            1000 as real * t >= 9 as real,
            t <= 1100 as real,
            t > 0 as real,
    ;
    accuracy::lemma_order(2000 as real, accuracy::wide(), r);
    accuracy::lemma_over_of(one, 1 as real, 0, l, t, 0);
    let recip = one.over(l);
    accuracy::lemma_positive(recip);
    nucleation::lemma_compares(Scalar::of_bits(ZERO), recip);
    let u = accuracy::exact(recip);
    accuracy::lemma_near_within(u, r, 3);
    geometry::lemma_share(r);
    lemma_scaled(v.x, recip, d, t, x, m);
    lemma_scaled(v.y, recip, d, t, y, m);
    lemma_scaled(v.z, recip, d, t, z, m);
}

/// A component of a vector over its length.
proof fn lemma_scaled(v: Scalar, recip: Scalar, d: real, t: real, x: real, m: real)
    requires
        geometry::tame(v),
        accuracy::positive(recip),
        accuracy::near(accuracy::exact(recip), 1 as real / t, 3),
        accuracy::exact(recip) <= 2000 as real,
        100 as real * d >= 1 as real,
        d <= 1000 as real,
        t > 0 as real,
        0 as real <= m,
        100 as real * m <= 1 as real,
        torus::size(x) <= 1001 as real / 1000 as real,
        accuracy::within(accuracy::exact(v), d * x, d * m),
        accuracy::within(t, d, d * (13 as real * m / 2 as real + 1 as real / 50_000 as real)),
    ensures
        v.times(recip).is_finite(),
        accuracy::within(
            accuracy::exact(v.times(recip)),
            x,
            9 as real * m + 1 as real / 10_000 as real,
        ),
{
    let k = 13 as real * m / 2 as real + 1 as real / 50_000 as real;
    let (a, u) = (accuracy::exact(v), accuracy::exact(recip));
    accuracy::lemma_positive(recip);
    geometry::lemma_unit();
    geometry::lemma_product(v, recip);
    // d u is one up to 1.08 k.
    let c = d * u;
    accuracy::lemma_near_within(u, 1 as real / t, 3);
    accuracy::lemma_quotient_back(1 as real, t);
    let r = 1 as real / t;
    geometry::lemma_share(r);
    let g = d * r;
    assert(accuracy::within(g, 1 as real, 108 as real * k / 100 as real)) by {
        assert(g * t == d) by (nonlinear_arith)
            requires
                g == d * r,
                r * t == 1 as real,
        ;
        assert(g * (1 as real - k) <= 1 as real && g * (1 as real + k) >= 1 as real)
            by (nonlinear_arith)
            requires
                g * t == d,
                t >= d - d * k,
                t <= d + d * k,
                d > 0 as real,
                t > 0 as real,
                g > 0 as real || g <= 0 as real,
                k <= 1 as real / 10 as real,
                k >= 0 as real,
        ;
        assert(g <= 1 as real + 108 as real * k / 100 as real && g >= 1 as real - 108 as real * k
            / 100 as real) by (nonlinear_arith)
            requires
                g * (1 as real - k) <= 1 as real,
                g * (1 as real + k) >= 1 as real,
                0 as real <= k,
                1000 as real * k <= 66 as real,
        ;
    }
    accuracy::lemma_order(u, r + r / 2_000_000 as real, d);
    accuracy::lemma_order(r - r / 2_000_000 as real, u, d);
    assert(d * (r + r / 2_000_000 as real) == g + g / 2_000_000 as real && d * (r - r
        / 2_000_000 as real) == g - g / 2_000_000 as real) by (nonlinear_arith)
        requires
            g == d * r,
    ;
    let n = 108 as real * k / 100 as real + 1 as real / 1_000_000 as real;
    assert(accuracy::within(c, 1 as real, n));
    // a u is x d u, up to m d u.
    accuracy::lemma_order(a, d * x + d * m, u);
    accuracy::lemma_order(d * x - d * m, a, u);
    assert(u * (d * x + d * m) == c * x + c * m && u * (d * x - d * m) == c * x - c * m && a * u == u
        * a) by (nonlinear_arith)
        requires
            c == d * u,
    ;
    accuracy::lemma_order(c, 108 as real / 100 as real, m);
    let f = c - 1 as real;
    assert(c * x == x + f * x) by (nonlinear_arith)
        requires
            f == c - 1 as real,
    ;
    signed::lemma_size_product(f, x);
    accuracy::lemma_order(torus::size(f), n, torus::size(x));
    accuracy::lemma_order(torus::size(x), 1001 as real / 1000 as real, n);
    signed::lemma_size_product(a, u);
    assert(torus::size(a) * torus::size(u) <= 2 as real);
}

/// The camera looks from the eye back along its angles: against the direction in which the eye
/// lies from the target.
pub proof fn law_camera_looks_at_its_target(camera: OrbitCamera, a: Angles)
    requires
        accuracy::positive(camera.distance),
        100 as real * accuracy::exact(camera.distance) >= 1 as real,
        accuracy::exact(camera.distance) <= 1000 as real,
        of_one_angle(a.sin_yaw, a.cos_yaw),
        of_one_angle(a.sin_pitch, a.cos_pitch),
    ensures
        ({
            let f = camera.forward(a);
            let (sy, cy, sp, cp) = (
                accuracy::exact(a.sin_yaw),
                accuracy::exact(a.cos_yaw),
                accuracy::exact(a.sin_pitch),
                accuracy::exact(a.cos_pitch),
            );
            let m = 11 as real / 100_000 as real;
            &&& accuracy::within(accuracy::exact(f.x), -(cp * sy), m)
            &&& accuracy::within(accuracy::exact(f.y), -sp, m)
            &&& accuracy::within(accuracy::exact(f.z), -(cp * cy), m)
        }),
{
    let d = accuracy::exact(camera.distance);
    let (sy, cy, sp, cp) = (
        accuracy::exact(a.sin_yaw),
        accuracy::exact(a.cos_yaw),
        accuracy::exact(a.sin_pitch),
        accuracy::exact(a.cos_pitch),
    );
    accuracy::lemma_positive(camera.distance);
    let m = 1 as real / 1_000_000 as real;
    lemma_offset(a.cos_pitch.times(a.sin_yaw), cp * sy, camera.distance, a.cos_pitch, a.sin_yaw);
    lemma_offset(a.cos_pitch.times(a.cos_yaw), cp * cy, camera.distance, a.cos_pitch, a.cos_yaw);
    lemma_lift(a.sin_pitch, camera.distance);
    let v = camera.offset_spec(a);
    lemma_unit_direction(sy, cy, sp, cp);
    lemma_normalized(v, d, cp * sy, sp, cp * cy, m);
    let w = v.normalized();
    signed::lemma_finite(w.x);
    signed::lemma_finite(w.y);
    signed::lemma_finite(w.z);
}

/// The direction of two angles has unit length.
proof fn lemma_unit_direction(sy: real, cy: real, sp: real, cp: real)
    requires
        torus::size(sy) <= 1 as real,
        torus::size(cy) <= 1 as real,
        torus::size(sp) <= 1 as real,
        torus::size(cp) <= 1 as real,
        accuracy::within(sy * sy + cy * cy, 1 as real, 1 as real / 1_000_000 as real),
        accuracy::within(sp * sp + cp * cp, 1 as real, 1 as real / 1_000_000 as real),
    ensures
        unit(cp * sy, sp, cp * cy),
{
    signed::lemma_size_product(cp, sy);
    signed::lemma_size_product(cp, cy);
    accuracy::lemma_order(torus::size(cp), 1 as real, torus::size(sy));
    accuracy::lemma_order(torus::size(cp), 1 as real, torus::size(cy));
    let (c, y) = (cp * cp, sy * sy + cy * cy);
    lemma_square_positive(cp);
    lemma_square_positive(sp);
    assert((cp * sy) * (cp * sy) + (cp * cy) * (cp * cy) == c * y) by (nonlinear_arith)
        requires
            c == cp * cp,
            y == sy * sy + cy * cy,
    ;
    let e = 1 as real / 1_000_000 as real;
    accuracy::lemma_order(y, 1 as real + e, c);
    accuracy::lemma_order(1 as real - e, y, c);
    assert(c * (1 as real + e) == c + c / 1_000_000 as real && c * (1 as real - e) == c - c
        / 1_000_000 as real) by (nonlinear_arith)
        requires
            e == 1 as real / 1_000_000 as real,
    ;
}

/// A horizontal component of the way from the target to the eye.
proof fn lemma_offset(u: Scalar, x: real, distance: Scalar, a: Scalar, b: Scalar)
    requires
        geometry::within_one(a),
        geometry::within_one(b),
        u == a.times(b),
        x == accuracy::exact(a) * accuracy::exact(b),
        accuracy::positive(distance),
        100 as real * accuracy::exact(distance) >= 1 as real,
        accuracy::exact(distance) <= 1000 as real,
    ensures
        ({
            let d = accuracy::exact(distance);
            &&& geometry::tame(u.times(distance))
            &&& accuracy::within(
                accuracy::exact(u.times(distance)),
                d * x,
                d * (1 as real / 1_000_000 as real),
            )
        }),
{
    geometry::lemma_direction(a, b);
    lemma_times_distance(u, x, distance);
}

/// The vertical component of the way from the target to the eye.
proof fn lemma_lift(u: Scalar, distance: Scalar)
    requires
        geometry::within_one(u),
        accuracy::positive(distance),
        100 as real * accuracy::exact(distance) >= 1 as real,
        accuracy::exact(distance) <= 1000 as real,
    ensures
        ({
            let d = accuracy::exact(distance);
            &&& geometry::tame(u.times(distance))
            &&& accuracy::within(
                accuracy::exact(u.times(distance)),
                d * accuracy::exact(u),
                d * (1 as real / 1_000_000 as real),
            )
        }),
{
    lemma_times_distance(u, accuracy::exact(u), distance);
}

proof fn lemma_times_distance(u: Scalar, x: real, distance: Scalar)
    requires
        u.is_finite(),
        torus::size(x) <= 1 as real,
        accuracy::within(accuracy::exact(u), x, 1 as real / 7_000_000 as real),
        accuracy::positive(distance),
        100 as real * accuracy::exact(distance) >= 1 as real,
        accuracy::exact(distance) <= 1000 as real,
    ensures
        ({
            let d = accuracy::exact(distance);
            &&& geometry::tame(u.times(distance))
            &&& accuracy::within(
                accuracy::exact(u.times(distance)),
                d * x,
                d * (1 as real / 1_000_000 as real),
            )
        }),
{
    accuracy::lemma_positive(distance);
    geometry::lemma_unit();
    let (y, d) = (accuracy::exact(u), accuracy::exact(distance));
    geometry::lemma_product(u, distance);
    let e = 1 as real / 7_000_000 as real;
    accuracy::lemma_order(y, x + e, d);
    accuracy::lemma_order(x - e, y, d);
    assert(d * (x + e) == d * x + d / 7_000_000 as real && d * (x - e) == d * x - d
        / 7_000_000 as real && y * d == d * y) by (nonlinear_arith)
        requires
            e == 1 as real / 7_000_000 as real,
    ;
    accuracy::lemma_order(torus::size(y), 2 as real, d);
    assert(d * (1 as real / 1_000_000 as real) == d / 1_000_000 as real);
    signed::lemma_size_product(d, x);
    accuracy::lemma_order(torus::size(x), 1 as real, d);
}

/// A product of what is close to two shares.
proof fn lemma_close_product(a: Scalar, x: real, b: Scalar, y: real, e: real)
    requires
        a.is_finite(),
        b.is_finite(),
        torus::size(x) <= 1 as real,
        torus::size(y) <= 1 as real,
        0 as real <= e,
        100 as real * e <= 1 as real,
        accuracy::within(accuracy::exact(a), x, e),
        accuracy::within(accuracy::exact(b), y, e),
    ensures
        a.times(b).is_finite(),
        torus::size(accuracy::exact(a.times(b))) <= 2 as real,
        accuracy::within(
            accuracy::exact(a.times(b)),
            x * y,
            202 as real * e / 100 as real + 1 as real / 1_000_000 as real,
        ),
{
    geometry::lemma_unit();
    geometry::lemma_product(a, b);
    let (p, q) = (accuracy::exact(a), accuracy::exact(b));
    let (f, g) = (p - x, q - y);
    assert(p * q == x * y + x * g + f * q) by (nonlinear_arith)
        requires
            f == p - x,
            g == q - y,
    ;
    signed::lemma_size_product(x, g);
    signed::lemma_size_product(f, q);
    signed::lemma_size_product(x, y);
    accuracy::lemma_order(torus::size(x), 1 as real, torus::size(g));
    accuracy::lemma_order(torus::size(f), e, torus::size(q));
    accuracy::lemma_order(torus::size(q), 101 as real / 100 as real, e);
    accuracy::lemma_order(torus::size(x), 1 as real, torus::size(y));
    accuracy::lemma_order(torus::size(p), 101 as real / 100 as real, torus::size(q));
}

/// A difference of what is close to two numbers.
proof fn lemma_close_difference(a: Scalar, x: real, b: Scalar, y: real, e: real)
    requires
        a.is_finite(),
        b.is_finite(),
        torus::size(accuracy::exact(a)) <= 2 as real,
        torus::size(accuracy::exact(b)) <= 2 as real,
        accuracy::within(accuracy::exact(a), x, e),
        accuracy::within(accuracy::exact(b), y, e),
    ensures
        geometry::tame(a.minus(b)),
        accuracy::within(
            accuracy::exact(a.minus(b)),
            x - y,
            2 as real * e + 1 as real / 1_000_000 as real,
        ),
{
    geometry::lemma_difference(a, b);
}

/// To the right of the view is level, a quarter turn from where the camera looks: the cosine of
/// the yaw along x and minus its sine along z.
pub proof fn law_right_of_the_view_is_level(camera: OrbitCamera, a: Angles)
    requires
        accuracy::positive(camera.distance),
        100 as real * accuracy::exact(camera.distance) >= 1 as real,
        accuracy::exact(camera.distance) <= 1000 as real,
        of_one_angle(a.sin_yaw, a.cos_yaw),
        of_one_angle(a.sin_pitch, a.cos_pitch),
        50 as real * accuracy::exact(a.cos_pitch) >= 1 as real,
    ensures
        ({
            let r = camera.right(a);
            let m = (12 as real / 10_000 as real) / accuracy::exact(a.cos_pitch);
            &&& r.x.is_finite() && r.y.is_finite() && r.z.is_finite()
            &&& accuracy::within(accuracy::exact(r.x), accuracy::exact(a.cos_yaw), m)
            &&& accuracy::within(accuracy::exact(r.y), 0 as real, m)
            &&& accuracy::within(accuracy::exact(r.z), -accuracy::exact(a.sin_yaw), m)
        }),
{
    law_camera_looks_at_its_target(camera, a);
    lemma_forward_is_finite(camera, a);
    nucleation::lemma_zero_and_half();
    geometry::lemma_unit();
    let (sy, cy, sp, cp) = (
        accuracy::exact(a.sin_yaw),
        accuracy::exact(a.cos_yaw),
        accuracy::exact(a.sin_pitch),
        accuracy::exact(a.cos_pitch),
    );
    let f = camera.forward(a);
    let (zero, one) = (Scalar::of_bits(ZERO), Scalar::of_bits(ONE));
    let v = f.cross(Vector::upward());
    signed::lemma_size_product(cp, sy);
    signed::lemma_size_product(cp, cy);
    accuracy::lemma_order(torus::size(sy), 1 as real, torus::size(cp));
    accuracy::lemma_order(torus::size(cy), 1 as real, torus::size(cp));
    lemma_by_nothing(f.y);
    lemma_by_nothing(f.z);
    lemma_by_nothing(f.x);
    lemma_by_one(f.z);
    lemma_by_one(f.x);
    let e = 12 as real / 100_000 as real;
    let t = 115 as real / 1_000_000 as real;
    geometry::lemma_difference(f.y.times(zero), one.times(f.z));
    geometry::lemma_difference(f.z.times(zero), zero.times(f.x));
    geometry::lemma_difference(f.x.times(one), zero.times(f.y));
    let m = e / cp;
    accuracy::lemma_quotient_back(e, cp);
    assert(cp * m == e) by (nonlinear_arith)
        requires
            m * cp == e,
    ;
    assert(100 as real * m <= 1 as real) by (nonlinear_arith)
        requires
            m * cp == e,
            50 as real * cp >= 1 as real,
            e == 12 as real / 100_000 as real,
    ;
    assert(cp * 0 as real == 0 as real);
    assert(cp * (-sy) == -(cp * sy)) by (nonlinear_arith);
    assert(along(v, cp, cy, 0 as real, -sy, m));
    assert((-sy) * (-sy) == sy * sy) by (nonlinear_arith);
    assert(unit(cy, 0 as real, -sy));
    lemma_normalized(v, cp, cy, 0 as real, -sy, m);
    let g = 12 as real / 10_000 as real;
    accuracy::lemma_quotient_back(g, cp);
    assert(9 as real * m + 1 as real / 10_000 as real <= g / cp) by {
        let w = g / cp;
        assert(w == 10 as real * m) by (nonlinear_arith)
            requires
                w * cp == g,
                m * cp == e,
                g == 10 as real * e,
                cp > 0 as real,
        ;
        assert(m >= e) by (nonlinear_arith)
            requires
                m * cp == e,
                cp <= 1 as real,
                cp > 0 as real,
                e > 0 as real,
        ;
    }
}

/// Where the camera looks is finite.
proof fn lemma_forward_is_finite(camera: OrbitCamera, a: Angles)
    requires
        accuracy::positive(camera.distance),
        100 as real * accuracy::exact(camera.distance) >= 1 as real,
        accuracy::exact(camera.distance) <= 1000 as real,
        of_one_angle(a.sin_yaw, a.cos_yaw),
        of_one_angle(a.sin_pitch, a.cos_pitch),
    ensures
        ({
            let f = camera.forward(a);
            f.x.is_finite() && f.y.is_finite() && f.z.is_finite()
        }),
{
    let d = accuracy::exact(camera.distance);
    let (sy, cy, sp, cp) = (
        accuracy::exact(a.sin_yaw),
        accuracy::exact(a.cos_yaw),
        accuracy::exact(a.sin_pitch),
        accuracy::exact(a.cos_pitch),
    );
    let m = 1 as real / 1_000_000 as real;
    lemma_offset(a.cos_pitch.times(a.sin_yaw), cp * sy, camera.distance, a.cos_pitch, a.sin_yaw);
    lemma_offset(a.cos_pitch.times(a.cos_yaw), cp * cy, camera.distance, a.cos_pitch, a.cos_yaw);
    lemma_lift(a.sin_pitch, camera.distance);
    let v = camera.offset_spec(a);
    lemma_unit_direction(sy, cy, sp, cp);
    lemma_normalized(v, d, cp * sy, sp, cp * cy, m);
    let w = v.normalized();
    signed::lemma_finite(w.x);
    signed::lemma_finite(w.y);
    signed::lemma_finite(w.z);
}

/// A number times nothing.
proof fn lemma_by_nothing(a: Scalar)
    requires
        a.is_finite(),
        torus::size(accuracy::exact(a)) <= 2 as real,
    ensures
        ({
            let z = Scalar::of_bits(ZERO);
            let m = 1 as real / 1_000_000_000 as real;
            &&& a.times(z).is_finite() && z.times(a).is_finite()
            &&& accuracy::within(accuracy::exact(a.times(z)), 0 as real, m)
            &&& accuracy::within(accuracy::exact(z.times(a)), 0 as real, m)
        }),
{
    let z = Scalar::of_bits(ZERO);
    nucleation::lemma_zero_and_half();
    geometry::lemma_unit();
    geometry::lemma_product(a, z);
    geometry::lemma_product(z, a);
    let x = accuracy::exact(a);
    assert(x * 0 as real == 0 as real && 0 as real * x == 0 as real);
    assert(torus::size(x) * 0 as real == 0 as real && 0 as real * torus::size(x) == 0 as real);
}

/// A number times one.
proof fn lemma_by_one(a: Scalar)
    requires
        a.is_finite(),
        torus::size(accuracy::exact(a)) <= 2 as real,
    ensures
        ({
            let o = Scalar::of_bits(ONE);
            let m = 1 as real / 1_000_000 as real;
            &&& a.times(o).is_finite() && o.times(a).is_finite()
            &&& accuracy::within(accuracy::exact(a.times(o)), accuracy::exact(a), m)
            &&& accuracy::within(accuracy::exact(o.times(a)), accuracy::exact(a), m)
        }),
{
    let o = Scalar::of_bits(ONE);
    nucleation::lemma_zero_and_half();
    geometry::lemma_unit();
    geometry::lemma_product(a, o);
    geometry::lemma_product(o, a);
    let x = accuracy::exact(a);
    assert(x * 1 as real == x && 1 as real * x == x);
    assert(torus::size(x) * 1 as real == torus::size(x) && 1 as real * torus::size(x)
        == torus::size(x));
}

/// The top of the view is upright: at right angles to where the camera looks, and never pointing
/// down.  Stated where the camera does not look steeply up or down.
pub proof fn law_top_of_the_view_is_upright(camera: OrbitCamera, a: Angles)
    requires
        accuracy::positive(camera.distance),
        100 as real * accuracy::exact(camera.distance) >= 1 as real,
        accuracy::exact(camera.distance) <= 1000 as real,
        of_one_angle(a.sin_yaw, a.cos_yaw),
        of_one_angle(a.sin_pitch, a.cos_pitch),
        10 as real * accuracy::exact(a.cos_pitch) >= 8 as real,
    ensures
        ({
            let u = camera.up(a);
            let (sy, cy, sp, cp) = (
                accuracy::exact(a.sin_yaw),
                accuracy::exact(a.cos_yaw),
                accuracy::exact(a.sin_pitch),
                accuracy::exact(a.cos_pitch),
            );
            let m = 8 as real / 100 as real;
            &&& accuracy::within(accuracy::exact(u.x), -(sp * sy), m)
            &&& accuracy::within(accuracy::exact(u.y), cp, m)
            &&& accuracy::within(accuracy::exact(u.z), -(sp * cy), m)
        }),
{
    law_camera_looks_at_its_target(camera, a);
    lemma_forward_is_finite(camera, a);
    law_right_of_the_view_is_level(camera, a);
    let (sy, cy, sp, cp) = (
        accuracy::exact(a.sin_yaw),
        accuracy::exact(a.cos_yaw),
        accuracy::exact(a.sin_pitch),
        accuracy::exact(a.cos_pitch),
    );
    let (r, f) = (camera.right(a), camera.forward(a));
    let g = 12 as real / 10_000 as real;
    accuracy::lemma_quotient_back(g, cp);
    let e = 15 as real / 10_000 as real;
    assert(g / cp <= e) by {
        let w = g / cp;
        assert(w <= e) by (nonlinear_arith)
            requires
                w * cp == g,
                10 as real * cp >= 8 as real,
                g == 12 as real / 10_000 as real,
                e == 15 as real / 10_000 as real,
        ;
    }
    signed::lemma_size_product(cp, sy);
    signed::lemma_size_product(cp, cy);
    accuracy::lemma_order(torus::size(sy), 1 as real, torus::size(cp));
    accuracy::lemma_order(torus::size(cy), 1 as real, torus::size(cp));
    let (fx, fz) = (-(cp * sy), -(cp * cy));
    lemma_close_product(r.y, 0 as real, f.z, fz, e);
    lemma_close_product(f.y, -sp, r.z, -sy, e);
    lemma_close_product(r.z, -sy, f.x, fx, e);
    lemma_close_product(f.z, fz, r.x, cy, e);
    lemma_close_product(r.x, cy, f.y, -sp, e);
    lemma_close_product(f.x, fx, r.y, 0 as real, e);
    let k = 202 as real * e / 100 as real + 1 as real / 1_000_000 as real;
    lemma_close_difference(r.y.times(f.z), 0 as real * fz, f.y.times(r.z), (-sp) * (-sy), k);
    lemma_close_difference(r.z.times(f.x), (-sy) * fx, f.z.times(r.x), fz * cy, k);
    lemma_close_difference(r.x.times(f.y), cy * (-sp), f.x.times(r.y), fx * 0 as real, k);
    let v = r.cross(f);
    let m = 8 as real / 1000 as real;
    assert(0 as real * fz == 0 as real && fx * 0 as real == 0 as real);
    assert((-sp) * (-sy) == sp * sy && cy * (-sp) == -(sp * cy)) by (nonlinear_arith);
    let y = sy * sy + cy * cy;
    assert((-sy) * fx - fz * cy == cp * y) by (nonlinear_arith)
        requires
            fx == -(cp * sy),
            fz == -(cp * cy),
            y == sy * sy + cy * cy,
    ;
    let d = 1 as real / 1_000_000 as real;
    accuracy::lemma_order(y, 1 as real + d, cp);
    accuracy::lemma_order(1 as real - d, y, cp);
    assert(cp * (1 as real + d) == cp + cp / 1_000_000 as real && cp * (1 as real - d) == cp - cp
        / 1_000_000 as real) by (nonlinear_arith)
        requires
            d == 1 as real / 1_000_000 as real,
    ;
    assert(along(v, 1 as real, -(sp * sy), cp, -(sp * cy), m));
    assert(unit(-(sp * sy), cp, -(sp * cy))) by {
        assert(cp * cp + sp * sp == sp * sp + cp * cp);
        lemma_unit_direction(sy, cy, cp, sp);
        let (p, q) = (sp * sy, sp * cy);
        assert((-p) * (-p) == p * p && (-q) * (-q) == q * q) by (nonlinear_arith);
    }
    lemma_normalized(v, 1 as real, -(sp * sy), cp, -(sp * cy), m);
}

/// How far the target slides along one axis: against the cursor to the right and with it up the
/// view, nine tenths of the distance for the height of the window.
pub proof fn law_sliding_goes_along_the_screen(
    camera: OrbitCamera,
    a: Angles,
    dx: Scalar,
    dy: Scalar,
)
    requires
        slides(camera.target.x, camera.right(a).x, camera.up(a).x, dx, dy, camera.distance),
        slides(camera.target.y, camera.right(a).y, camera.up(a).y, dx, dy, camera.distance),
        slides(camera.target.z, camera.right(a).z, camera.up(a).z, dx, dy, camera.distance),
    ensures
        ({
            let c = camera.panned(a, dx, dy);
            let (r, u, d) = (camera.right(a), camera.up(a), accuracy::exact(camera.distance));
            &&& slid(c.target.x, camera.target.x, r.x, u.x, dx, dy, d)
            &&& slid(c.target.y, camera.target.y, r.y, u.y, dx, dy, d)
            &&& slid(c.target.z, camera.target.z, r.z, u.z, dx, dy, d)
        }),
{
    let (r, u) = (camera.right(a), camera.up(a));
    lemma_slides(camera.target.x, r.x, u.x, dx, dy, camera.distance);
    lemma_slides(camera.target.y, r.y, u.y, dx, dy, camera.distance);
    lemma_slides(camera.target.z, r.z, u.z, dx, dy, camera.distance);
}

/// Whether the numbers of a slide along one axis are of moderate size.
pub open spec fn slides(
    from: Scalar,
    right: Scalar,
    up: Scalar,
    dx: Scalar,
    dy: Scalar,
    distance: Scalar,
) -> bool {
    &&& from.is_finite() && torus::size(accuracy::exact(from)) <= 1000 as real
    &&& right.is_finite() && torus::size(accuracy::exact(right)) <= 2 as real
    &&& up.is_finite() && torus::size(accuracy::exact(up)) <= 2 as real
    &&& dx.is_finite() && torus::size(accuracy::exact(dx)) <= 10 as real
    &&& dy.is_finite() && torus::size(accuracy::exact(dy)) <= 10 as real
    &&& accuracy::counts(distance) && accuracy::exact(distance) <= 1000 as real
}

/// Whether a coordinate of the target has slid as it should, to a part in ten thousand of the
/// distance.
pub open spec fn slid(
    x: Scalar,
    from: Scalar,
    right: Scalar,
    up: Scalar,
    dx: Scalar,
    dy: Scalar,
    d: real,
) -> bool {
    let k = 9 as real * d / 10 as real;
    accuracy::within(
        accuracy::exact(x),
        accuracy::exact(from) - accuracy::exact(right) * (accuracy::exact(dx) * k) + accuracy::exact(
            up,
        ) * (accuracy::exact(dy) * k),
        (torus::size(accuracy::exact(from)) + d + 1 as real) / 10_000 as real,
    )
}

/// A direction times a drag times the scale of a slide.
proof fn lemma_slide_term(u: Scalar, t: Scalar, scale: Scalar, d: real)
    requires
        u.is_finite(),
        torus::size(accuracy::exact(u)) <= 2 as real,
        t.is_finite(),
        torus::size(accuracy::exact(t)) <= 10 as real,
        scale.is_finite(),
        0 as real <= d,
        d <= 1000 as real,
        accuracy::within(
            accuracy::exact(scale),
            9 as real * d / 10 as real,
            (d + 1 as real) / 2_000_000 as real,
        ),
    ensures
        ({
            let p = u.times(t.times(scale));
            let k = 9 as real * d / 10 as real;
            &&& p.is_finite()
            &&& accuracy::within(
                accuracy::exact(p),
                accuracy::exact(u) * (accuracy::exact(t) * k),
                (d + 1 as real) / 50_000 as real,
            )
            &&& torus::size(accuracy::exact(p)) <= 100_000 as real
        }),
{
    let k = 9 as real * d / 10 as real;
    let w = d + 1 as real;
    lemma_weighed(t, 10 as real, scale, k, w / 2_000_000 as real, w);
    let q = t.times(scale);
    let m = 10 as real * (w / 2_000_000 as real) + 10 as real * w / 7_000_000 as real;
    let y = accuracy::exact(t) * k;
    lemma_weighed(u, 2 as real, q, y, m, 10 as real * w);
}

/// A product with a factor that is known up to a margin `e`, both of bounded size.
proof fn lemma_weighed(a: Scalar, b: real, s: Scalar, k: real, e: real, w: real)
    requires
        a.is_finite(),
        torus::size(accuracy::exact(a)) <= b,
        1 as real <= b,
        b <= 10 as real,
        s.is_finite(),
        accuracy::within(accuracy::exact(s), k, e),
        0 as real <= e,
        100_000 as real * e <= w,
        torus::size(k) <= w,
        1 as real <= w,
        w <= 20_000 as real,
    ensures
        ({
            let p = a.times(s);
            let t = accuracy::exact(a) * k;
            &&& p.is_finite()
            &&& accuracy::within(accuracy::exact(p), t, b * e + b * w / 7_000_000 as real)
            &&& torus::size(t) <= b * w
            &&& torus::size(accuracy::exact(p)) <= 2 as real * (b * w)
        }),
{
    geometry::lemma_unit();
    let (x, y) = (accuracy::exact(a), accuracy::exact(s));
    let (u, v) = (torus::size(x), torus::size(y));
    geometry::lemma_product(a, s);
    let f = y - k;
    assert(x * y == x * k + x * f) by (nonlinear_arith)
        requires
            f == y - k,
    ;
    signed::lemma_size_product(x, f);
    signed::lemma_size_product(x, k);
    let g = torus::size(f);
    accuracy::lemma_order(u, b, g);
    accuracy::lemma_order(g, e, b);
    accuracy::lemma_order(u, b, torus::size(k));
    accuracy::lemma_order(torus::size(k), w, b);
    accuracy::lemma_order(u, b, v);
    accuracy::lemma_order(v, w + w / 100_000 as real, b);
    accuracy::lemma_order(1 as real, b, w);
    let c = b * w;
    assert(b * (w + w / 100_000 as real) == c + c / 100_000 as real) by (nonlinear_arith)
        requires
            c == b * w,
    ;
    accuracy::lemma_order(e, w / 100_000 as real, b);
    assert(b * (w / 100_000 as real) == c / 100_000 as real) by (nonlinear_arith)
        requires
            c == b * w,
    ;
}

proof fn lemma_slides(
    from: Scalar,
    right: Scalar,
    up: Scalar,
    dx: Scalar,
    dy: Scalar,
    distance: Scalar,
)
    requires
        slides(from, right, up, dx, dy, distance),
    ensures
        ({
            let scale = distance.times(Scalar::of_bits(camera::PAN_RATE));
            slid(
                from.plus(
                    right.times(dx.negated().times(scale)).plus(up.times(dy.times(scale))),
                ),
                from,
                right,
                up,
                dx,
                dy,
                accuracy::exact(distance),
            )
        }),
{
    geometry::lemma_unit();
    geometry::lemma_camera_constants();
    let rate = Scalar::of_bits(camera::PAN_RATE);
    accuracy::lemma_positive(rate);
    accuracy::lemma_counts(distance);
    let (d, g) = (accuracy::exact(distance), accuracy::exact(rate));
    geometry::lemma_product(distance, rate);
    let scale = distance.times(rate);
    let c = 9 as real / 10 as real;
    accuracy::lemma_order(g, c + 1 as real / 10_000_000 as real, d);
    accuracy::lemma_order(c - 1 as real / 10_000_000 as real, g, d);
    assert(d * (c + 1 as real / 10_000_000 as real) == 9 as real * d / 10 as real + d
        / 10_000_000 as real && d * (c - 1 as real / 10_000_000 as real) == 9 as real * d
        / 10 as real - d / 10_000_000 as real) by (nonlinear_arith)
        requires
            c == 9 as real / 10 as real,
    ;
    signed::lemma_finite(dx);
    lemma_slide_term(right, dx.negated(), scale, d);
    lemma_slide_term(up, dy, scale, d);
    let (p, q) = (right.times(dx.negated().times(scale)), up.times(dy.times(scale)));
    geometry::lemma_sum(p, q);
    geometry::lemma_sum(from, p.plus(q));
    let k = 9 as real * d / 10 as real;
    let (x, r) = (accuracy::exact(dx), accuracy::exact(right));
    assert(r * ((-x) * k) == -(r * (x * k))) by (nonlinear_arith);
    // Sizes of the terms, for the rounding of the sums.
    let (y, u) = (accuracy::exact(dy), accuracy::exact(up));
    signed::lemma_size_product(x, k);
    signed::lemma_size_product(r, x * k);
    signed::lemma_size_product(y, k);
    signed::lemma_size_product(u, y * k);
    accuracy::lemma_order(torus::size(x), 10 as real, k);
    accuracy::lemma_order(torus::size(y), 10 as real, k);
    accuracy::lemma_order(torus::size(r), 2 as real, torus::size(x * k));
    accuracy::lemma_order(torus::size(u), 2 as real, torus::size(y * k));
}

} // verus!
