//! The camera and the box that it looks at, as numbers.

use vstd::arithmetic::power2::*;
use vstd::prelude::*;

use crate::accuracy;
use crate::camera;
use crate::camera::{Angles, OrbitCamera, Vector};
use crate::gpu::render;
use crate::gpu::render::{FieldMode, RenderSettings, VolumeRenderer};
use crate::nucleation;
use crate::rounding;
use crate::scalar;
use crate::scalar::{Scalar, HALF, ONE, ZERO};
use crate::signed;
use crate::torus;

verus! {

/// Whether a number is finite and of at most a million.
pub open spec fn tame(x: Scalar) -> bool {
    &&& x.is_finite()
    &&& torus::size(accuracy::exact(x)) <= 1_000_000 as real
}

/// A step is a small share.
pub proof fn lemma_share(x: real)
    ensures
        0x80_0000 as real * (accuracy::step() * x) == x,
{
    accuracy::lemma_step();
    let e = accuracy::step();
    assert(0x80_0000 as real * (e * x) == x) by (nonlinear_arith)
        requires
            0x80_0000 as real * e == 1 as real,
    ;
}

/// The smallest number is tiny, and there is room for large ones.
pub proof fn lemma_unit()
    ensures
        1_000_000_000_000_000_000 as real * accuracy::unit() <= 1 as real,
        accuracy::unit() > 0 as real,
        accuracy::far() >= 1_000_000_000_000_000_000 as real,
{
    lemma2_to64();
    lemma_pow2_strictly_increases(64, 149);
    lemma_pow2_strictly_increases(64, 100);
    let (z, u) = (scalar::one_units() as real, accuracy::unit());
    accuracy::lemma_quotient_back(1 as real, z);
    assert(1_000_000_000_000_000_000 as real * u <= 1 as real) by (nonlinear_arith)
        requires
            u * z == 1 as real,
            z >= 1_000_000_000_000_000_000 as real,
            u > 0 as real,
    ;
}

/// A product of tame numbers.
pub proof fn lemma_product(a: Scalar, b: Scalar)
    requires
        tame(a),
        tame(b),
    ensures
        a.times(b).is_finite(),
        ({
            let t = accuracy::exact(a) * accuracy::exact(b);
            let s = torus::size(accuracy::exact(a)) * torus::size(accuracy::exact(b));
            &&& torus::size(t) == s
            &&& accuracy::within(
                accuracy::exact(a.times(b)),
                t,
                s / 8_000_000 as real + accuracy::unit(),
            )
        }),
{
    lemma_unit();
    let (x, y) = (torus::size(accuracy::exact(a)), torus::size(accuracy::exact(b)));
    accuracy::lemma_order(x, 1_000_000 as real, y);
    signed::lemma_product_finite(a, b);
    signed::lemma_product(a, b);
    signed::lemma_size_product(accuracy::exact(a), accuracy::exact(b));
    lemma_share(x * y);
    accuracy::lemma_order(0 as real, x, y);
}

/// A sum of numbers that are not too large.
pub proof fn lemma_sum(a: Scalar, b: Scalar)
    requires
        a.is_finite(),
        b.is_finite(),
        torus::size(accuracy::exact(a)) <= 1_000_000_000 as real,
        torus::size(accuracy::exact(b)) <= 1_000_000_000 as real,
    ensures
        a.plus(b).is_finite(),
        ({
            let t = accuracy::exact(a) + accuracy::exact(b);
            accuracy::within(accuracy::exact(a.plus(b)), t, torus::size(t) / 8_000_000 as real)
        }),
{
    signed::lemma_sum_finite(a, b);
    signed::lemma_sum(a, b);
    lemma_share(torus::size(accuracy::exact(a) + accuracy::exact(b)));
}

/// A difference of numbers that are not too large.
pub proof fn lemma_difference(a: Scalar, b: Scalar)
    requires
        a.is_finite(),
        b.is_finite(),
        torus::size(accuracy::exact(a)) <= 1_000_000_000 as real,
        torus::size(accuracy::exact(b)) <= 1_000_000_000 as real,
    ensures
        a.minus(b).is_finite(),
        ({
            let t = accuracy::exact(a) - accuracy::exact(b);
            accuracy::within(accuracy::exact(a.minus(b)), t, torus::size(t) / 8_000_000 as real)
        }),
{
    signed::lemma_finite(b);
    lemma_sum(a, b.negated());
}

// ---------------------------------------------------------------------------
//  The camera
// ---------------------------------------------------------------------------

/// The constants of the camera.
pub proof fn lemma_camera_constants()
    ensures
        accuracy::positive(Scalar::of_bits(camera::PITCH_LIMIT)),
        accuracy::within(
            10_000 as real * accuracy::exact(Scalar::of_bits(camera::PITCH_LIMIT)),
            15_533 as real,
            1 as real / 100 as real,
        ),
        accuracy::positive(Scalar::of_bits(camera::ZOOM_RATE)),
        accuracy::within(
            100 as real * accuracy::exact(Scalar::of_bits(camera::ZOOM_RATE)),
            12 as real,
            1 as real / 100_000 as real,
        ),
        accuracy::positive(Scalar::of_bits(camera::MIN_DISTANCE)),
        accuracy::within(
            100 as real * accuracy::exact(Scalar::of_bits(camera::MIN_DISTANCE)),
            2 as real,
            1 as real / 100_000 as real,
        ),
        accuracy::positive(Scalar::of_bits(camera::MAX_DISTANCE)),
        accuracy::exact(Scalar::of_bits(camera::MAX_DISTANCE)) == 40 as real,
        accuracy::positive(Scalar::of_bits(camera::PAN_RATE)),
        accuracy::within(
            10 as real * accuracy::exact(Scalar::of_bits(camera::PAN_RATE)),
            9 as real,
            1 as real / 1_000_000 as real,
        ),
        accuracy::positive(Scalar::of_bits(camera::FRAMING)),
        accuracy::within(
            10 as real * accuracy::exact(Scalar::of_bits(camera::FRAMING)),
            24 as real,
            1 as real / 1_000_000 as real,
        ),
{
    lemma2_to64();
    rounding::lemma_pow2_sum(24, 3);
    rounding::lemma_pow2_sum(24, 5);
    let a = camera::PITCH_LIMIT;
    assert(scalar::significand(a as nat) == 0xc6_d289 && scalar::exponent(a as nat) == 126);
    accuracy::lemma_pattern(a, 23);
    assert(accuracy::exact(Scalar::of_bits(a)) * 0x80_0000 as real == 0xc6_d289 as real);
    let b = camera::ZOOM_RATE;
    assert(scalar::significand(b as nat) == 0xf5_c28f && scalar::exponent(b as nat) == 122);
    accuracy::lemma_pattern(b, 27);
    assert(accuracy::exact(Scalar::of_bits(b)) * 0x800_0000 as real == 0xf5_c28f as real);
    let c = camera::MIN_DISTANCE;
    assert(scalar::significand(c as nat) == 0xa3_d70a && scalar::exponent(c as nat) == 120);
    accuracy::lemma_pattern(c, 29);
    assert(accuracy::exact(Scalar::of_bits(c)) * 0x2000_0000 as real == 0xa3_d70a as real);
    let d = camera::MAX_DISTANCE;
    assert(scalar::significand(d as nat) == 0xa0_0000 && scalar::exponent(d as nat) == 131);
    accuracy::lemma_pattern(d, 18);
    assert(accuracy::exact(Scalar::of_bits(d)) * 0x4_0000 as real == 0xa0_0000 as real);
    let f = camera::PAN_RATE;
    assert(scalar::significand(f as nat) == 0xe6_6666 && scalar::exponent(f as nat) == 125);
    accuracy::lemma_pattern(f, 24);
    assert(accuracy::exact(Scalar::of_bits(f)) * 0x100_0000 as real == 0xe6_6666 as real);
    let g = camera::FRAMING;
    assert(scalar::significand(g as nat) == 0x99_999a && scalar::exponent(g as nat) == 127);
    accuracy::lemma_pattern(g, 22);
    assert(accuracy::exact(Scalar::of_bits(g)) * 0x40_0000 as real == 0x99_999a as real);
}

/// A drag turns the camera against the yaw and with the pitch, which stops just short
/// of the poles, at 1.5533; nothing else of the camera changes.
pub proof fn law_drag_turns_the_camera(camera: OrbitCamera, dx: Scalar, dy: Scalar)
    requires
        tame(camera.yaw),
        tame(camera.pitch),
        tame(dx),
        tame(dy),
    ensures
        ({
            let c = camera.orbited(dx, dy);
            let yaw = accuracy::exact(camera.yaw) - accuracy::exact(dx);
            let pitch = accuracy::exact(camera.pitch) + accuracy::exact(dy);
            &&& accuracy::within(
                accuracy::exact(c.yaw),
                yaw,
                torus::size(yaw) / 8_000_000 as real,
            )
            &&& 1000 as real * torus::size(pitch) <= 1553 as real ==> accuracy::within(
                accuracy::exact(c.pitch),
                pitch,
                torus::size(pitch) / 8_000_000 as real,
            )
            &&& 1000 as real * pitch >= 1554 as real ==> accuracy::within(
                10_000 as real * accuracy::exact(c.pitch),
                15_533 as real,
                1 as real / 100 as real,
            )
            &&& 1000 as real * pitch <= -1554int as real ==> accuracy::within(
                10_000 as real * accuracy::exact(c.pitch),
                -15_533int as real,
                1 as real / 100 as real,
            )
            &&& c.target == camera.target && c.distance == camera.distance
            &&& c.fov_y == camera.fov_y && c.znear == camera.znear && c.zfar == camera.zfar
        }),
{
    lemma_camera_constants();
    lemma_difference(camera.yaw, dx);
    lemma_sum(camera.pitch, dy);
    let limit = Scalar::of_bits(camera::PITCH_LIMIT);
    accuracy::lemma_positive(limit);
    signed::lemma_finite(limit);
    let p = camera.pitch.plus(dy);
    nucleation::lemma_compares(p, limit.negated());
    nucleation::lemma_compares(limit, p);
}

/// Zooming takes twelve hundredths of the distance for each notch, between a fiftieth
/// and forty; nothing else of the camera changes.
pub proof fn law_zoom_scales_the_distance(camera: OrbitCamera, amount: Scalar)
    requires
        accuracy::counts(camera.distance),
        accuracy::exact(camera.distance) <= 1000 as real,
        amount.is_finite(),
        torus::size(accuracy::exact(amount)) <= 1000 as real,
    ensures
        ({
            let c = camera.zoomed(amount);
            let d = accuracy::exact(camera.distance);
            let r = accuracy::exact(c.distance);
            let wanted = d * (1 as real - 12 as real * accuracy::exact(amount) / 100 as real);
            let margin = d / 1000 as real + 1 as real / 1_000_000 as real;
            &&& 100 as real * (wanted - margin) >= 2 as real + 1 as real / 1000 as real && wanted
                + margin <= 39 as real ==> accuracy::within(r, wanted, margin)
            &&& 100 as real * (wanted + margin) <= 2 as real - 1 as real / 1000 as real
                ==> accuracy::within(100 as real * r, 2 as real, 1 as real / 100_000 as real)
            &&& wanted - margin > 40 as real ==> r == 40 as real
            &&& c.target == camera.target && c.yaw == camera.yaw && c.pitch == camera.pitch
            &&& c.fov_y == camera.fov_y && c.znear == camera.znear && c.zfar == camera.zfar
        }),
{
    lemma_camera_constants();
    lemma_unit();
    nucleation::lemma_zero_and_half();
    let rate = Scalar::of_bits(camera::ZOOM_RATE);
    let one = Scalar::of_bits(ONE);
    accuracy::lemma_positive(rate);
    accuracy::lemma_positive(one);
    accuracy::lemma_counts(camera.distance);
    let (a, k, d) = (
        accuracy::exact(amount),
        accuracy::exact(rate),
        accuracy::exact(camera.distance),
    );
    lemma_product(amount, rate);
    let t = amount.times(rate);
    let g = 12 as real / 100 as real;
    // a k is a g up to a millionth.
    let s = torus::size(a);
    accuracy::lemma_order(k, g + 1 as real / 10_000_000 as real, s);
    accuracy::lemma_order(torus::size(k - g), 1 as real / 10_000_000 as real, s);
    assert(a * k == a * g + a * (k - g)) by (nonlinear_arith);
    signed::lemma_size_product(a, k - g);
    assert(s * (1 as real / 10_000_000 as real) == s / 10_000_000 as real);
    assert(s * (g + 1 as real / 10_000_000 as real) == s * g + s / 10_000_000 as real)
        by (nonlinear_arith);
    assert(a * g == 12 as real * a / 100 as real && s * g == 12 as real * s / 100 as real)
        by (nonlinear_arith)
        requires
            g == 12 as real / 100 as real,
    ;
    lemma_difference(one, t);
    let f = one.minus(t);
    let wanted = 1 as real - 12 as real * a / 100 as real;
    let y = accuracy::exact(f);
    assert(accuracy::within(y, wanted, 2 as real / 10_000 as real));
    lemma_product(camera.distance, f);
    let p = camera.distance.times(f);
    // d y against d wanted.
    accuracy::lemma_order(y, wanted + 2 as real / 10_000 as real, d);
    accuracy::lemma_order(wanted - 2 as real / 10_000 as real, y, d);
    assert(d * (wanted + 2 as real / 10_000 as real) == d * wanted + 2 as real * d / 10_000 as real
        && d * (wanted - 2 as real / 10_000 as real) == d * wanted - 2 as real * d
        / 10_000 as real) by (nonlinear_arith);
    accuracy::lemma_order(torus::size(y), 200 as real, d);
    assert(d * 200 as real == 200 as real * d);
    let (low, high) = (Scalar::of_bits(camera::MIN_DISTANCE), Scalar::of_bits(camera::MAX_DISTANCE));
    accuracy::lemma_positive(low);
    accuracy::lemma_positive(high);
    nucleation::lemma_compares(p, low);
    nucleation::lemma_compares(high, p);
}

/// The eye is at the distance of the camera from its target, in the direction of its
/// angles.
pub proof fn law_eye_orbits_the_target(camera: OrbitCamera, a: Angles)
    requires
        tame(camera.target.x),
        tame(camera.target.y),
        tame(camera.target.z),
        accuracy::counts(camera.distance),
        accuracy::exact(camera.distance) <= 1_000_000 as real,
        within_one(a.sin_yaw),
        within_one(a.cos_yaw),
        within_one(a.sin_pitch),
        within_one(a.cos_pitch),
    ensures
        ({
            let e = camera.eye(a);
            let d = accuracy::exact(camera.distance);
            let (x, y, z) = (
                accuracy::exact(camera.target.x) + (accuracy::exact(a.cos_pitch) * accuracy::exact(
                    a.sin_yaw,
                )) * d,
                accuracy::exact(camera.target.y) + accuracy::exact(a.sin_pitch) * d,
                accuracy::exact(camera.target.z) + (accuracy::exact(a.cos_pitch) * accuracy::exact(
                    a.cos_yaw,
                )) * d,
            );
            &&& reaches(e.x, x, camera.target.x, d)
            &&& reaches(e.y, y, camera.target.y, d)
            &&& reaches(e.z, z, camera.target.z, d)
        }),
{
    lemma_direction(a.cos_pitch, a.sin_yaw);
    lemma_direction(a.cos_pitch, a.cos_yaw);
    let (cp, sy, cy, sp) = (
        accuracy::exact(a.cos_pitch),
        accuracy::exact(a.sin_yaw),
        accuracy::exact(a.cos_yaw),
        accuracy::exact(a.sin_pitch),
    );
    lemma_reaches(camera.target.x, a.cos_pitch.times(a.sin_yaw), cp * sy, camera.distance);
    lemma_reaches(camera.target.y, a.sin_pitch, sp, camera.distance);
    lemma_reaches(camera.target.z, a.cos_pitch.times(a.cos_yaw), cp * cy, camera.distance);
}

/// Whether a number is finite and at most one in size.
pub open spec fn within_one(x: Scalar) -> bool {
    &&& x.is_finite()
    &&& torus::size(accuracy::exact(x)) <= 1 as real
}

/// Whether a coordinate is where it should be, to a millionth of the lengths that went
/// into it.
pub open spec fn reaches(x: Scalar, wanted: real, from: Scalar, distance: real) -> bool {
    accuracy::within(
        accuracy::exact(x),
        wanted,
        (torus::size(accuracy::exact(from)) + distance + 1 as real) / 1_000_000 as real,
    )
}

/// A product of two shares.
pub proof fn lemma_direction(a: Scalar, b: Scalar)
    requires
        within_one(a),
        within_one(b),
    ensures
        a.times(b).is_finite(),
        accuracy::within(
            accuracy::exact(a.times(b)),
            accuracy::exact(a) * accuracy::exact(b),
            1 as real / 7_000_000 as real,
        ),
        torus::size(accuracy::exact(a) * accuracy::exact(b)) <= 1 as real,
{
    lemma_unit();
    lemma_product(a, b);
    let (x, y) = (torus::size(accuracy::exact(a)), torus::size(accuracy::exact(b)));
    accuracy::lemma_order(x, 1 as real, y);
}

proof fn lemma_reaches(from: Scalar, direction: Scalar, u: real, distance: Scalar)
    requires
        tame(from),
        direction.is_finite(),
        torus::size(u) <= 1 as real,
        accuracy::within(accuracy::exact(direction), u, 1 as real / 7_000_000 as real),
        accuracy::counts(distance),
        accuracy::exact(distance) <= 1_000_000 as real,
    ensures
        reaches(
            from.plus(direction.times(distance)),
            accuracy::exact(from) + u * accuracy::exact(distance),
            from,
            accuracy::exact(distance),
        ),
{
    lemma_unit();
    accuracy::lemma_counts(distance);
    let (v, d, f) = (accuracy::exact(direction), accuracy::exact(distance), accuracy::exact(from));
    lemma_product(direction, distance);
    let p = direction.times(distance);
    accuracy::lemma_order(v, u + 1 as real / 7_000_000 as real, d);
    accuracy::lemma_order(u - 1 as real / 7_000_000 as real, v, d);
    assert((u + 1 as real / 7_000_000 as real) * d == u * d + d / 7_000_000 as real && (u - 1 as real
        / 7_000_000 as real) * d == u * d - d / 7_000_000 as real) by (nonlinear_arith);
    accuracy::lemma_order(torus::size(v), 2 as real, d);
    signed::lemma_size_product(u, d);
    accuracy::lemma_order(torus::size(u), 1 as real, d);
    lemma_sum(from, p);
}

/// Flying moves the target along the view by the distance times the amount, and changes
/// nothing else; sliding moves it in the plane of the view, and changes nothing else.
pub proof fn law_moving_the_target_keeps_the_view(
    camera: OrbitCamera,
    a: Angles,
    dx: Scalar,
    dy: Scalar,
)
    ensures
        ({
            let c = camera.dollied(a, dx);
            let p = camera.panned(a, dx, dy);
            &&& c.distance == camera.distance && c.yaw == camera.yaw && c.pitch == camera.pitch
            &&& c.fov_y == camera.fov_y && c.znear == camera.znear && c.zfar == camera.zfar
            &&& p.distance == camera.distance && p.yaw == camera.yaw && p.pitch == camera.pitch
            &&& p.fov_y == camera.fov_y && p.znear == camera.znear && p.zfar == camera.zfar
            &&& c.forward(a) == camera.forward(a) && p.forward(a) == camera.forward(a)
            &&& p.right(a) == camera.right(a) && p.up(a) == camera.up(a)
        }),
{
}

/// How far the target flies along one axis: the view direction times the amount times
/// the distance.
pub proof fn law_flying_goes_along_the_view(camera: OrbitCamera, a: Angles, amount: Scalar)
    requires
        flies(camera.target.x, camera.forward(a).x, amount, camera.distance),
        flies(camera.target.y, camera.forward(a).y, amount, camera.distance),
        flies(camera.target.z, camera.forward(a).z, amount, camera.distance),
    ensures
        ({
            let c = camera.dollied(a, amount);
            let f = camera.forward(a);
            let k = accuracy::exact(amount) * accuracy::exact(camera.distance);
            &&& moves(c.target.x, camera.target.x, accuracy::exact(f.x) * k)
            &&& moves(c.target.y, camera.target.y, accuracy::exact(f.y) * k)
            &&& moves(c.target.z, camera.target.z, accuracy::exact(f.z) * k)
        }),
{
    lemma_moves(camera.target.x, camera.forward(a).x, amount, camera.distance);
    lemma_moves(camera.target.y, camera.forward(a).y, amount, camera.distance);
    lemma_moves(camera.target.z, camera.forward(a).z, amount, camera.distance);
}

/// Whether the numbers of a flight along one axis are of moderate size.
pub open spec fn flies(from: Scalar, direction: Scalar, amount: Scalar, distance: Scalar) -> bool {
    &&& tame(from)
    &&& direction.is_finite() && torus::size(accuracy::exact(direction)) <= 2 as real
    &&& amount.is_finite() && torus::size(accuracy::exact(amount)) <= 1000 as real
    &&& accuracy::counts(distance) && accuracy::exact(distance) <= 1000 as real
}

/// Whether a coordinate is another one moved by `by`, up to rounding.
pub open spec fn moves(x: Scalar, from: Scalar, by: real) -> bool {
    accuracy::within(
        accuracy::exact(x),
        accuracy::exact(from) + by,
        (torus::size(accuracy::exact(from)) + torus::size(by) + 1 as real) / 1_000_000 as real,
    )
}

proof fn lemma_moves(from: Scalar, direction: Scalar, amount: Scalar, distance: Scalar)
    requires
        flies(from, direction, amount, distance),
    ensures
        moves(
            from.plus(direction.times(amount).times(distance)),
            from,
            accuracy::exact(direction) * (accuracy::exact(amount) * accuracy::exact(distance)),
        ),
{
    lemma_unit();
    accuracy::lemma_counts(distance);
    let (u, a, d) = (
        accuracy::exact(direction),
        accuracy::exact(amount),
        accuracy::exact(distance),
    );
    lemma_product(direction, amount);
    let p = direction.times(amount);
    let (x, y) = (accuracy::exact(p), u * a);
    let s = torus::size(y);
    accuracy::lemma_order(torus::size(u), 2 as real, torus::size(a));
    lemma_product(p, distance);
    let t = y * d;
    assert(t == u * (a * d)) by (nonlinear_arith)
        requires
            t == y * d,
            y == u * a,
    ;
    signed::lemma_size_product(y, d);
    let margin = s / 8_000_000 as real + accuracy::unit();
    accuracy::lemma_order(x, y + margin, d);
    accuracy::lemma_order(y - margin, x, d);
    assert((y + margin) * d == t + (s * d) / 8_000_000 as real + accuracy::unit() * d && (y - margin)
        * d == t - (s * d) / 8_000_000 as real - accuracy::unit() * d) by (nonlinear_arith)
        requires
            t == y * d,
            margin == s / 8_000_000 as real + accuracy::unit(),
    ;
    accuracy::lemma_order(d, 1000 as real, accuracy::unit());
    accuracy::lemma_order(torus::size(x), s + margin, d);
    assert((s + margin) * d == s * d + (s * d) / 8_000_000 as real + accuracy::unit() * d)
        by (nonlinear_arith)
        requires
            margin == s / 8_000_000 as real + accuracy::unit(),
    ;
    accuracy::lemma_order(s, 2000 as real, d);
    accuracy::lemma_order(0 as real, s, d);
    lemma_sum(from, p.times(distance));
}

/// Looking at a box moves the target to its middle, and the eye 2.4 half-diagonals away:
/// the square of the distance is 5.76 times the sum of the squares of the half-extents.
pub proof fn law_framing_shows_the_whole_box(camera: OrbitCamera, half: Vector)
    requires
        accuracy::counts(half.x),
        accuracy::counts(half.y),
        accuracy::counts(half.z),
        accuracy::exact(half.x) <= 1000 as real,
        accuracy::exact(half.y) <= 1000 as real,
        accuracy::exact(half.z) <= 1000 as real,
        ({
            let (x, y, z) = (
                accuracy::exact(half.x),
                accuracy::exact(half.y),
                accuracy::exact(half.z),
            );
            1_000_000 as real * (x * x + y * y + z * z) >= 1 as real
        }),
    ensures
        ({
            let c = camera.framing(half);
            let (x, y, z) = (
                accuracy::exact(half.x),
                accuracy::exact(half.y),
                accuracy::exact(half.z),
            );
            let d = accuracy::exact(c.distance);
            let q = x * x + y * y + z * z;
            &&& accuracy::exact(c.target.x) == 0 as real
            &&& accuracy::exact(c.target.y) == 0 as real
            &&& accuracy::exact(c.target.z) == 0 as real
            &&& d > 0 as real
            &&& accuracy::within(
                d * d,
                576 as real * q / 100 as real,
                q / 10_000 as real,
            )
            &&& c.yaw == camera.yaw && c.pitch == camera.pitch && c.fov_y == camera.fov_y
        }),
{
    lemma_camera_constants();
    lemma_unit();
    nucleation::lemma_zero_and_half();
    let (x, y, z) = (accuracy::exact(half.x), accuracy::exact(half.y), accuracy::exact(half.z));
    let q = x * x + y * y + z * z;
    lemma_square_signs(half);
    lemma_vector_length(half);
    let l = half.length();
    accuracy::lemma_counts(l);
    let r = accuracy::exact(l);
    // r is between a thousandth and a few thousand.
    assert(1_000_000_000 as real * (r * r) >= 1 as real);
    lemma_root_bounds(r);
    let k = Scalar::of_bits(camera::FRAMING);
    accuracy::lemma_positive(k);
    let g = accuracy::exact(k);
    lemma_product(l, k);
    let d = accuracy::exact(l.times(k));
    let w = r * g;
    accuracy::lemma_order(r, r * 1 as real, g);
    assert(torus::size(r) == r && torus::size(g) == g);
    accuracy::lemma_order(1 as real / 1_000_000 as real, r, g);
    assert(w >= 2 as real * r) by {
        accuracy::lemma_order(2 as real, g, r);
        assert(r * g == g * r) by (nonlinear_arith);
    }
    assert(accuracy::within(d, w, w / 4_000_000 as real));
    lemma_square_within(d, w);
    assert(w * w == (r * r) * (g * g)) by (nonlinear_arith)
        requires
            w == r * g,
    ;
    lemma_square_of_constant(g);
    accuracy::lemma_order(g * g, 5_760_001 as real / 1_000_000 as real, r * r);
    accuracy::lemma_order(5_759_999 as real / 1_000_000 as real, g * g, r * r);
}

proof fn lemma_square_signs(v: Vector)
    requires
        accuracy::counts(v.x),
        accuracy::counts(v.y),
        accuracy::counts(v.z),
    ensures
        accuracy::exact(v.x) >= 0 as real,
        accuracy::exact(v.y) >= 0 as real,
        accuracy::exact(v.z) >= 0 as real,
        v.x.is_finite() && v.y.is_finite() && v.z.is_finite(),
{
    accuracy::lemma_counts(v.x);
    accuracy::lemma_counts(v.y);
    accuracy::lemma_counts(v.z);
}

/// The square of the length of a vector is the sum of the squares of its components.
pub proof fn lemma_vector_length(v: Vector)
    requires
        v.x.is_finite() && torus::size(accuracy::exact(v.x)) <= 1100 as real,
        v.y.is_finite() && torus::size(accuracy::exact(v.y)) <= 1100 as real,
        v.z.is_finite() && torus::size(accuracy::exact(v.z)) <= 1100 as real,
        ({
            let (x, y, z) = (accuracy::exact(v.x), accuracy::exact(v.y), accuracy::exact(v.z));
            1_000_000 as real * (x * x + y * y + z * z) >= 1 as real
        }),
    ensures
        ({
            let (x, y, z) = (accuracy::exact(v.x), accuracy::exact(v.y), accuracy::exact(v.z));
            let q = x * x + y * y + z * z;
            let r = accuracy::exact(v.length());
            &&& accuracy::counts(v.length())
            &&& accuracy::within(r * r, q, q / 500_000 as real)
            &&& q <= 4_000_000 as real
        }),
{
    lemma_unit();
    let (x, y, z) = (accuracy::exact(v.x), accuracy::exact(v.y), accuracy::exact(v.z));
    let q = x * x + y * y + z * z;
    lemma_square(v.x);
    lemma_square(v.y);
    lemma_square(v.z);
    let (a, b, c) = (v.x.times(v.x), v.y.times(v.y), v.z.times(v.z));
    let s = a.plus(b);
    accuracy::lemma_counts(a);
    accuracy::lemma_counts(b);
    accuracy::lemma_counts(c);
    accuracy::lemma_plus_in_range(a, b);
    accuracy::lemma_near_within(
        accuracy::exact(s),
        accuracy::exact(a) + accuracy::exact(b),
        1,
    );
    lemma_share(accuracy::exact(a) + accuracy::exact(b));
    accuracy::lemma_plus_in_range(s, c);
    let t = s.plus(c);
    accuracy::lemma_near_within(
        accuracy::exact(t),
        accuracy::exact(s) + accuracy::exact(c),
        1,
    );
    lemma_share(accuracy::exact(s) + accuracy::exact(c));
    let w = accuracy::exact(t);
    assert(accuracy::within(w, q, q / 1_000_000 as real));
    torus::lemma_root_within(t);
    lemma_share(w);
}

proof fn lemma_square_of_constant(g: real)
    requires
        accuracy::within(10 as real * g, 24 as real, 1 as real / 1_000_000 as real),
    ensures
        1_000_000 as real * (g * g) <= 5_760_001 as real,
        1_000_000 as real * (g * g) >= 5_759_999 as real,
{
    let c = 24 as real / 10 as real;
    let (lo, hi) = (c - 1 as real / 10_000_000 as real, c + 1 as real / 10_000_000 as real);
    torus::lemma_square_order(lo, g);
    torus::lemma_square_order(g, hi);
    assert(1_000_000 as real * (hi * hi) <= 5_760_001 as real && 1_000_000 as real * (lo * lo)
        >= 5_759_999 as real) by (nonlinear_arith)
        requires
            hi == 24 as real / 10 as real + 1 as real / 10_000_000 as real,
            lo == 24 as real / 10 as real - 1 as real / 10_000_000 as real,
    ;
}

proof fn lemma_square_within(d: real, w: real)
    requires
        accuracy::within(d, w, w / 4_000_000 as real),
        w > 0 as real,
    ensures
        d > 0 as real,
        accuracy::within(d * d, w * w, (w * w) / 1_000_000 as real),
{
    let (lo, hi) = (w - w / 4_000_000 as real, w + w / 4_000_000 as real);
    torus::lemma_square_order(lo, d);
    torus::lemma_square_order(d, hi);
    let q = w * w;
    assert(lo * lo == q - 2 as real * q / 4_000_000 as real + q / 16_000_000_000_000 as real && hi * hi
        == q + 2 as real * q / 4_000_000 as real + q / 16_000_000_000_000 as real)
        by (nonlinear_arith)
        requires
            q == w * w,
            lo == w - w / 4_000_000 as real,
            hi == w + w / 4_000_000 as real,
    ;
    accuracy::lemma_positive_product(w, w);
}

proof fn lemma_root_bounds(r: real)
    requires
        r >= 0 as real,
        1_000_000_000 as real * (r * r) >= 1 as real,
        r * r <= 100_000_000 as real,
    ensures
        r <= 1_000_000 as real,
        1_000_000 as real * r >= 1 as real,
{
    if r > 1_000_000 as real {
        torus::lemma_square_order(1_000_000 as real, r);
    }
    let t = 1 as real / 1_000_000 as real;
    if r < t {
        torus::lemma_square_order(r, t);
    }
}

proof fn lemma_square(a: Scalar)
    requires
        a.is_finite(),
        torus::size(accuracy::exact(a)) <= 1100 as real,
    ensures
        accuracy::counts(a.times(a)),
        ({
            let x = accuracy::exact(a);
            &&& x * x >= 0 as real
            &&& x * x <= 1_210_000 as real
            &&& accuracy::within(
                accuracy::exact(a.times(a)),
                x * x,
                (x * x) / 8_000_000 as real + accuracy::unit(),
            )
        }),
{
    lemma_unit();
    signed::lemma_finite(a);
    let b = a.abs();
    accuracy::lemma_counts(b);
    let (x, y) = (accuracy::exact(a), accuracy::exact(b));
    assert(a.times(a) == b.times(b)) by {
        reveal(Scalar::times_spec);
    }
    assert((-y) * (-y) == y * y) by (nonlinear_arith);
    torus::lemma_square_order(0 as real, y);
    torus::lemma_square_order(y, 1100 as real);
    accuracy::lemma_times_finite(b, b);
    accuracy::lemma_times_within(b, b);
    lemma_share(y * y);
}

// ---------------------------------------------------------------------------
//  The box
// ---------------------------------------------------------------------------

/// Every axis of the box is as long, against the longest, as it has cells, and a cell is
/// one over the longest.
pub proof fn law_box_has_the_shape_of_the_lattice(grid: [u32; 3], axis: int, frame: u32)
    requires
        0 <= axis < 3,
        grid[axis] > 0,
    ensures
        ({
            let r = VolumeRenderer::of_grid(grid, frame);
            let n = render::longest(grid);
            let most = n as real;
            &&& n >= grid[0] && n >= grid[1] && n >= grid[2]
            &&& n == grid[0] || n == grid[1] || n == grid[2]
            &&& accuracy::near(
                2 as real * accuracy::exact(r.box_half[axis]),
                grid[axis] as real / most,
                10,
            )
            &&& accuracy::near(accuracy::exact(r.cell) * most, 1 as real, 5)
            &&& r.grid == grid && r.frame == frame
        }),
{
    let (half, one) = (Scalar::of_bits(HALF), Scalar::of_bits(ONE));
    nucleation::lemma_zero_and_half();
    let n = render::longest(grid);
    let (g, m) = (Scalar::of_integer(grid[axis] as u64), Scalar::of_integer(n as u64));
    accuracy::lemma_integer_near(grid[axis] as u64);
    accuracy::lemma_integer_near(n as u64);
    let (x, y, h) = (grid[axis] as real, n as real, 1 as real / 2 as real);
    accuracy::lemma_near_itself(h);
    accuracy::lemma_near_itself(1 as real);
    assert(h * x == x / 2 as real);
    accuracy::lemma_order(2 as real, accuracy::wide(), h * x);
    accuracy::lemma_times_of(half, h, 0, g, x, 1);
    accuracy::lemma_quotient_back(h * x, y);
    accuracy::lemma_quotient_back(1 as real, y);
    let (q, p) = ((h * x) / y, 1 as real / y);
    let big = 10_000_000_000 as real;
    assert(big * q >= 1 as real && q <= big) by (nonlinear_arith)
        requires
            q * y == h * x,
            h == 1 as real / 2 as real,
            x >= 1 as real,
            x <= 4_294_967_296 as real,
            y >= 1 as real,
            y <= 4_294_967_296 as real,
            big == 10_000_000_000 as real,
    ;
    assert(big * p >= 1 as real && p <= big && p > 0 as real) by (nonlinear_arith)
        requires
            p * y == 1 as real,
            y >= 1 as real,
            y <= 4_294_967_296 as real,
            big == 10_000_000_000 as real,
    ;
    accuracy::lemma_order(big, accuracy::wide(), q);
    accuracy::lemma_order(big, accuracy::wide(), p);
    accuracy::lemma_over_of(half.times(g), h * x, 4, m, y, 1);
    accuracy::lemma_near_itself(2 as real);
    let b = accuracy::exact(half.times(g).over(m));
    accuracy::lemma_near_product(2 as real, 2 as real, 0, b, q, 8);
    assert(2 as real * q == x / y) by (nonlinear_arith)
        requires
            q == (h * x) / y,
            h == 1 as real / 2 as real,
            y > 0 as real,
    ;
    accuracy::lemma_near_widens(2 as real * b, x / y, 9, 10);
    accuracy::lemma_over_of(one, 1 as real, 0, m, y, 1);
    accuracy::lemma_near_itself(y);
    accuracy::lemma_near_product(accuracy::exact(one.over(m)), p, 4, y, y, 0);
}

/// What the shader reads of a view is where it looks for it: the matrix, the eye, the
/// box, the lattice, and the settings, each in its place.
pub proof fn law_view_is_laid_out_for_the_shader(
    r: VolumeRenderer,
    matrix: [Scalar; 16],
    eye: [Scalar; 3],
    settings: RenderSettings,
    i: int,
)
    requires
        0 <= i < 16,
    ensures
        ({
            let w = r.uniform(matrix, eye, settings).numbers();
            &&& w.len() == 44
            &&& w[i] == matrix[i]
            &&& w[16] == eye[0] && w[17] == eye[1] && w[18] == eye[2]
            &&& w[20] == r.box_half[0] && w[21] == r.box_half[1] && w[22] == r.box_half[2]
            &&& w[23] == r.cell
            &&& r.grid[0] < 0x100_0000 ==> accuracy::exact(w[24]) == r.grid[0] as real
            &&& r.grid[1] < 0x100_0000 ==> accuracy::exact(w[25]) == r.grid[1] as real
            &&& r.grid[2] < 0x100_0000 ==> accuracy::exact(w[26]) == r.grid[2] as real
            &&& w[28] == settings.iso_level && w[29] == settings.wall_opacity
            &&& w[30] == settings.samples_per_cell && w[31] == settings.exposure
            &&& accuracy::exact(w[32]) == match settings.field_mode {
                FieldMode::Phi => 0 as real,
                FieldMode::Speed => 1 as real,
                FieldMode::Temperature => 2 as real,
                FieldMode::Kinetic => 3 as real,
            }
            &&& -0x100_0000 < settings.clip_axis < 0x100_0000 ==> accuracy::exact(w[33])
                == settings.clip_axis as real
            &&& w[34] == settings.clip_pos
            &&& settings.colormap < 0x100_0000 ==> accuracy::exact(w[35])
                == settings.colormap as real
            &&& w[36] == settings.field_gain && w[37] == settings.absorption
            &&& accuracy::exact(w[38]) == truth(settings.show_iso)
            &&& accuracy::exact(w[39]) == truth(settings.show_volume)
            &&& accuracy::exact(w[41]) == truth(settings.show_box)
            &&& w[42] == settings.background
        }),
{
    nucleation::lemma_zero_and_half();
    let u = r.uniform(matrix, eye, settings);
    let w = u.numbers();
    assert(w.len() == 44);
    assert(w[i] == u.inv_view_proj@[i]);
    assert(w[16] == u.cam_pos@[0] && w[17] == u.cam_pos@[1] && w[18] == u.cam_pos@[2]);
    assert(w[20] == u.box_half@[0] && w[21] == u.box_half@[1] && w[22] == u.box_half@[2]);
    assert(w[23] == u.box_half@[3]);
    assert(w[24] == u.grid@[0] && w[25] == u.grid@[1] && w[26] == u.grid@[2]);
    assert(w[28] == u.render0@[0] && w[29] == u.render0@[1] && w[30] == u.render0@[2] && w[31]
        == u.render0@[3]);
    assert(w[32] == u.render1@[0] && w[33] == u.render1@[1] && w[34] == u.render1@[2] && w[35]
        == u.render1@[3]);
    assert(w[36] == u.render2@[0] && w[37] == u.render2@[1] && w[38] == u.render2@[2] && w[39]
        == u.render2@[3]);
    assert(w[41] == u.render3@[1] && w[42] == u.render3@[2]);
    lemma_layout_numbers(r, settings);
}

/// A truth value as a number.
pub open spec fn truth(on: bool) -> real {
    if on {
        1 as real
    } else {
        0 as real
    }
}

proof fn lemma_layout_numbers(r: VolumeRenderer, settings: RenderSettings)
    ensures
        r.grid[0] < 0x100_0000 ==> accuracy::exact(Scalar::of_integer(r.grid[0] as u64))
            == r.grid[0] as real,
        r.grid[1] < 0x100_0000 ==> accuracy::exact(Scalar::of_integer(r.grid[1] as u64))
            == r.grid[1] as real,
        r.grid[2] < 0x100_0000 ==> accuracy::exact(Scalar::of_integer(r.grid[2] as u64))
            == r.grid[2] as real,
        accuracy::exact(Scalar::of_integer(settings.field_mode.index() as u64))
            == match settings.field_mode {
            FieldMode::Phi => 0 as real,
            FieldMode::Speed => 1 as real,
            FieldMode::Temperature => 2 as real,
            FieldMode::Kinetic => 3 as real,
        },
        -0x100_0000 < settings.clip_axis < 0x100_0000 ==> accuracy::exact(
            render::of_signed(settings.clip_axis),
        ) == settings.clip_axis as real,
        settings.colormap < 0x100_0000 ==> accuracy::exact(
            Scalar::of_integer(settings.colormap as u64),
        ) == settings.colormap as real,
{
    if r.grid[0] < 0x100_0000 {
        nucleation::lemma_whole(r.grid[0] as u64);
    }
    if r.grid[1] < 0x100_0000 {
        nucleation::lemma_whole(r.grid[1] as u64);
    }
    if r.grid[2] < 0x100_0000 {
        nucleation::lemma_whole(r.grid[2] as u64);
    }
    nucleation::lemma_whole(settings.field_mode.index() as u64);
    let c = settings.clip_axis;
    if -0x100_0000 < c < 0x100_0000 {
        if c < 0 {
            nucleation::lemma_whole((-c) as u64);
            accuracy::lemma_counts(Scalar::of_integer((-c) as u64));
            signed::lemma_finite(Scalar::of_integer((-c) as u64));
        } else {
            nucleation::lemma_whole(c as u64);
        }
    }
    if settings.colormap < 0x100_0000 {
        nucleation::lemma_whole(settings.colormap as u64);
    }
}

/// A field that is chosen comes with the gain that suits it, one half, four, fifteen or
/// twenty, and with a colour map that there is; the signed field has the signed one.
pub proof fn law_fields_come_with_their_gain(mode: FieldMode)
    ensures
        accuracy::exact(mode.default_gain()) == match mode {
            FieldMode::Phi => 1 as real / 2 as real,
            FieldMode::Speed => 4 as real,
            FieldMode::Temperature => 15 as real,
            FieldMode::Kinetic => 20 as real,
        },
        mode.default_colormap() < 3,
        mode.default_colormap() == 2 <==> mode == FieldMode::Temperature,
        RenderSettings::with_field(mode).field_mode == mode,
        RenderSettings::with_field(mode).field_gain == mode.default_gain(),
        RenderSettings::with_field(mode).colormap == mode.default_colormap(),
        RenderSettings::with_field(mode).clip_axis == -1,
{
    nucleation::lemma_zero_and_half();
    lemma2_to64();
    let (a, b, c) = (scalar::FOUR, 0x4170_0000u32, 0x41a0_0000u32);
    assert(scalar::significand(a as nat) == 0x80_0000 && scalar::exponent(a as nat) == 128);
    accuracy::lemma_pattern(a, 21);
    assert(accuracy::exact(Scalar::of_bits(a)) * 0x20_0000 as real == 0x80_0000 as real);
    assert(scalar::significand(b as nat) == 0xf0_0000 && scalar::exponent(b as nat) == 129);
    accuracy::lemma_pattern(b, 20);
    assert(accuracy::exact(Scalar::of_bits(b)) * 0x10_0000 as real == 0xf0_0000 as real);
    assert(scalar::significand(c as nat) == 0xa0_0000 && scalar::exponent(c as nat) == 130);
    accuracy::lemma_pattern(c, 19);
    assert(accuracy::exact(Scalar::of_bits(c)) * 0x8_0000 as real == 0xa0_0000 as real);
}

} // verus!
