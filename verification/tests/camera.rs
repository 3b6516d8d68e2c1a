use bubble_simulation::camera::{Angles, OrbitCamera, Vector, PITCH_LIMIT};
use bubble_simulation::scalar::Scalar;
use glam::Vec3;

fn s(x: f32) -> Scalar {
    Scalar::of_bits(x.to_bits())
}

fn f(x: Scalar) -> f32 {
    f32::from_bits(x.bits)
}

fn angles(c: &OrbitCamera) -> Angles {
    let (sy, cy) = f(c.yaw).sin_cos();
    let (sp, cp) = f(c.pitch).sin_cos();
    Angles { sin_yaw: s(sy), cos_yaw: s(cy), sin_pitch: s(sp), cos_pitch: s(cp) }
}

fn v(x: Vector) -> Vec3 {
    Vec3::new(f(x.x), f(x.y), f(x.z))
}

fn w(x: Vec3) -> Vector {
    Vector { x: s(x.x), y: s(x.y), z: s(x.z) }
}

#[test]
fn eye_sits_at_the_requested_distance() {
    let c = OrbitCamera::default();
    assert!((v(c.eye(angles(&c))).distance(v(c.target)) - f(c.distance)).abs() < 1e-5);
}

#[test]
fn pitch_is_clamped_short_of_the_pole() {
    let mut c = OrbitCamera::default();
    c.orbit(s(0.0), s(100.0));
    assert!(f(c.pitch) <= f32::from_bits(PITCH_LIMIT));
    c.orbit(s(0.0), s(-200.0));
    assert!(f(c.pitch) >= -f32::from_bits(PITCH_LIMIT));
    // The basis must stay well conditioned at the limit.
    assert!(v(c.right(angles(&c))).length() > 0.5);
    assert!(v(c.up(angles(&c))).length() > 0.5);
}

#[test]
fn zoom_stays_positive() {
    let mut c = OrbitCamera::default();
    for _ in 0..200 {
        c.zoom(s(5.0));
    }
    assert!(f(c.distance) > 0.0);
}

#[test]
fn the_view_starts_where_it_is_meant_to() {
    let c = OrbitCamera::default();
    assert_eq!(v(c.target), Vec3::ZERO);
    assert_eq!(f(c.distance), 2.1);
    assert_eq!(f(c.yaw), 0.6);
    assert_eq!(f(c.pitch), 0.42);
    assert_eq!(f(c.fov_y), 50f32.to_radians());
    assert_eq!(f(c.znear), 0.002);
    assert_eq!(f(c.zfar), 100.0);
    assert_eq!(f32::from_bits(PITCH_LIMIT), 1.5533);
}

/// The camera's basis is the one that vectors of the machine give.
#[test]
fn the_basis_is_that_of_the_machine() {
    let mut c = OrbitCamera::default();
    for k in 0..200 {
        c.orbit(s(0.37), s(if k % 7 < 3 { 0.21 } else { -0.17 }));
        c.zoom(s(if k % 5 == 0 { 2.0 } else { -0.4 }));
        let a = angles(&c);
        let (sy, cy) = f(c.yaw).sin_cos();
        let (sp, cp) = f(c.pitch).sin_cos();
        let offset = Vec3::new(cp * sy, sp, cp * cy) * f(c.distance);
        let forward = -offset.normalize();
        let right = forward.cross(Vec3::Y).normalize_or_zero();
        let up = right.cross(forward).normalize_or_zero();
        assert_eq!(v(c.eye(a)), v(c.target) + offset);
        assert_eq!(v(c.forward(a)), forward);
        assert_eq!(v(c.right(a)), right);
        assert_eq!(v(c.up(a)), up);
        let (before, distance) = (v(c.target), f(c.distance));
        c.pan(a, s(0.1), s(-0.05));
        let scale = distance * 0.9;
        let panned = before + (right * (-0.1 * scale) + up * (-0.05 * scale));
        assert_eq!(v(c.target), panned);
        c.dolly(a, s(0.03));
        assert_eq!(v(c.target), panned + forward * 0.03 * distance);
    }
}

#[test]
fn zoom_is_multiplicative_and_bounded() {
    let mut c = OrbitCamera::default();
    c.zoom(s(1.0));
    assert_eq!(f(c.distance), 2.1 * (1.0 - 1.0 * 0.12));
    for _ in 0..200 {
        c.zoom(s(-3.0));
    }
    assert_eq!(f(c.distance), 40.0);
    c.zoom(s(100.0));
    assert_eq!(f(c.distance), 0.02);
}

#[test]
fn framing_looks_at_the_whole_box() {
    let mut c = OrbitCamera { target: w(Vec3::new(1.0, 2.0, 3.0)), ..OrbitCamera::default() };
    let half = Vec3::new(0.5, 0.25, 0.125);
    c.frame_box(w(half));
    assert_eq!(v(c.target), Vec3::ZERO);
    assert_eq!(f(c.distance), half.length() * 2.4);
}

#[test]
fn a_vector_without_length_has_no_direction() {
    assert_eq!(Vector::zero().normalized_or_zero(), Vector::zero());
    let tiny = w(Vec3::new(1e-30, 0.0, 0.0));
    assert_eq!(v(tiny.normalized_or_zero()), Vec3::new(1e-30, 0.0, 0.0).normalize_or_zero());
}
