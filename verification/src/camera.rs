//! Orbit camera.
//!
//! Rotate around the box, pan the point you orbit, and dolly in until you are
//! inside it -- which is the interesting vantage point once the bubbles have
//! merged and the box is full of sound waves.

use vstd::prelude::*;

use crate::scalar;
use crate::scalar::{Scalar, ONE, ZERO};

verus! {

// ---------------------------------------------------------------------------
//  Vectors
// ---------------------------------------------------------------------------

#[derive(Clone, Copy, Debug, PartialEq, Eq, Structural)]
pub struct Vector {
    pub x: Scalar,
    pub y: Scalar,
    pub z: Scalar,
}

impl Vector {
    pub open spec fn zero_spec() -> Vector {
        Vector { x: Scalar::of_bits(ZERO), y: Scalar::of_bits(ZERO), z: Scalar::of_bits(ZERO) }
    }

    pub open spec fn upward_spec() -> Vector {
        Vector { x: Scalar::of_bits(ZERO), y: Scalar::of_bits(ONE), z: Scalar::of_bits(ZERO) }
    }

    pub open spec fn plus_spec(self, other: Vector) -> Vector {
        Vector {
            x: self.x.plus(other.x),
            y: self.y.plus(other.y),
            z: self.z.plus(other.z),
        }
    }

    pub open spec fn scaled_spec(self, by: Scalar) -> Vector {
        Vector { x: self.x.times(by), y: self.y.times(by), z: self.z.times(by) }
    }

    pub open spec fn negated_spec(self) -> Vector {
        Vector { x: self.x.negated(), y: self.y.negated(), z: self.z.negated() }
    }

    pub open spec fn cross_spec(self, other: Vector) -> Vector {
        Vector {
            x: self.y.times(other.z).minus(other.y.times(self.z)),
            y: self.z.times(other.x).minus(other.z.times(self.x)),
            z: self.x.times(other.y).minus(other.x.times(self.y)),
        }
    }

    pub open spec fn length_spec(self) -> Scalar {
        self.x.times(self.x).plus(self.y.times(self.y)).plus(self.z.times(self.z)).sqrt()
    }

    pub open spec fn normalized_spec(self) -> Vector {
        self.scaled_spec(Scalar::of_bits(ONE).over(self.length_spec()))
    }

    /// Zero where the length has no finite positive reciprocal.
    pub open spec fn normalized_or_zero_spec(self) -> Vector {
        let recip = Scalar::of_bits(ONE).over(self.length_spec());
        if recip.is_finite() && Scalar::of_bits(ZERO).lt(recip) {
            self.scaled_spec(recip)
        } else {
            Vector::zero_spec()
        }
    }

    #[verifier::when_used_as_spec(zero_spec)]
    pub fn zero() -> (r: Vector)
        ensures
            r == Vector::zero_spec(),
    {
        Vector { x: Scalar::of_bits(ZERO), y: Scalar::of_bits(ZERO), z: Scalar::of_bits(ZERO) }
    }

    /// The world's vertical.
    #[verifier::when_used_as_spec(upward_spec)]
    pub fn upward() -> (r: Vector)
        ensures
            r == Vector::upward_spec(),
    {
        Vector { x: Scalar::of_bits(ZERO), y: Scalar::of_bits(ONE), z: Scalar::of_bits(ZERO) }
    }

    #[verifier::when_used_as_spec(plus_spec)]
    pub fn plus(self, other: Vector) -> (r: Vector)
        ensures
            r == self.plus_spec(other),
    {
        Vector {
            x: self.x.plus(other.x),
            y: self.y.plus(other.y),
            z: self.z.plus(other.z),
        }
    }

    #[verifier::when_used_as_spec(scaled_spec)]
    pub fn scaled(self, by: Scalar) -> (r: Vector)
        ensures
            r == self.scaled_spec(by),
    {
        Vector { x: self.x.times(by), y: self.y.times(by), z: self.z.times(by) }
    }

    #[verifier::when_used_as_spec(negated_spec)]
    pub fn negated(self) -> (r: Vector)
        ensures
            r == self.negated_spec(),
    {
        Vector { x: self.x.negated(), y: self.y.negated(), z: self.z.negated() }
    }

    #[verifier::when_used_as_spec(cross_spec)]
    pub fn cross(self, other: Vector) -> (r: Vector)
        ensures
            r == self.cross_spec(other),
    {
        Vector {
            x: self.y.times(other.z).minus(other.y.times(self.z)),
            y: self.z.times(other.x).minus(other.z.times(self.x)),
            z: self.x.times(other.y).minus(other.x.times(self.y)),
        }
    }

    #[verifier::when_used_as_spec(length_spec)]
    pub fn length(self) -> (r: Scalar)
        ensures
            r == self.length_spec(),
    {
        self.x.times(self.x).plus(self.y.times(self.y)).plus(self.z.times(self.z)).sqrt()
    }

    #[verifier::when_used_as_spec(normalized_spec)]
    pub fn normalized(self) -> (r: Vector)
        ensures
            r == self.normalized_spec(),
    {
        self.scaled(Scalar::of_bits(ONE).over(self.length()))
    }

    #[verifier::when_used_as_spec(normalized_or_zero_spec)]
    pub fn normalized_or_zero(self) -> (r: Vector)
        ensures
            r == self.normalized_or_zero_spec(),
    {
        let recip: Scalar = Scalar::of_bits(ONE).over(self.length());
        if recip.is_finite() && Scalar::of_bits(ZERO).lt(recip) {
            self.scaled(recip)
        } else {
            Vector::zero()
        }
    }
}

// ---------------------------------------------------------------------------
//  Camera
// ---------------------------------------------------------------------------

#[derive(Clone, Copy, Debug, PartialEq, Eq, Structural)]
pub struct OrbitCamera {
    pub target: Vector,
    pub distance: Scalar,
    /// Rotation about the world +y axis, radians.
    pub yaw: Scalar,
    /// Elevation, radians, clamped just short of the poles to avoid gimbal flip.
    pub pitch: Scalar,
    pub fov_y: Scalar,
    pub znear: Scalar,
    pub zfar: Scalar,
}

/// Sines and cosines of a camera's angles.
#[derive(Clone, Copy, Debug, PartialEq, Eq, Structural)]
pub struct Angles {
    pub sin_yaw: Scalar,
    pub cos_yaw: Scalar,
    pub sin_pitch: Scalar,
    pub cos_pitch: Scalar,
}

/// `1.5533`, about 89 degrees.
pub const PITCH_LIMIT: u32 = 0x3fc6_d289;

/// `2.1`.
pub const START_DISTANCE: u32 = 0x4006_6666;

/// `0.6`.
pub const START_YAW: u32 = 0x3f19_999a;

/// `0.42`.
pub const START_PITCH: u32 = 0x3ed7_0a3d;

/// Fifty degrees, `0.87266463`.
pub const FIELD_OF_VIEW: u32 = 0x3f5f_66f3;

/// `0.002`.
pub const Z_NEAR: u32 = 0x3b03_126f;

/// `100`.
pub const Z_FAR: u32 = 0x42c8_0000;

/// `0.9`, how far a pan across the window moves the target, in distances.
pub const PAN_RATE: u32 = 0x3f66_6666;

/// `0.12`, how much of the distance a notch of the wheel takes.
pub const ZOOM_RATE: u32 = 0x3df5_c28f;

/// `0.02`.
pub const MIN_DISTANCE: u32 = 0x3ca3_d70a;

/// `40`.
pub const MAX_DISTANCE: u32 = 0x4220_0000;

/// `2.4`, the distance a box is framed from, in half-diagonals.
pub const FRAMING: u32 = 0x4019_999a;

impl Default for OrbitCamera {
    fn default() -> (r: OrbitCamera)
        ensures
            r == OrbitCamera::standard(),
    {
        OrbitCamera {
            target: Vector::zero(),
            distance: Scalar::of_bits(START_DISTANCE),
            yaw: Scalar::of_bits(START_YAW),
            pitch: Scalar::of_bits(START_PITCH),
            fov_y: Scalar::of_bits(FIELD_OF_VIEW),
            znear: Scalar::of_bits(Z_NEAR),
            zfar: Scalar::of_bits(Z_FAR),
        }
    }
}

impl OrbitCamera {
    /// Where a view starts from.
    pub open spec fn standard() -> OrbitCamera {
        OrbitCamera {
            target: Vector::zero(),
            distance: Scalar::of_bits(START_DISTANCE),
            yaw: Scalar::of_bits(START_YAW),
            pitch: Scalar::of_bits(START_PITCH),
            fov_y: Scalar::of_bits(FIELD_OF_VIEW),
            znear: Scalar::of_bits(Z_NEAR),
            zfar: Scalar::of_bits(Z_FAR),
        }
    }

    /// From the target to the eye.
    pub open spec fn offset_spec(&self, a: Angles) -> Vector {
        (Vector {
            x: a.cos_pitch.times(a.sin_yaw),
            y: a.sin_pitch,
            z: a.cos_pitch.times(a.cos_yaw),
        }).scaled(self.distance)
    }

    pub open spec fn forward_spec(&self, a: Angles) -> Vector {
        self.offset_spec(a).normalized().negated()
    }

    pub open spec fn eye_spec(&self, a: Angles) -> Vector {
        self.target.plus(self.offset_spec(a))
    }

    pub open spec fn right_spec(&self, a: Angles) -> Vector {
        self.forward_spec(a).cross(Vector::upward()).normalized_or_zero()
    }

    pub open spec fn up_spec(&self, a: Angles) -> Vector {
        self.right_spec(a).cross(self.forward_spec(a)).normalized_or_zero()
    }

    #[verifier::when_used_as_spec(offset_spec)]
    fn offset(&self, a: Angles) -> (r: Vector)
        ensures
            r == self.offset_spec(a),
    {
        let unit: Vector = Vector {
            x: a.cos_pitch.times(a.sin_yaw),
            y: a.sin_pitch,
            z: a.cos_pitch.times(a.cos_yaw),
        };
        unit.scaled(self.distance)
    }

    /// From the eye towards the target.
    #[verifier::when_used_as_spec(forward_spec)]
    pub fn forward(&self, a: Angles) -> (r: Vector)
        ensures
            r == self.forward_spec(a),
    {
        self.offset(a).normalized().negated()
    }

    #[verifier::when_used_as_spec(eye_spec)]
    pub fn eye(&self, a: Angles) -> (r: Vector)
        ensures
            r == self.eye_spec(a),
    {
        self.target.plus(self.offset(a))
    }

    #[verifier::when_used_as_spec(right_spec)]
    pub fn right(&self, a: Angles) -> (r: Vector)
        ensures
            r == self.right_spec(a),
    {
        self.forward(a).cross(Vector::upward()).normalized_or_zero()
    }

    #[verifier::when_used_as_spec(up_spec)]
    pub fn up(&self, a: Angles) -> (r: Vector)
        ensures
            r == self.up_spec(a),
    {
        self.right(a).cross(self.forward(a)).normalized_or_zero()
    }

    /// The camera after a drag.
    pub open spec fn orbited(self, dx: Scalar, dy: Scalar) -> OrbitCamera {
        let limit = Scalar::of_bits(PITCH_LIMIT);
        OrbitCamera {
            yaw: self.yaw.minus(dx),
            pitch: self.pitch.plus(dy).clamp(limit.negated(), limit),
            ..self
        }
    }

    /// Mouse drag, in radians per pixel-ish units.
    pub fn orbit(&mut self, dx: Scalar, dy: Scalar)
        ensures
            *final(self) == old(self).orbited(dx, dy),
    {
        let limit: Scalar = Scalar::of_bits(PITCH_LIMIT);
        self.yaw = self.yaw.minus(dx);
        self.pitch = self.pitch.plus(dy).clamp(limit.negated(), limit);
    }

    pub open spec fn panned(self, a: Angles, dx: Scalar, dy: Scalar) -> OrbitCamera {
        let scale = self.distance.times(Scalar::of_bits(PAN_RATE));
        OrbitCamera {
            target: self.target.plus(
                self.right(a).scaled(dx.negated().times(scale)).plus(
                    self.up(a).scaled(dy.times(scale)),
                ),
            ),
            ..self
        }
    }

    /// Slide the orbit target in the camera plane.  Scaled by distance so the
    /// pan feels the same at every zoom level.
    pub fn pan(&mut self, a: Angles, dx: Scalar, dy: Scalar)
        ensures
            *final(self) == old(self).panned(a, dx, dy),
    {
        let scale: Scalar = self.distance.times(Scalar::of_bits(PAN_RATE));
        let sideways: Vector = self.right(a).scaled(dx.negated().times(scale));
        let upwards: Vector = self.up(a).scaled(dy.times(scale));
        self.target = self.target.plus(sideways.plus(upwards));
    }

    pub open spec fn zoomed(self, amount: Scalar) -> OrbitCamera {
        OrbitCamera {
            distance: self.distance.times(
                Scalar::of_bits(ONE).minus(amount.times(Scalar::of_bits(ZOOM_RATE))),
            ).clamp(Scalar::of_bits(MIN_DISTANCE), Scalar::of_bits(MAX_DISTANCE)),
            ..self
        }
    }

    /// Multiplicative zoom; `amount` is typically the scroll delta.
    pub fn zoom(&mut self, amount: Scalar)
        ensures
            *final(self) == old(self).zoomed(amount),
    {
        let factor: Scalar = Scalar::of_bits(ONE).minus(
            amount.times(Scalar::of_bits(ZOOM_RATE)),
        );
        self.distance = self.distance.times(factor).clamp(
            Scalar::of_bits(MIN_DISTANCE),
            Scalar::of_bits(MAX_DISTANCE),
        );
    }

    pub open spec fn dollied(self, a: Angles, amount: Scalar) -> OrbitCamera {
        OrbitCamera {
            target: self.target.plus(self.forward(a).scaled(amount).scaled(self.distance)),
            ..self
        }
    }

    /// Move the eye along the view direction, keeping the orientation.  Unlike
    /// `zoom` this pushes the target too, so you can fly through the volume.
    pub fn dolly(&mut self, a: Angles, amount: Scalar)
        ensures
            *final(self) == old(self).dollied(a, amount),
    {
        let step: Vector = self.forward(a).scaled(amount).scaled(self.distance);
        self.target = self.target.plus(step);
    }

    pub open spec fn framing(self, half_extent: Vector) -> OrbitCamera {
        OrbitCamera {
            target: Vector::zero(),
            distance: half_extent.length().times(Scalar::of_bits(FRAMING)),
            ..self
        }
    }

    /// Look at the whole of a box around the origin.
    pub fn frame_box(&mut self, half_extent: Vector)
        ensures
            *final(self) == old(self).framing(half_extent),
    {
        self.target = Vector::zero();
        self.distance = half_extent.length().times(Scalar::of_bits(FRAMING));
    }
}

/// A number that is clamped ends up between the bounds.
proof fn lemma_clamped(a: Scalar, low: Scalar, high: Scalar)
    requires
        !a.is_nan(),
        low.le(high),
    ensures
        low.le(a.clamp(low, high)),
        a.clamp(low, high).le(high),
{
}

/// However it is dragged, the camera stays short of the poles.
pub proof fn law_pitch_stays_short_of_the_poles(camera: OrbitCamera, dx: Scalar, dy: Scalar)
    requires
        !camera.pitch.plus(dy).is_nan(),
    ensures
        Scalar::of_bits(PITCH_LIMIT).negated().le(camera.orbited(dx, dy).pitch),
        camera.orbited(dx, dy).pitch.le(Scalar::of_bits(PITCH_LIMIT)),
{
    let limit = Scalar::of_bits(PITCH_LIMIT);
    lemma_clamped(camera.pitch.plus(dy), limit.negated(), limit);
}

/// However it is zoomed, the camera keeps a positive distance.
pub proof fn law_zoom_stays_positive(camera: OrbitCamera, amount: Scalar)
    requires
        !camera.distance.times(
            Scalar::of_bits(ONE).minus(amount.times(Scalar::of_bits(ZOOM_RATE))),
        ).is_nan(),
    ensures
        Scalar::of_bits(MIN_DISTANCE).le(camera.zoomed(amount).distance),
        camera.zoomed(amount).distance.le(Scalar::of_bits(MAX_DISTANCE)),
        Scalar::of_bits(ZERO).lt(camera.zoomed(amount).distance),
{
    let low = Scalar::of_bits(MIN_DISTANCE);
    let high = Scalar::of_bits(MAX_DISTANCE);
    scalar::lemma_units_zero(0);
    scalar::lemma_units_order(0, low.magnitude());
    scalar::lemma_units_order(low.magnitude(), high.magnitude());
    lemma_clamped(
        camera.distance.times(
            Scalar::of_bits(ONE).minus(amount.times(Scalar::of_bits(ZOOM_RATE))),
        ),
        low,
        high,
    );
}

} // verus!
