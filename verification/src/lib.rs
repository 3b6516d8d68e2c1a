//! Host side of a live lattice simulation of bubble nucleation in a
//! first-order phase transition.
//!
//! The lattice itself lives on the graphics device.  This library holds what
//! the host decides: the model and its derived quantities, when and where
//! bubbles appear, what the device is asked to do at every step, what the
//! panel offers and how a session goes on.
//!
//! Numbers are single-precision, kept as [`scalar::Scalar`]s: patterns with
//! correctly rounded arithmetic on them.

use vstd::prelude::*;

pub mod accuracy;
pub mod camera;
pub mod capture;
pub mod config;
pub mod controls;
pub mod dimensions;
pub mod directions;
pub mod figures;
pub mod geometry;
pub mod gpu;
pub mod headless;
pub mod nucleation;
pub mod physics;
pub mod potential;
pub mod random;
pub mod rounding;
pub mod scalar;
pub mod session;
pub mod signed;
pub mod text;
pub mod torus;
pub mod ui;

verus! {

} // verus!
