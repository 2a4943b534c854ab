//! Single-track rail traffic simulation: route planning across a junction
//! graph, signal-based block reservations, and train kinematics.
use vstd::prelude::*;

pub mod physics;
pub mod routing;
pub mod signals;
pub mod world;
