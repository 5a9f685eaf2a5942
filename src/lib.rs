//! Persistence landscapes of persistence diagrams, computed by a sweep over
//! tent functions and verified against a state-machine model of that sweep.
//!
//! Coordinates are exact: endpoints are integers, and points are held on the
//! half-unit grid (`PointOrd { x, y }` stands for `(x / 2, y / 2)`), where every
//! apex and every crossing of two tents falls.

pub mod point;
pub mod tent;
pub mod event;
pub mod sweep;
pub mod laws;
pub mod critical;
pub mod ranks;
pub mod phases;

pub use point::PointOrd;
pub use tent::{BirthDeath, Extended};
pub use sweep::generate;
