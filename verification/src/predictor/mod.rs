//! Learns which value the user prefers under which conditions.

use vstd::prelude::*;

pub mod controller;
pub mod data;
pub mod data_laws;

pub use self::controller::Controller;
pub use self::data::{Entry, Kind};

verus! {

/// Whether a learned value grows or shrinks with ambient light.
#[derive(Clone, Copy, Debug, PartialEq, Eq, Structural)]
pub enum AlsDirection {
    Increasing,
    Decreasing,
}

} // verus!
