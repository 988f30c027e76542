//! Ambient light readings.

pub mod applesmc;
pub mod laws;

use vstd::prelude::*;

verus! {

/// How raw sensor values relate to perceived differences.
#[derive(Clone, Copy, Debug, PartialEq, Eq, Structural)]
pub enum Scale {
    /// Illuminance in lux: equal ratios are equally far apart.
    Lux,
    /// A percentage: equal differences are equally far apart.
    Linear,
}

/// One sensor value, and whether the sensor has settled on it.
#[derive(Clone, Copy, Debug, PartialEq, Eq, Structural)]
pub struct Reading {
    pub value: u64,
    pub stable: bool,
}

} // verus!
