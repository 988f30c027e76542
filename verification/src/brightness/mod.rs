//! Screen backlights.

pub mod ddcutil;
pub mod laws;
