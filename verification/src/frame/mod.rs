//! Screen frames.

pub mod capturer;
