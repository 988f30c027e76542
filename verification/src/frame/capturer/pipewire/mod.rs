//! Capturing screen frames over PipeWire: finding the stream.

pub mod kwin;
pub mod laws;
pub mod mutter;
