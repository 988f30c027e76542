//! The parts of the configuration that the library decides on.

use vstd::prelude::*;

verus! {

/// The Wayland protocol that screen frames are captured with.
#[derive(Clone, Copy, Debug, PartialEq, Eq, Structural)]
pub enum WaylandProtocol {
    /// The first one that the compositor supports.
    Any,
    ExtImageCopyCaptureV1,
    WlrScreencopyUnstableV1,
    WlrExportDmabufUnstableV1,
}

/// The way to a PipeWire stream of the screen.
#[derive(Clone, Copy, Debug, PartialEq, Eq, Structural)]
pub enum PipewireProtocol {
    /// The first one that works.
    Any,
    Kwin,
    Mutter,
    Portal,
}

impl WaylandProtocol {
    /// The name of a concrete protocol.
    pub fn actual_name(&self) -> (name: Option<&'static str>)
        ensures
            match *self {
                WaylandProtocol::Any => name is None,
                WaylandProtocol::ExtImageCopyCaptureV1 => name matches Some(name) && name@
                    == "ext-image-copy-capture-v1"@,
                WaylandProtocol::WlrScreencopyUnstableV1 => name matches Some(name) && name@
                    == "wlr-screencopy-unstable-v1"@,
                WaylandProtocol::WlrExportDmabufUnstableV1 => name matches Some(name) && name@
                    == "wlr-export-dmabuf-unstable-v1"@,
            },
    {
        match self {
            WaylandProtocol::Any => None,
            WaylandProtocol::ExtImageCopyCaptureV1 => Some("ext-image-copy-capture-v1"),
            WaylandProtocol::WlrScreencopyUnstableV1 => Some("wlr-screencopy-unstable-v1"),
            WaylandProtocol::WlrExportDmabufUnstableV1 => Some("wlr-export-dmabuf-unstable-v1"),
        }
    }
}

} // verus!
