//! Capturing screen frames over Wayland.
//!
//! The compositor's objects stay with the caller. The capturer knows which of them exist and
//! decides, event by event, what is asked of the compositor next.

use vstd::prelude::*;

use crate::config::WaylandProtocol;
use crate::text;

use super::{prediction_due, Startup, CAPTURE_INTERVAL, PREDICTION_INTERVAL};

verus! {

/// The time to wait after a frame that was processed.
pub const DELAY_SUCCESS: u64 = CAPTURE_INTERVAL;

/// The time to wait after a frame that failed.
pub const DELAY_FAILURE: u64 = 1_000_000_000;

/// The longest time to wait for events.
pub const POLL_INTERVAL: u64 = 200_000_000;

/// How well a name of an output fits the configured one.
#[derive(Clone, Copy, Debug, PartialEq, Eq, Structural)]
pub enum OutputMatch {
    Substring,
    Exact,
}

/// What a fitting output means for the one that was found before.
#[derive(Clone, Copy, Debug, PartialEq, Eq, Structural)]
pub enum MatchAction {
    Select,
    Replace,
    Ambiguous,
    Ignore,
}

/// A frame that was announced: its size, its format and, for an exported one, its modifier, offset
/// and stride.
#[derive(Clone, Copy, Debug, PartialEq, Eq)]
pub struct Frame {
    pub width: u32,
    pub height: u32,
    pub num_objects: u32,
    pub format: u32,
    pub layout: Option<(u64, u32, u32)>,
}

/// Why capturing ends while it runs.
#[derive(Clone, Copy, Debug, PartialEq, Eq, Structural)]
pub enum Failure {
    /// The luma of a frame could not be computed.
    ProcessFrame,
    /// No buffer with the requested properties could be made.
    ExportBuffer,
    /// The compositor named a main device that is none.
    InvalidMainDevice,
    /// The compositor named an allocation device that is none.
    InvalidAllocationDevice,
    /// Vulkan does not work on the compositor's device.
    InitializeVulkan,
    /// No offered format and modifier can be exported.
    NoUsableFormat,
}

/// Why capturing does not begin.
#[derive(Clone, Copy, Debug, PartialEq, Eq, Structural)]
pub enum StartError {
    /// No output fits the configured name.
    NoOutput,
    /// Several outputs fit the configured name equally well.
    AmbiguousOutput,
    /// The requested protocol is not available.
    Unavailable(WaylandProtocol),
    /// The capture sources that the requested protocol needs are not available.
    NoCaptureSource,
    /// The buffers that the requested protocol needs are not available.
    NoDmabuf(WaylandProtocol),
    /// No protocol is available.
    NoProtocol,
}

/// A kind of global object of the compositor.
#[derive(Clone, Copy, Debug, PartialEq, Eq, Structural)]
pub enum Global {
    Output,
    ExportDmabufManager,
    LinuxDmabuf,
    ScreencopyManager,
    CaptureSourceManager,
    CopyCaptureManager,
    Other,
}

/// What to do with a global object that appeared.
#[derive(Clone, Copy, Debug, PartialEq, Eq, Structural)]
pub enum Binding {
    Ignore,
    /// Bind it.
    Bind,
    /// Bind it and ask for its default feedback.
    BindWithFeedback,
}

/// The device to compute on.
#[derive(Debug)]
pub enum VulkanChoice {
    /// The configured one.
    Path(String),
    /// The compositor's one.
    Drm(u32, u32),
    /// Any.
    Default,
}

/// What to ask of the compositor.
#[derive(Clone, Copy, Debug, PartialEq, Eq)]
pub enum Request {
    /// Create the session if there is none, then capture a frame of this size if there is a buffer.
    CopyCapture { create_session: bool, frame: Option<(u32, u32)> },
    Screencopy,
    ExportDmabuf,
}

/// A step of the capture loop.
#[derive(Clone, Copy, Debug, PartialEq, Eq)]
pub enum Step {
    /// The capturer is no longer wanted.
    Finished,
    /// The frames that had to come in time did not.
    TooFewFrames { captured: usize, required: usize },
    /// Wait for events.
    Wait,
    /// Ask this, then wait for events.
    Request(Request),
}

/// What became of a frame.
#[derive(Clone, Copy, Debug, PartialEq, Eq, Structural)]
pub enum Processed {
    /// It could not be processed, and capturing ends.
    Failed,
    /// Discard stale inputs first if asked to, then adjust to the luma, then wait.
    Adjust { discard_stale_inputs: bool, luma: u8, delay: u64 },
}

/// What the constraints of a screencopy frame ask for.
#[derive(Clone, Copy, Debug, PartialEq, Eq)]
pub struct Screencopy {
    /// Destroy the present buffer.
    pub destroy_buffer: bool,
    /// Export a buffer for this frame before copying.
    pub export: Option<Frame>,
}

/// What the constraints of a capture session ask for.
#[derive(Debug)]
pub enum Constraints {
    /// Nothing: capturing ends.
    Ignore,
    /// Destroy the present buffer if there is one; no offered format can be used.
    Unusable { destroy_buffer: bool },
    /// Destroy the present buffer if there is one, and export one for this frame with one of these
    /// modifiers.
    Export { destroy_buffer: bool, frame: Frame, modifiers: Vec<u64> },
}

/// Whether and how well a name or a description fits the configured name.
pub open spec fn spec_output_match(value: Seq<char>, desired_output: Seq<char>, exact: bool) -> Option<OutputMatch> {
    if desired_output.len() == 0 || !text::contained(value, desired_output) {
        None
    } else if exact && value == desired_output {
        Some(OutputMatch::Exact)
    } else {
        Some(OutputMatch::Substring)
    }
}

pub fn output_match(value: &str, desired_output: &str, exact: bool) -> (quality: Option<OutputMatch>)
    ensures
        quality == spec_output_match(value@, desired_output@, exact),
{
    if desired_output.unicode_len() == 0 || !text::contains(value, desired_output) {
        None
    } else if exact && text::equal(value, desired_output) {
        Some(OutputMatch::Exact)
    } else {
        Some(OutputMatch::Substring)
    }
}

pub open spec fn spec_match_action(
    current: Option<OutputMatch>,
    candidate: OutputMatch,
    same_output: bool,
) -> MatchAction {
    match current {
        None => MatchAction::Select,
        Some(current) => if candidate == OutputMatch::Exact && current == OutputMatch::Substring {
            MatchAction::Replace
        } else if candidate == current && !same_output {
            MatchAction::Ambiguous
        } else {
            MatchAction::Ignore
        },
    }
}

/// What a fitting output means: a better match replaces the present one, an equally good match of
/// another output makes the choice ambiguous.
pub fn match_action(current: Option<OutputMatch>, candidate: OutputMatch, same_output: bool) -> (action: MatchAction)
    ensures
        action == spec_match_action(current, candidate, same_output),
{
    match current {
        None => MatchAction::Select,
        Some(current) => if candidate == OutputMatch::Exact && current == OutputMatch::Substring {
            MatchAction::Replace
        } else if candidate == current && !same_output {
            MatchAction::Ambiguous
        } else {
            MatchAction::Ignore
        },
    }
}

/// The number whose bytes are given from the least significant one on.
pub open spec fn little_endian(bytes: Seq<u8>) -> int
    decreases bytes.len(),
{
    if bytes.len() == 0 {
        0
    } else {
        bytes.first() + 256 * little_endian(bytes.drop_first())
    }
}

/// The order in which the bytes of a number lie in memory.
#[derive(Clone, Copy, Debug, PartialEq, Eq, Structural)]
pub enum ByteOrder {
    /// From the least significant byte on.
    Little,
    /// From the most significant byte on.
    Big,
}

/// The number that bytes hold in memory in a byte order.
pub open spec fn number(bytes: Seq<u8>, order: ByteOrder) -> int {
    match order {
        ByteOrder::Little => little_endian(bytes),
        ByteOrder::Big => little_endian(bytes.reverse()),
    }
}

/// Whether a number has these bytes in memory, on a machine of either byte order.
pub open spec fn in_memory(value: u64, bytes: Seq<u8>) -> bool {
    value == number(bytes, ByteOrder::Little) || value == number(bytes, ByteOrder::Big)
}

/// `u64::from_ne_bytes`: the number that the bytes hold in memory. Which of the two byte orders it
/// is depends on the machine and is left open.
#[verifier::external_body]
fn u64_from_ne_bytes(bytes: [u8; 8]) -> (value: u64)
    ensures
        in_memory(value, bytes@),
{
    u64::from_ne_bytes(bytes)
}

/// The byte order in which a one that is followed by seven zeros reads as this number.
pub open spec fn order_of(one: u64) -> ByteOrder {
    if one == 1 {
        ByteOrder::Little
    } else {
        ByteOrder::Big
    }
}

/// The byte order of this machine: the one in which it reads a one and seven zeros. Which one that is
/// is left open.
fn native_order() -> (order: ByteOrder)
    ensures
        exists|one: u64|
            in_memory(one, seq![1u8, 0, 0, 0, 0, 0, 0, 0]) && order == #[trigger] order_of(one),
{
    let probe: [u8; 8] = [1, 0, 0, 0, 0, 0, 0, 0];
    let one: u64 = u64_from_ne_bytes(probe);
    assert(probe@ =~= seq![1u8, 0, 0, 0, 0, 0, 0, 0]);
    let order = if one == 1 {
        ByteOrder::Little
    } else {
        ByteOrder::Big
    };
    assert(order == order_of(one));
    order
}

pub open spec fn spec_major(device: u64) -> u32 {
    (((device & 0x0000_0000_000f_ff00) >> 8) | ((device & 0xffff_f000_0000_0000) >> 32)) as u32
}

pub open spec fn spec_minor(device: u64) -> u32 {
    ((device & 0x0000_0000_0000_00ff) | ((device & 0x0000_0fff_fff0_0000) >> 12)) as u32
}

/// `libc::major`: bits 8 to 19 of a device number, and above them its bits 44 to 63.
#[verifier::external_body]
fn major(device: u64) -> (number: u32)
    ensures
        number == spec_major(device),
{
    libc::major(device)
}

/// `libc::minor`: bits 0 to 7 of a device number, and above them its bits 20 to 43.
#[verifier::external_body]
fn minor(device: u64) -> (number: u32)
    ensures
        number == spec_minor(device),
{
    libc::minor(device)
}

/// The major and the minor part of a device number.
pub fn device_numbers(device: u64) -> (numbers: (u32, u32))
    ensures
        numbers == (spec_major(device), spec_minor(device)),
{
    (major(device), minor(device))
}

fn join(bytes: [u8; 8]) -> (value: u64)
    ensures
        value == little_endian(bytes@),
{
    proof {
        reveal_with_fuel(little_endian, 9);
        let rest = bytes@;
        assert(rest.skip(0) =~= rest);
        assert forall|i: int| 0 <= i < 8 implies #[trigger] rest.skip(i).drop_first() == rest.skip(
            i + 1,
        ) by {
            assert(rest.skip(i).drop_first() =~= rest.skip(i + 1));
        }
        assert(little_endian(rest.skip(7)) == bytes[7]);
        assert(little_endian(rest.skip(6)) == bytes[6] + 256 * little_endian(rest.skip(7)));
        assert(little_endian(rest.skip(5)) == bytes[5] + 256 * little_endian(rest.skip(6)));
        assert(little_endian(rest.skip(4)) == bytes[4] + 256 * little_endian(rest.skip(5)));
        assert(little_endian(rest.skip(3)) == bytes[3] + 256 * little_endian(rest.skip(4)));
        assert(little_endian(rest.skip(2)) == bytes[2] + 256 * little_endian(rest.skip(3)));
        assert(little_endian(rest.skip(1)) == bytes[1] + 256 * little_endian(rest.skip(2)));
        assert(little_endian(rest.skip(0)) == bytes[0] + 256 * little_endian(rest.skip(1)));
    }
    let high: u64 = bytes[4] as u64 + 256 * (bytes[5] as u64 + 256 * (bytes[6] as u64 + 256 * (
    bytes[7] as u64)));
    bytes[0] as u64 + 256 * (bytes[1] as u64 + 256 * (bytes[2] as u64 + 256 * (bytes[3] as u64
        + 256 * high)))
}

fn eight_bytes(bytes: &[u8], from: usize, order: ByteOrder) -> (value: u64)
    requires
        from + 8 <= bytes.len(),
    ensures
        value == number(bytes@.subrange(from as int, from + 8), order),
{
    let ghost chunk = bytes@.subrange(from as int, from + 8);
    let (first, second, third, fourth): (u8, u8, u8, u8) = (
        bytes[from],
        bytes[from + 1],
        bytes[from + 2],
        bytes[from + 3],
    );
    let (fifth, sixth, seventh, eighth): (u8, u8, u8, u8) = (
        bytes[from + 4],
        bytes[from + 5],
        bytes[from + 6],
        bytes[from + 7],
    );
    let array: [u8; 8] = match order {
        ByteOrder::Little => [first, second, third, fourth, fifth, sixth, seventh, eighth],
        ByteOrder::Big => [eighth, seventh, sixth, fifth, fourth, third, second, first],
    };
    proof {
        match order {
            ByteOrder::Little => assert(array@ =~= chunk),
            ByteOrder::Big => assert(array@ =~= chunk.reverse()),
        }
    }
    join(array)
}

/// The major and the minor number of the device whose number these bytes hold in a byte order, if
/// they are eight.
pub open spec fn device_in(bytes: Seq<u8>, order: ByteOrder) -> Option<(u32, u32)> {
    if bytes.len() == 8 {
        let device = number(bytes, order) as u64;
        Some((spec_major(device), spec_minor(device)))
    } else {
        None
    }
}

/// The major and the minor number of a device, from the bytes that hold its number in a byte order.
pub fn parse_drm_device_in(bytes: &[u8], order: ByteOrder) -> (device: Option<(u32, u32)>)
    ensures
        device == device_in(bytes@, order),
{
    if bytes.len() != 8 {
        return None;
    }
    let number: u64 = eight_bytes(bytes, 0, order);
    assert(bytes@.subrange(0, 8) =~= bytes@);
    Some(device_numbers(number))
}

/// The major and the minor number of a device, from the bytes that hold its number in memory: it is
/// read in the byte order of this machine.
pub fn parse_drm_device(bytes: &[u8]) -> (device: Option<(u32, u32)>)
    ensures
        device is Some <==> bytes@.len() == 8,
        exists|order: ByteOrder| device == #[trigger] device_in(bytes@, order),
{
    let order = native_order();
    let device = parse_drm_device_in(bytes, order);
    assert(device == device_in(bytes@, order));
    device
}

/// Eight bytes of a list of modifiers.
pub open spec fn chunk(bytes: Seq<u8>, index: int) -> Seq<u8> {
    bytes.subrange(8 * index, 8 * index + 8)
}

/// The modifiers that bytes hold in a byte order.
pub open spec fn modifiers_in(bytes: Seq<u8>, order: ByteOrder) -> Seq<u64> {
    Seq::new(bytes.len() / 8, |index: int| number(chunk(bytes, index), order) as u64)
}

/// The modifiers of a format, from the bytes that hold them in a byte order. Bytes that are too few
/// for another modifier are left out.
pub fn parse_modifiers(bytes: &[u8], order: ByteOrder) -> (modifiers: Vec<u64>)
    ensures
        modifiers@ == modifiers_in(bytes@, order),
{
    let mut modifiers: Vec<u64> = Vec::new();
    let mut at: usize = 0;
    while bytes.len() - at >= 8
        invariant
            at <= bytes.len(),
            at == 8 * modifiers.len(),
            forall|i: int|
                0 <= i < modifiers@.len() ==> #[trigger] modifiers@[i] == number(
                    chunk(bytes@, i),
                    order,
                ),
        decreases bytes.len() - at,
    {
        let modifier: u64 = eight_bytes(bytes, at, order);
        modifiers.push(modifier);
        at += 8;
    }
    assert(modifiers@ =~= modifiers_in(bytes@, order));
    modifiers
}

/// The modifier whose halves are given.
pub fn join_modifier(high: u32, low: u32) -> (modifier: u64)
    ensures
        modifier == high * 0x1_0000_0000 + low,
{
    high as u64 * 0x1_0000_0000 + low as u64
}

/// The halves of a modifier, the higher one first.
pub fn split_modifier(modifier: u64) -> (halves: (u32, u32))
    ensures
        halves.0 * 0x1_0000_0000 + halves.1 == modifier,
{
    let high: u64 = modifier / 0x1_0000_0000;
    let low: u64 = modifier % 0x1_0000_0000;
    (high as u32, low as u32)
}

/// The offered modifiers that can be exported, in the order of the offer.
pub open spec fn usable(offered: Seq<u64>, supported: Option<Vec<u64>>) -> Seq<u64> {
    match supported {
        Some(supported) => offered.filter(|modifier: u64| supported@.contains(modifier)),
        None => Seq::empty(),
    }
}

/// The place of the first format of which a modifier can be used, or the number of formats if there
/// is none.
pub open spec fn first_usable(formats: Seq<(u32, Vec<u64>)>, supported: Seq<Option<Vec<u64>>>) -> int
    decreases formats.len(),
{
    if formats.len() == 0 || usable(formats.first().1@, supported.first()).len() > 0 {
        0
    } else {
        1 + first_usable(formats.drop_first(), supported.drop_first())
    }
}

fn usable_modifiers(offered: &Vec<u64>, supported: &Option<Vec<u64>>) -> (modifiers: Vec<u64>)
    ensures
        modifiers@ == usable(offered@, *supported),
{
    let mut modifiers: Vec<u64> = Vec::new();
    if let Some(list) = supported {
        let ghost keep = |modifier: u64| list@.contains(modifier);
        let mut i: usize = 0;
        while i < offered.len()
            invariant
                i <= offered.len(),
                keep == (|modifier: u64| list@.contains(modifier)),
                modifiers@ == offered@.take(i as int).filter(keep),
            decreases offered.len() - i,
        {
            let modifier: u64 = offered[i];
            let mut found = false;
            let mut j: usize = 0;
            while j < list.len() && !found
                invariant
                    j <= list.len(),
                    found ==> list@.contains(modifier),
                    !found ==> forall|k: int| 0 <= k < j ==> list[k] != modifier,
                decreases list.len() - j,
            {
                if list[j] == modifier {
                    assert(list@[j as int] == modifier);
                    found = true;
                }
                j += 1;
            }
            proof {
                let next = offered@.take(i + 1);
                assert(next.drop_last() =~= offered@.take(i as int));
                assert(next.last() == modifier);
                reveal(Seq::filter);
            }
            if found {
                modifiers.push(modifier);
            }
            i += 1;
        }
        assert(offered@.take(offered.len() as int) =~= offered@);
    }
    modifiers
}

proof fn lemma_first_usable(formats: Seq<(u32, Vec<u64>)>, supported: Seq<Option<Vec<u64>>>, at: int)
    requires
        formats.len() == supported.len(),
        0 <= at <= formats.len(),
        forall|i: int| 0 <= i < at ==> usable((#[trigger] formats[i]).1@, supported[i]).len() == 0,
        at == formats.len() || usable(formats[at].1@, supported[at]).len() > 0,
    ensures
        first_usable(formats, supported) == at,
    decreases formats.len(),
{
    if at > 0 {
        let rest = formats.drop_first();
        let others = supported.drop_first();
        assert(usable(formats[0].1@, supported[0]).len() == 0);
        assert forall|i: int| 0 <= i < at - 1 implies usable(
            (#[trigger] rest[i]).1@,
            others[i],
        ).len() == 0 by {
            assert(rest[i] == formats[i + 1]);
        }
        if at < formats.len() {
            assert(rest[at - 1] == formats[at]);
        }
        lemma_first_usable(rest, others, at - 1);
    }
}

/// How long to wait for events in milliseconds, at most until a deadline.
pub fn poll_timeout(now: u64, deadline: u64) -> (timeout: i32)
    ensures
        timeout == (if super::remaining(now, deadline) < POLL_INTERVAL {
            super::remaining(now, deadline)
        } else {
            POLL_INTERVAL as int
        }) / 1_000_000,
{
    let remaining: u64 = if now < deadline {
        deadline - now
    } else {
        0
    };
    let timeout: u64 = if remaining < POLL_INTERVAL {
        remaining
    } else {
        POLL_INTERVAL
    };
    (timeout / 1_000_000) as i32
}

/// How waiting for the compositor's answer goes on.
#[derive(Clone, Copy, Debug, PartialEq, Eq, Structural)]
pub enum Roundtrip {
    /// The answer is there.
    Done,
    /// The answer did not come in time.
    TimedOut,
    /// Dispatch events, then wait for more of them.
    Dispatch,
}

/// Decides how waiting for the compositor's answer goes on.
pub fn roundtrip(done: bool, now: u64, deadline: u64) -> (step: Roundtrip)
    ensures
        step == (if done {
            Roundtrip::Done
        } else if now >= deadline {
            Roundtrip::TimedOut
        } else {
            Roundtrip::Dispatch
        }),
{
    if done {
        Roundtrip::Done
    } else if now >= deadline {
        Roundtrip::TimedOut
    } else {
        Roundtrip::Dispatch
    }
}

/// What polling for events brought.
#[derive(Clone, Copy, Debug, PartialEq, Eq, Structural)]
pub enum Polled {
    /// There are events to read.
    Ready,
    /// There are none yet.
    Idle,
    /// Polling failed.
    Failed,
}

/// What the result of polling means.
pub fn polled(ready: i32) -> (outcome: Polled)
    ensures
        outcome == (if ready > 0 {
            Polled::Ready
        } else if ready < 0 {
            Polled::Failed
        } else {
            Polled::Idle
        }),
{
    if ready > 0 {
        Polled::Ready
    } else if ready < 0 {
        Polled::Failed
    } else {
        Polled::Idle
    }
}

/// Captures one output's frames.
#[derive(Debug)]
pub struct Capturer {
    pub protocol: WaylandProtocol,
    /// The byte order in which the compositor's numbers are read.
    pub byte_order: ByteOrder,
    /// A frame was requested and is not settled yet.
    pub is_processing_frame: bool,
    pub vulkan: bool,
    pub vulkan_device: Option<String>,
    pub drm_device: Option<(u32, u32)>,
    pub output: Option<u32>,
    pub output_global_id: Option<u32>,
    pub output_match: Option<OutputMatch>,
    pub output_match_ambiguous: bool,
    pub pending_frame: Option<Frame>,
    pub dmabuf_formats: Vec<(u32, Vec<u64>)>,
    pub failure: Option<Failure>,
    pub successful_frames: usize,
    pub latest_luma: Option<u8>,
    pub last_adjustment: Option<u64>,
    pub discard_stale_inputs_before_first_frame: bool,
    // linux-dmabuf-v1
    pub dmabuf: bool,
    pub wl_buffer: bool,
    // ext-image-capture-source-v1
    pub img_capture_source_manager: bool,
    // ext-image-copy-capture-v1
    pub img_copy_capture_manager: bool,
    pub img_copy_capture_session: bool,
    // wlr-screencopy-unstable-v1
    pub screencopy_manager: bool,
    // wlr-export-dmabuf-unstable-v1
    pub dmabuf_manager: bool,
}

impl Capturer {
    /// The state of the match belongs to a chosen output.
    pub open spec fn well_formed(&self) -> bool {
        &&& self.output is Some <==> self.output_match is Some
        &&& self.output_match_ambiguous ==> self.output is Some
    }

    /// A buffer that frames are copied to in a session belongs to a known frame.
    pub open spec fn knows_buffer(&self) -> bool {
        self.protocol == WaylandProtocol::ExtImageCopyCaptureV1 && self.wl_buffer
            ==> self.pending_frame is Some
    }

    /// Whether the compositor has what a protocol needs.
    pub open spec fn supports(&self, protocol: WaylandProtocol) -> bool {
        match protocol {
            WaylandProtocol::Any => false,
            WaylandProtocol::ExtImageCopyCaptureV1 => self.img_copy_capture_manager
                && self.img_capture_source_manager && self.dmabuf,
            WaylandProtocol::WlrScreencopyUnstableV1 => self.screencopy_manager && self.dmabuf,
            WaylandProtocol::WlrExportDmabufUnstableV1 => self.dmabuf_manager,
        }
    }

    pub open spec fn spec_supported_protocols(&self) -> Seq<WaylandProtocol> {
        seq![
            WaylandProtocol::ExtImageCopyCaptureV1,
            WaylandProtocol::WlrScreencopyUnstableV1,
            WaylandProtocol::WlrExportDmabufUnstableV1,
        ].filter(|protocol: WaylandProtocol| self.supports(protocol))
    }

    /// A capturer that nothing is known to yet. It reads numbers in the byte order of this machine,
    /// which is left open.
    pub fn new(protocol: WaylandProtocol) -> (capturer: Self)
        ensures
            capturer.well_formed(),
            capturer.protocol == protocol,
            !capturer.is_processing_frame,
            !capturer.vulkan,
            capturer.vulkan_device is None,
            capturer.drm_device is None,
            capturer.output is None,
            capturer.output_global_id is None,
            capturer.pending_frame is None,
            capturer.dmabuf_formats@.len() == 0,
            capturer.failure is None,
            capturer.successful_frames == 0,
            capturer.latest_luma is None,
            capturer.last_adjustment is None,
            !capturer.discard_stale_inputs_before_first_frame,
            !capturer.dmabuf,
            !capturer.wl_buffer,
            !capturer.img_capture_source_manager,
            !capturer.img_copy_capture_manager,
            !capturer.img_copy_capture_session,
            !capturer.screencopy_manager,
            !capturer.dmabuf_manager,
    {
        Capturer {
            protocol,
            byte_order: native_order(),
            is_processing_frame: false,
            vulkan: false,
            vulkan_device: None,
            drm_device: None,
            output: None,
            output_global_id: None,
            output_match: None,
            output_match_ambiguous: false,
            pending_frame: None,
            dmabuf_formats: Vec::new(),
            failure: None,
            successful_frames: 0,
            latest_luma: None,
            last_adjustment: None,
            discard_stale_inputs_before_first_frame: false,
            dmabuf: false,
            wl_buffer: false,
            img_capture_source_manager: false,
            img_copy_capture_manager: false,
            img_copy_capture_session: false,
            screencopy_manager: false,
            dmabuf_manager: false,
        }
    }

    pub fn protocol(&self) -> (protocol: &WaylandProtocol)
        ensures
            *protocol == self.protocol,
    {
        &self.protocol
    }

    fn has(&self, protocol: WaylandProtocol) -> (supported: bool)
        ensures
            supported == self.supports(protocol),
    {
        match protocol {
            WaylandProtocol::Any => false,
            WaylandProtocol::ExtImageCopyCaptureV1 => self.img_copy_capture_manager
                && self.img_capture_source_manager && self.dmabuf,
            WaylandProtocol::WlrScreencopyUnstableV1 => self.screencopy_manager && self.dmabuf,
            WaylandProtocol::WlrExportDmabufUnstableV1 => self.dmabuf_manager,
        }
    }

    /// The protocols that the compositor's globals allow, the preferred ones first.
    pub fn supported_protocols(&self) -> (protocols: Vec<WaylandProtocol>)
        ensures
            protocols@ == self.spec_supported_protocols(),
    {
        let mut protocols: Vec<WaylandProtocol> = Vec::new();
        if self.has(WaylandProtocol::ExtImageCopyCaptureV1) {
            protocols.push(WaylandProtocol::ExtImageCopyCaptureV1);
        }
        if self.has(WaylandProtocol::WlrScreencopyUnstableV1) {
            protocols.push(WaylandProtocol::WlrScreencopyUnstableV1);
        }
        if self.has(WaylandProtocol::WlrExportDmabufUnstableV1) {
            protocols.push(WaylandProtocol::WlrExportDmabufUnstableV1);
        }
        proof {
            lemma_filter_three(
                WaylandProtocol::ExtImageCopyCaptureV1,
                WaylandProtocol::WlrScreencopyUnstableV1,
                WaylandProtocol::WlrExportDmabufUnstableV1,
                |protocol: WaylandProtocol| self.supports(protocol),
            );
        }
        assert(protocols@ =~= self.spec_supported_protocols());
        protocols
    }

    /// Takes over how this run is configured.
    pub fn begin(&mut self, vulkan_device: Option<String>, startup: &Startup)
        requires
            old(self).well_formed(),
        ensures
            final(self).well_formed(),
            *final(self) == (Capturer {
                vulkan_device,
                discard_stale_inputs_before_first_frame: startup.discard_stale_inputs_before_first_frame,
                ..*old(self)
            }),
    {
        self.vulkan_device = vulkan_device;
        self.discard_stale_inputs_before_first_frame =
            startup.discard_stale_inputs_before_first_frame;
    }

    /// The protocol to use, or why there is none.
    pub open spec fn selection(&self) -> Result<WaylandProtocol, StartError> {
        if self.output is None {
            Err(StartError::NoOutput)
        } else if self.output_match_ambiguous {
            Err(StartError::AmbiguousOutput)
        } else {
            self.choice()
        }
    }

    /// The protocol that the configuration and the compositor allow, or what is missing.
    pub open spec fn choice(&self) -> Result<WaylandProtocol, StartError> {
        let protocol = self.protocol;
        match protocol {
            WaylandProtocol::ExtImageCopyCaptureV1 => if !self.img_copy_capture_manager {
                Err(StartError::Unavailable(protocol))
            } else if !self.img_capture_source_manager {
                Err(StartError::NoCaptureSource)
            } else if !self.dmabuf {
                Err(StartError::NoDmabuf(protocol))
            } else {
                Ok(protocol)
            },
            WaylandProtocol::WlrScreencopyUnstableV1 => if !self.screencopy_manager {
                Err(StartError::Unavailable(protocol))
            } else if !self.dmabuf {
                Err(StartError::NoDmabuf(protocol))
            } else {
                Ok(protocol)
            },
            WaylandProtocol::WlrExportDmabufUnstableV1 => if !self.dmabuf_manager {
                Err(StartError::Unavailable(protocol))
            } else {
                Ok(protocol)
            },
            WaylandProtocol::Any => if self.supports(WaylandProtocol::ExtImageCopyCaptureV1) {
                Ok(WaylandProtocol::ExtImageCopyCaptureV1)
            } else if self.supports(WaylandProtocol::WlrScreencopyUnstableV1) {
                Ok(WaylandProtocol::WlrScreencopyUnstableV1)
            } else if self.supports(WaylandProtocol::WlrExportDmabufUnstableV1) {
                Ok(WaylandProtocol::WlrExportDmabufUnstableV1)
            } else {
                Err(StartError::NoProtocol)
            },
        }
    }

    fn pick(&self) -> (choice: Result<WaylandProtocol, StartError>)
        ensures
            choice == self.choice(),
    {
        let protocol = self.protocol;
        match protocol {
            WaylandProtocol::ExtImageCopyCaptureV1 => if !self.img_copy_capture_manager {
                Err(StartError::Unavailable(protocol))
            } else if !self.img_capture_source_manager {
                Err(StartError::NoCaptureSource)
            } else if !self.dmabuf {
                Err(StartError::NoDmabuf(protocol))
            } else {
                Ok(protocol)
            },
            WaylandProtocol::WlrScreencopyUnstableV1 => if !self.screencopy_manager {
                Err(StartError::Unavailable(protocol))
            } else if !self.dmabuf {
                Err(StartError::NoDmabuf(protocol))
            } else {
                Ok(protocol)
            },
            WaylandProtocol::WlrExportDmabufUnstableV1 => if !self.dmabuf_manager {
                Err(StartError::Unavailable(protocol))
            } else {
                Ok(protocol)
            },
            WaylandProtocol::Any => {
                if self.has(WaylandProtocol::ExtImageCopyCaptureV1) {
                    Ok(WaylandProtocol::ExtImageCopyCaptureV1)
                } else if self.has(WaylandProtocol::WlrScreencopyUnstableV1) {
                    Ok(WaylandProtocol::WlrScreencopyUnstableV1)
                } else if self.has(WaylandProtocol::WlrExportDmabufUnstableV1) {
                    Ok(WaylandProtocol::WlrExportDmabufUnstableV1)
                } else {
                    Err(StartError::NoProtocol)
                }
            },
        }
    }

    /// Settles on a protocol once the compositor's globals and outputs are known.
    pub fn select_protocol(&mut self) -> (selected: Result<WaylandProtocol, StartError>)
        requires
            old(self).well_formed(),
        ensures
            final(self).well_formed(),
            selected == old(self).selection(),
            match selected {
                Ok(protocol) => {
                    &&& *final(self) == (Capturer { protocol, ..*old(self) })
                    &&& final(self).supports(protocol)
                },
                Err(_) => *final(self) == *old(self),
            },
    {
        if self.output.is_none() {
            return Err(StartError::NoOutput);
        }
        if self.output_match_ambiguous {
            return Err(StartError::AmbiguousOutput);
        }
        match self.pick() {
            Ok(protocol) => {
                self.protocol = protocol;
                Ok(protocol)
            },
            Err(error) => Err(error),
        }
    }

    /// The device to compute on: the configured one, else the compositor's one, else any.
    pub fn vulkan_choice(&self) -> (choice: VulkanChoice)
        ensures
            match self.vulkan_device {
                Some(path) => choice matches VulkanChoice::Path(chosen) && chosen@ == path@,
                None => match self.drm_device {
                    Some((major, minor)) => choice == VulkanChoice::Drm(major, minor),
                    None => choice == VulkanChoice::Default,
                },
            },
    {
        match &self.vulkan_device {
            Some(path) => VulkanChoice::Path(path.clone()),
            None => match self.drm_device {
                Some((major, minor)) => VulkanChoice::Drm(major, minor),
                None => VulkanChoice::Default,
            },
        }
    }

    /// Notes that Vulkan is ready.
    pub fn vulkan_ready(&mut self)
        requires
            old(self).well_formed(),
        ensures
            final(self).well_formed(),
            *final(self) == (Capturer { vulkan: true, ..*old(self) }),
    {
        self.vulkan = true;
    }

    /// What is asked of the compositor while no frame is being processed.
    pub open spec fn request(&self) -> Request {
        match self.protocol {
            WaylandProtocol::ExtImageCopyCaptureV1 => Request::CopyCapture {
                create_session: !self.img_copy_capture_session,
                frame: if self.wl_buffer {
                    Some((self.pending_frame->0.width, self.pending_frame->0.height))
                } else {
                    None
                },
            },
            WaylandProtocol::WlrScreencopyUnstableV1 => Request::Screencopy,
            _ => Request::ExportDmabuf,
        }
    }

    pub open spec fn spec_step(&self, active: bool, startup: Startup, now: u64) -> Step {
        if !active {
            Step::Finished
        } else if self.successful_frames < startup.required_frames && now >= startup.deadline {
            Step::TooFewFrames {
                captured: self.successful_frames,
                required: startup.required_frames,
            }
        } else if self.is_processing_frame || self.output is None {
            Step::Wait
        } else {
            Step::Request(self.request())
        }
    }

    /// The state once a request was made: a session exists if one was asked for, and a frame is being
    /// processed if one was asked for.
    pub open spec fn requested(self, request: Request) -> Capturer {
        match request {
            Request::CopyCapture { frame, .. } => Capturer {
                img_copy_capture_session: true,
                is_processing_frame: frame is Some,
                ..self
            },
            _ => Capturer { is_processing_frame: true, ..self },
        }
    }

    /// Decides what to ask of the compositor before waiting for events.
    pub fn step(&mut self, active: bool, startup: &Startup, now: u64) -> (step: Step)
        requires
            old(self).well_formed(),
            old(self).supports(old(self).protocol),
            old(self).knows_buffer(),
        ensures
            final(self).well_formed(),
            step == old(self).spec_step(active, *startup, now),
            match step {
                Step::Request(request) => *final(self) == old(self).requested(request),
                _ => *final(self) == *old(self),
            },
    {
        if !active {
            return Step::Finished;
        }
        if self.successful_frames < startup.required_frames && now >= startup.deadline {
            return Step::TooFewFrames {
                captured: self.successful_frames,
                required: startup.required_frames,
            };
        }
        if self.is_processing_frame || self.output.is_none() {
            return Step::Wait;
        }
        match self.protocol {
            WaylandProtocol::ExtImageCopyCaptureV1 => {
                let create_session = !self.img_copy_capture_session;
                self.img_copy_capture_session = true;
                let frame: Option<(u32, u32)> = match self.pending_frame {
                    Some(frame) => if self.wl_buffer {
                        self.is_processing_frame = true;
                        Some((frame.width, frame.height))
                    } else {
                        None
                    },
                    None => None,
                };
                Step::Request(Request::CopyCapture { create_session, frame })
            },
            WaylandProtocol::WlrScreencopyUnstableV1 => {
                self.is_processing_frame = true;
                Step::Request(Request::Screencopy)
            },
            _ => {
                self.is_processing_frame = true;
                Step::Request(Request::ExportDmabuf)
            },
        }
    }

    /// Hands over the failure that the last events brought.
    pub fn take_failure(&mut self) -> (failure: Option<Failure>)
        requires
            old(self).well_formed(),
        ensures
            final(self).well_formed(),
            failure == old(self).failure,
            *final(self) == (Capturer { failure: None, ..*old(self) }),
    {
        let failure = self.failure;
        self.failure = None;
        failure
    }

    /// The state after a frame of this luma.
    pub open spec fn with_luma(self, luma: u8, now: u64) -> Capturer {
        Capturer {
            discard_stale_inputs_before_first_frame: false,
            latest_luma: Some(luma),
            successful_frames: (self.successful_frames + 1) as usize,
            last_adjustment: Some(now),
            ..self
        }
    }

    /// Takes in a frame's luma and says whether stale inputs are to be discarded before adjusting.
    pub fn process_luma(&mut self, luma: u8, now: u64) -> (discard_stale_inputs: bool)
        requires
            old(self).well_formed(),
            old(self).successful_frames < usize::MAX,
        ensures
            final(self).well_formed(),
            discard_stale_inputs == old(self).discard_stale_inputs_before_first_frame,
            *final(self) == old(self).with_luma(luma, now),
    {
        let discard_stale_inputs = self.discard_stale_inputs_before_first_frame;
        self.discard_stale_inputs_before_first_frame = false;
        self.latest_luma = Some(luma);
        self.successful_frames = self.successful_frames + 1;
        self.last_adjustment = Some(now);
        discard_stale_inputs
    }

    /// The luma to adjust to now, where another prediction is due and a frame was seen.
    pub fn process_prediction_tick(&mut self, now: u64) -> (luma: Option<u8>)
        requires
            old(self).well_formed(),
        ensures
            final(self).well_formed(),
            ({
                let due = match old(self).last_adjustment {
                    None => true,
                    Some(last) => now >= last + PREDICTION_INTERVAL,
                };
                if due && old(self).latest_luma is Some {
                    &&& luma == old(self).latest_luma
                    &&& *final(self) == (Capturer { last_adjustment: Some(now), ..*old(self) })
                } else {
                    &&& luma is None
                    &&& *final(self) == *old(self)
                }
            }),
    {
        if prediction_due(self.last_adjustment, now) {
            if let Some(luma) = self.latest_luma {
                self.last_adjustment = Some(now);
                return Some(luma);
            }
        }
        None
    }

    /// What a global object that appeared means, and the state with it.
    pub open spec fn spec_global(self, global: Global, version: u32) -> (Binding, Capturer) {
        match global {
            Global::Output => (Binding::Bind, self),
            Global::ExportDmabufManager => (
                Binding::Bind,
                Capturer { dmabuf_manager: true, ..self },
            ),
            Global::LinuxDmabuf => (
                if version >= 4 {
                    Binding::BindWithFeedback
                } else {
                    Binding::Bind
                },
                Capturer { dmabuf: true, ..self },
            ),
            Global::ScreencopyManager => (
                Binding::Bind,
                Capturer { screencopy_manager: true, ..self },
            ),
            Global::CaptureSourceManager => (
                Binding::Bind,
                Capturer { img_capture_source_manager: true, ..self },
            ),
            Global::CopyCaptureManager => (
                Binding::Bind,
                Capturer { img_copy_capture_manager: true, ..self },
            ),
            Global::Other => (Binding::Ignore, self),
        }
    }

    /// A global object appeared.
    pub fn global(&mut self, global: Global, version: u32) -> (binding: Binding)
        requires
            old(self).well_formed(),
        ensures
            final(self).well_formed(),
            (binding, *final(self)) == old(self).spec_global(global, version),
    {
        match global {
            Global::Output => {},
            Global::ExportDmabufManager => self.dmabuf_manager = true,
            Global::LinuxDmabuf => {
                self.dmabuf = true;
                if version >= 4 {
                    return Binding::BindWithFeedback;
                }
            },
            Global::ScreencopyManager => self.screencopy_manager = true,
            Global::CaptureSourceManager => self.img_capture_source_manager = true,
            Global::CopyCaptureManager => self.img_copy_capture_manager = true,
            Global::Other => {
                return Binding::Ignore;
            },
        }
        Binding::Bind
    }

    /// A global object is gone: if it was the output, another one may be chosen.
    pub fn global_removed(&mut self, name: u32)
        requires
            old(self).well_formed(),
        ensures
            final(self).well_formed(),
            *final(self) == (if old(self).output_global_id == Some(name) {
                Capturer {
                    output: None,
                    output_global_id: None,
                    output_match: None,
                    output_match_ambiguous: false,
                    ..*old(self)
                }
            } else {
                *old(self)
            }),
    {
        if let Some(id) = self.output_global_id {
            if id == name {
                self.output = None;
                self.output_global_id = None;
                self.output_match = None;
                self.output_match_ambiguous = false;
            }
        }
    }

    /// The state after an output showed a fitting name.
    pub open spec fn matched(self, output: u32, global_id: Option<u32>, quality: OutputMatch) -> Capturer {
        match spec_match_action(self.output_match, quality, self.output == Some(output)) {
            MatchAction::Select => Capturer {
                output: Some(output),
                output_global_id: global_id,
                output_match: Some(quality),
                ..self
            },
            MatchAction::Replace => Capturer {
                output: Some(output),
                output_global_id: global_id,
                output_match: Some(quality),
                output_match_ambiguous: false,
                ..self
            },
            MatchAction::Ambiguous => Capturer { output_match_ambiguous: true, ..self },
            MatchAction::Ignore => self,
        }
    }

    /// An output told its name, which may fit exactly, or its description.
    pub fn output_named(
        &mut self,
        output: u32,
        global_id: Option<u32>,
        value: &str,
        desired_output: &str,
        is_name: bool,
    )
        requires
            old(self).well_formed(),
        ensures
            final(self).well_formed(),
            *final(self) == (match spec_output_match(value@, desired_output@, is_name) {
                Some(quality) => old(self).matched(output, global_id, quality),
                None => *old(self),
            }),
    {
        if let Some(quality) = output_match(value, desired_output, is_name) {
            let same_output = match self.output {
                Some(current) => current == output,
                None => false,
            };
            match match_action(self.output_match, quality, same_output) {
                MatchAction::Select => {
                    self.output = Some(output);
                    self.output_global_id = global_id;
                    self.output_match = Some(quality);
                },
                MatchAction::Replace => {
                    self.output = Some(output);
                    self.output_global_id = global_id;
                    self.output_match = Some(quality);
                    self.output_match_ambiguous = false;
                },
                MatchAction::Ambiguous => self.output_match_ambiguous = true,
                MatchAction::Ignore => {},
            }
        }
    }

    /// A frame will be exported.
    pub fn export_frame(
        &mut self,
        width: u32,
        height: u32,
        num_objects: u32,
        format: u32,
        mod_high: u32,
        mod_low: u32,
    )
        requires
            old(self).well_formed(),
        ensures
            final(self).well_formed(),
            *final(self) == (Capturer {
                pending_frame: Some(
                    Frame {
                        width,
                        height,
                        num_objects,
                        format,
                        layout: Some(((mod_high * 0x1_0000_0000 + mod_low) as u64, 0, 0)),
                    },
                ),
                ..*old(self)
            }),
    {
        let modifier: u64 = join_modifier(mod_high, mod_low);
        self.pending_frame = Some(
            Frame { width, height, num_objects, format, layout: Some((modifier, 0, 0)) },
        );
    }

    /// An exported frame has an object at this offset with this stride.
    pub fn export_object(&mut self, offset: u32, stride: u32)
        requires
            old(self).well_formed(),
            old(self).pending_frame matches Some(frame) && frame.layout is Some,
        ensures
            final(self).well_formed(),
            *final(self) == (Capturer {
                pending_frame: Some(
                    Frame {
                        layout: Some(((old(self).pending_frame->0.layout->0).0, offset, stride)),
                        ..old(self).pending_frame->0
                    },
                ),
                ..*old(self)
            }),
    {
        if let Some(frame) = self.pending_frame {
            if let Some(layout) = frame.layout {
                self.pending_frame = Some(Frame { layout: Some((layout.0, offset, stride)), ..frame });
            }
        }
    }

    /// A frame with this luma is settled, or one of which the luma could not be computed.
    pub open spec fn settled(self, luma: Option<u8>, now: u64) -> (Processed, Capturer) {
        match luma {
            Some(luma) => (
                Processed::Adjust {
                    discard_stale_inputs: self.discard_stale_inputs_before_first_frame,
                    luma,
                    delay: DELAY_SUCCESS,
                },
                Capturer { is_processing_frame: false, ..self.with_luma(luma, now) },
            ),
            None => (
                Processed::Failed,
                Capturer { failure: Some(Failure::ProcessFrame), ..self },
            ),
        }
    }

    /// A frame is ready in the capturer's buffer; its luma is missing where it could not be computed.
    #[verifier::spinoff_prover]
    pub fn frame_ready(&mut self, luma: Option<u8>, now: u64) -> (processed: Processed)
        requires
            old(self).well_formed(),
            old(self).successful_frames < usize::MAX,
        ensures
            final(self).well_formed(),
            (processed, *final(self)) == old(self).settled(luma, now),
    {
        match luma {
            Some(luma) => {
                let discard_stale_inputs = self.process_luma(luma, now);
                assert(*self == old(self).with_luma(luma, now));
                self.is_processing_frame = false;
                Processed::Adjust { discard_stale_inputs, luma, delay: DELAY_SUCCESS }
            },
            None => {
                self.failure = Some(Failure::ProcessFrame);
                Processed::Failed
            },
        }
    }

    /// An exported frame is ready; its luma is missing where it could not be computed.
    pub fn export_ready(&mut self, luma: Option<u8>, now: u64) -> (processed: Processed)
        requires
            old(self).well_formed(),
            old(self).pending_frame is Some,
            old(self).successful_frames < usize::MAX,
        ensures
            final(self).well_formed(),
            (processed, *final(self)) == (Capturer { pending_frame: None, ..*old(self) }).settled(
                luma,
                now,
            ),
    {
        self.pending_frame = None;
        self.frame_ready(luma, now)
    }

    /// An exported frame will not come. Returns how long to wait.
    pub fn export_cancelled(&mut self) -> (delay: u64)
        requires
            old(self).well_formed(),
        ensures
            final(self).well_formed(),
            delay == DELAY_FAILURE,
            *final(self) == (Capturer {
                pending_frame: None,
                is_processing_frame: false,
                ..*old(self)
            }),
    {
        self.pending_frame = None;
        self.is_processing_frame = false;
        DELAY_FAILURE
    }

    /// The compositor named the device that its buffers live on.
    pub fn main_device(&mut self, bytes: &[u8])
        requires
            old(self).well_formed(),
        ensures
            final(self).well_formed(),
            *final(self) == (match device_in(bytes@, old(self).byte_order) {
                Some(device) => Capturer { drm_device: Some(device), ..*old(self) },
                None => Capturer { failure: Some(Failure::InvalidMainDevice), ..*old(self) },
            }),
    {
        match parse_drm_device_in(bytes, self.byte_order) {
            Some(device) => self.drm_device = Some(device),
            None => self.failure = Some(Failure::InvalidMainDevice),
        }
    }

    /// The compositor named the device to allocate on. Returns it where Vulkan has to be made ready
    /// on it: it is another one than before, and the configuration names none.
    pub fn dmabuf_device(&mut self, bytes: &[u8]) -> (initialize: Option<(u32, u32)>)
        requires
            old(self).well_formed(),
        ensures
            final(self).well_formed(),
            ({
                let device = device_in(bytes@, old(self).byte_order);
                &&& *final(self) == (match device {
                    Some(device) => Capturer { drm_device: Some(device), ..*old(self) },
                    None => Capturer {
                        failure: Some(Failure::InvalidAllocationDevice),
                        ..*old(self)
                    },
                })
                &&& initialize == (if old(self).vulkan_device is None && device
                    != old(self).drm_device {
                    device
                } else {
                    None
                })
            }),
    {
        match parse_drm_device_in(bytes, self.byte_order) {
            Some(device) => {
                let changed = match self.drm_device {
                    Some(current) => current.0 != device.0 || current.1 != device.1,
                    None => true,
                };
                self.drm_device = Some(device);
                if self.vulkan_device.is_none() && changed {
                    Some(device)
                } else {
                    None
                }
            },
            None => {
                self.failure = Some(Failure::InvalidAllocationDevice);
                None
            },
        }
    }

    /// Vulkan was made ready on the compositor's device, or was not.
    pub fn vulkan_initialized(&mut self, ready: bool)
        requires
            old(self).well_formed(),
        ensures
            final(self).well_formed(),
            *final(self) == (if ready {
                Capturer { vulkan: true, ..*old(self) }
            } else {
                Capturer { failure: Some(Failure::InitializeVulkan), ..*old(self) }
            }),
    {
        if ready {
            self.vulkan = true;
        } else {
            self.failure = Some(Failure::InitializeVulkan);
        }
    }

    /// A capture session's buffers have this size.
    pub fn buffer_size(&mut self, width: u32, height: u32)
        requires
            old(self).well_formed(),
        ensures
            final(self).well_formed(),
            *final(self) == (Capturer {
                pending_frame: Some(Frame { width, height, num_objects: 1, format: 0, layout: None }),
                ..*old(self)
            }),
    {
        self.pending_frame = Some(
            Frame { width, height, num_objects: 1, format: 0, layout: None },
        );
    }

    /// A capture session's buffers may have this format with these modifiers.
    pub fn dmabuf_format(&mut self, format: u32, modifiers: &[u8])
        requires
            old(self).well_formed(),
        ensures
            final(self).well_formed(),
            *final(self) == (Capturer {
                dmabuf_formats: final(self).dmabuf_formats,
                ..*old(self)
            }),
            final(self).dmabuf_formats@.len() == old(self).dmabuf_formats@.len() + 1,
            final(self).dmabuf_formats@.drop_last() == old(self).dmabuf_formats@,
            ({
                let added = final(self).dmabuf_formats@.last();
                &&& added.0 == format
                &&& added.1@ == modifiers_in(modifiers@, old(self).byte_order)
            }),
    {
        let list = parse_modifiers(modifiers, self.byte_order);
        self.dmabuf_formats.push((format, list));
        assert(self.dmabuf_formats@.drop_last() =~= old(self).dmabuf_formats@);
    }

    /// The constraints of a capture session are complete. For each offered format the caller gives
    /// the modifiers that can be exported, if that is known.
    pub fn session_done(&mut self, supported: &Vec<Option<Vec<u64>>>) -> (constraints: Constraints)
        requires
            old(self).well_formed(),
            old(self).failure is None ==> old(self).pending_frame is Some,
            supported.len() == old(self).dmabuf_formats.len(),
        ensures
            final(self).well_formed(),
            ({
                let formats = old(self).dmabuf_formats@;
                let at = first_usable(formats, supported@);
                if old(self).failure is Some {
                    &&& constraints == Constraints::Ignore
                    &&& *final(self) == *old(self)
                } else if at == formats.len() {
                    &&& constraints == Constraints::Unusable { destroy_buffer: old(self).wl_buffer }
                    &&& final(self).dmabuf_formats@.len() == 0
                    &&& *final(self) == (Capturer {
                        wl_buffer: false,
                        dmabuf_formats: final(self).dmabuf_formats,
                        failure: Some(Failure::NoUsableFormat),
                        ..*old(self)
                    })
                } else {
                    let pending = old(self).pending_frame->0;
                    let frame = Frame {
                        width: pending.width,
                        height: pending.height,
                        num_objects: 1,
                        format: formats[at].0,
                        layout: None,
                    };
                    &&& constraints matches Constraints::Export {
                        destroy_buffer,
                        frame: exported,
                        modifiers,
                    } && destroy_buffer == old(self).wl_buffer && exported == frame && modifiers@
                        == usable(formats[at].1@, supported@[at])
                    &&& final(self).dmabuf_formats@.len() == 0
                    &&& *final(self) == (Capturer {
                        wl_buffer: false,
                        dmabuf_formats: final(self).dmabuf_formats,
                        pending_frame: Some(frame),
                        ..*old(self)
                    })
                }
            }),
    {
        if self.failure.is_some() {
            return Constraints::Ignore;
        }
        let destroy_buffer = self.wl_buffer;
        let ghost formats = self.dmabuf_formats@;
        let mut at: usize = 0;
        let mut selected: Option<(u32, Vec<u64>)> = None;
        while at < supported.len() && selected.is_none()
            invariant
                *self == *old(self),
                formats == self.dmabuf_formats@,
                supported.len() == self.dmabuf_formats.len(),
                at <= supported.len(),
                selected is None ==> forall|i: int|
                    0 <= i < at ==> usable((#[trigger] formats[i]).1@, supported@[i]).len() == 0,
                selected matches Some(choice) ==> {
                    &&& first_usable(formats, supported@) == at - 1
                    &&& 0 < at
                    &&& choice.0 == formats[at - 1].0
                    &&& choice.1@ == usable(formats[at - 1].1@, supported@[at - 1])
                },
            decreases supported.len() - at,
        {
            let modifiers = usable_modifiers(&self.dmabuf_formats[at].1, &supported[at]);
            if modifiers.len() > 0 {
                proof {
                    lemma_first_usable(formats, supported@, at as int);
                }
                selected = Some((self.dmabuf_formats[at].0, modifiers));
            }
            at += 1;
        }
        proof {
            if selected is None {
                lemma_first_usable(formats, supported@, formats.len() as int);
            }
        }
        self.wl_buffer = false;
        self.dmabuf_formats = Vec::new();
        match selected {
            Some((format, modifiers)) => {
                let (width, height): (u32, u32) = match self.pending_frame {
                    Some(pending) => (pending.width, pending.height),
                    None => (0, 0),
                };
                let frame = Frame { width, height, num_objects: 1, format, layout: None };
                self.pending_frame = Some(frame);
                Constraints::Export { destroy_buffer, frame, modifiers }
            },
            None => {
                self.failure = Some(Failure::NoUsableFormat);
                Constraints::Unusable { destroy_buffer }
            },
        }
    }

    /// A buffer for the session's frames was exported, or could not be.
    pub fn session_exported(&mut self, exported: bool)
        requires
            old(self).well_formed(),
        ensures
            final(self).well_formed(),
            *final(self) == (if exported {
                Capturer { wl_buffer: true, ..*old(self) }
            } else {
                Capturer { failure: Some(Failure::ExportBuffer), ..*old(self) }
            }),
    {
        if exported {
            self.wl_buffer = true;
        } else {
            self.failure = Some(Failure::ExportBuffer);
        }
    }

    /// The capture session has ended. Returns whether to destroy the buffer, and how long to wait.
    pub fn session_stopped(&mut self) -> (result: (bool, u64))
        requires
            old(self).well_formed(),
            old(self).img_copy_capture_session,
        ensures
            final(self).well_formed(),
            result == (old(self).wl_buffer, DELAY_FAILURE),
            *final(self) == (Capturer {
                img_copy_capture_session: false,
                wl_buffer: false,
                is_processing_frame: false,
                ..*old(self)
            }),
    {
        let destroy_buffer = self.wl_buffer;
        self.img_copy_capture_session = false;
        self.wl_buffer = false;
        self.is_processing_frame = false;
        (destroy_buffer, DELAY_FAILURE)
    }

    /// A frame of a capture session failed. Returns how long to wait.
    pub fn frame_failed(&mut self) -> (delay: u64)
        requires
            old(self).well_formed(),
        ensures
            final(self).well_formed(),
            delay == DELAY_FAILURE,
            *final(self) == (Capturer { is_processing_frame: false, ..*old(self) }),
    {
        self.is_processing_frame = false;
        DELAY_FAILURE
    }

    /// Whether the present buffer fits a frame of these properties.
    pub open spec fn buffer_fits(&self, width: u32, height: u32, format: u32) -> bool {
        self.pending_frame matches Some(frame) ==> frame.width == width && frame.height == height
            && frame.format == format
    }

    /// A screencopy frame has these properties: a buffer that does not fit it is given up, and one is
    /// exported where there is none.
    pub fn screencopy_constraints(&mut self, width: u32, height: u32, format: u32) -> (result: Screencopy)
        requires
            old(self).well_formed(),
        ensures
            final(self).well_formed(),
            ({
                let keep = old(self).wl_buffer && old(self).buffer_fits(width, height, format);
                &&& result.destroy_buffer == (old(self).wl_buffer && !keep)
                &&& result.export == (if keep {
                    None
                } else {
                    Some(Frame { width, height, num_objects: 1, format, layout: None })
                })
                &&& *final(self) == (Capturer { wl_buffer: keep, ..*old(self) })
            }),
    {
        let mut destroy_buffer = false;
        if let Some(frame) = self.pending_frame {
            if frame.width != width || frame.height != height || frame.format != format {
                destroy_buffer = self.wl_buffer;
                self.wl_buffer = false;
            }
        }
        let export: Option<Frame> = if self.wl_buffer {
            None
        } else {
            Some(Frame { width, height, num_objects: 1, format, layout: None })
        };
        Screencopy { destroy_buffer, export }
    }

    /// A buffer for a screencopy frame was exported, or could not be.
    pub fn screencopy_exported(&mut self, frame: Frame, exported: bool)
        requires
            old(self).well_formed(),
        ensures
            final(self).well_formed(),
            *final(self) == (if exported {
                Capturer { wl_buffer: true, pending_frame: Some(frame), ..*old(self) }
            } else {
                Capturer { failure: Some(Failure::ExportBuffer), ..*old(self) }
            }),
    {
        if exported {
            self.wl_buffer = true;
            self.pending_frame = Some(frame);
        } else {
            self.failure = Some(Failure::ExportBuffer);
        }
    }

    /// A screencopy frame failed. Returns whether to destroy the buffer, and how long to wait.
    pub fn screencopy_failed(&mut self) -> (result: (bool, u64))
        requires
            old(self).well_formed(),
        ensures
            final(self).well_formed(),
            result == (old(self).wl_buffer, DELAY_FAILURE),
            *final(self) == (Capturer { wl_buffer: false, is_processing_frame: false, ..*old(self) }),
    {
        let destroy_buffer = self.wl_buffer;
        self.wl_buffer = false;
        self.is_processing_frame = false;
        (destroy_buffer, DELAY_FAILURE)
    }
}

/// Whether a screencopy frame of this version waits for damage before it is copied.
pub fn copies_with_damage(version: u32) -> (waits: bool)
    ensures
        waits == (version >= 2),
{
    version >= 2
}

proof fn lemma_filter_three<T>(first: T, second: T, third: T, keep: spec_fn(T) -> bool)
    ensures
        seq![first, second, third].filter(keep) == (if keep(first) {
            seq![first]
        } else {
            seq![]
        }) + (if keep(second) {
            seq![second]
        } else {
            seq![]
        }) + (if keep(third) {
            seq![third]
        } else {
            seq![]
        }),
{
    reveal(Seq::filter);
    let all = seq![first, second, third];
    let two = all.drop_last();
    let one = two.drop_last();
    assert(two =~= seq![first, second]);
    assert(one =~= seq![first]);
    assert(one.drop_last() =~= seq![]);
    assert(one.drop_last().filter(keep) =~= seq![]);
    let a = if keep(first) {
        seq![first]
    } else {
        seq![]
    };
    let b = if keep(second) {
        seq![second]
    } else {
        seq![]
    };
    let c = if keep(third) {
        seq![third]
    } else {
        seq![]
    };
    assert(one.filter(keep) =~= a);
    assert(two.filter(keep) =~= a + b);
    assert(all.filter(keep) =~= a + b + c);
}

/// An output of this number and of this global number that fits this well.
pub struct Sighting {
    pub output: u32,
    pub global_id: Option<u32>,
    pub quality: OutputMatch,
}

/// The state after a row of fitting names.
pub open spec fn after_sightings(capturer: Capturer, sightings: Seq<Sighting>) -> Capturer
    decreases sightings.len(),
{
    if sightings.len() == 0 {
        capturer
    } else {
        let last = sightings.last();
        after_sightings(capturer, sightings.drop_last()).matched(
            last.output,
            last.global_id,
            last.quality,
        )
    }
}

/// Whether the sighting at a place is the first one of the best quality.
pub open spec fn leads(sightings: Seq<Sighting>, at: int) -> bool {
    &&& 0 <= at < sightings.len()
    &&& forall|i: int|
        0 <= i < at ==> (#[trigger] sightings[i]).quality == OutputMatch::Substring
            && sightings[at].quality == OutputMatch::Exact
    &&& forall|i: int|
        0 <= i < sightings.len() ==> ((#[trigger] sightings[i]).quality == OutputMatch::Exact
            ==> sightings[at].quality == OutputMatch::Exact)
}

/// Whether another output than the one at a place fits equally well.
pub open spec fn contested(sightings: Seq<Sighting>, at: int) -> bool {
    exists|i: int|
        0 <= i < sightings.len() && (#[trigger] sightings[i]).quality == sightings[at].quality
            && sightings[i].output != sightings[at].output
}

/// Whatever the order in which outputs show their names, the first one that fits best is chosen, and
/// the choice is ambiguous exactly if another output fits as well.
pub proof fn law_best_match_is_chosen(capturer: Capturer, sightings: Seq<Sighting>) -> (at: int)
    requires
        capturer.well_formed(),
        capturer.output is None,
        sightings.len() > 0,
    ensures
        leads(sightings, at),
        ({
            let state = after_sightings(capturer, sightings);
            &&& state.output == Some(sightings[at].output)
            &&& state.output_global_id == sightings[at].global_id
            &&& state.output_match == Some(sightings[at].quality)
            &&& state.output_match_ambiguous <==> contested(sightings, at)
        }),
    decreases sightings.len(),
{
    let front = sightings.drop_last();
    let last = sightings.last();
    let end = sightings.len() - 1;
    assert(sightings[end] == last);
    assert(after_sightings(capturer, Seq::<Sighting>::empty()) == capturer);
    if front.len() == 0 {
        assert(front =~= Seq::<Sighting>::empty());
        0
    } else {
        let before = law_best_match_is_chosen(capturer, front);
        let state = after_sightings(capturer, front);
        assert forall|i: int| 0 <= i < end implies front[i] == #[trigger] sightings[i] by {}
        if last.quality == OutputMatch::Exact && front[before].quality == OutputMatch::Substring {
            assert forall|i: int| 0 <= i < end implies (#[trigger] sightings[i]).quality
                == OutputMatch::Substring by {
                assert(front[i].quality != OutputMatch::Exact);
            }
            end
        } else {
            assert(leads(sightings, before));
            if contested(front, before) {
                let i = choose|i: int|
                    0 <= i < front.len() && (#[trigger] front[i]).quality == front[before].quality
                        && front[i].output != front[before].output;
                assert(sightings[i].quality == sightings[before].quality);
                assert(contested(sightings, before));
            } else if last.quality == front[before].quality && last.output != front[before].output {
                assert(contested(sightings, before));
            } else if contested(sightings, before) {
                let i = choose|i: int|
                    0 <= i < sightings.len() && (#[trigger] sightings[i]).quality
                        == sightings[before].quality && sightings[i].output
                        != sightings[before].output;
                if i < end {
                    assert(front[i].quality == front[before].quality);
                }
            }
            before
        }
    }
}

/// A requested protocol is used exactly if the compositor supports it, and without a request the
/// first supported one is used; in either case the protocol is a concrete one.
pub proof fn law_selection_follows_support(capturer: Capturer)
    ensures
        capturer.protocol != WaylandProtocol::Any ==> (capturer.choice() is Ok <==> capturer.supports(
            capturer.protocol,
        )),
        capturer.protocol == WaylandProtocol::Any ==> (capturer.choice() is Ok
            <==> capturer.spec_supported_protocols().len() > 0),
        capturer.choice() matches Ok(protocol) ==> {
            &&& protocol != WaylandProtocol::Any
            &&& capturer.supports(protocol)
            &&& capturer.protocol != WaylandProtocol::Any ==> protocol == capturer.protocol
            &&& capturer.protocol == WaylandProtocol::Any ==> protocol
                == capturer.spec_supported_protocols().first()
        },
{
    lemma_filter_three(
        WaylandProtocol::ExtImageCopyCaptureV1,
        WaylandProtocol::WlrScreencopyUnstableV1,
        WaylandProtocol::WlrExportDmabufUnstableV1,
        |protocol: WaylandProtocol| capturer.supports(protocol),
    );
}

/// While a frame is being processed no other one is requested.
pub proof fn law_one_frame_at_a_time(capturer: Capturer, active: bool, startup: Startup, now: u64)
    requires
        capturer.is_processing_frame,
    ensures
        !(capturer.spec_step(active, startup, now) is Request),
{
}

} // verus!
