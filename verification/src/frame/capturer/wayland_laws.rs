//! What capturing over Wayland promises.

use vstd::prelude::*;

use crate::config::WaylandProtocol;

use super::wayland;
use super::wayland::{
    Binding, ByteOrder, Capturer, Failure, Global, MatchAction, OutputMatch, Processed, Request,
    StartError, Step,
};
use super::Startup;

verus! {

/// An output fits if the configured name occurs in its name or description, and exactly if it is its
/// whole name. Without a configured name none fits.
pub proof fn law_outputs_fit_by_their_names(value: Seq<char>, desired_output: Seq<char>, exact: bool)
    ensures
        ({
            let quality = wayland::spec_output_match(value, desired_output, exact);
            &&& quality is Some <==> desired_output.len() > 0 && exists|at: int|
                0 <= at && at + desired_output.len() <= value.len() && #[trigger] value.subrange(
                    at,
                    at + desired_output.len(),
                ) == desired_output
            &&& quality == Some(OutputMatch::Exact) <==> exact && value == desired_output
                && desired_output.len() > 0
        }),
{
    if value == desired_output {
        assert(value.subrange(0, 0 + desired_output.len() as int) =~= desired_output);
        assert(crate::text::occurs_at(value, desired_output, 0));
    }
    if crate::text::contained(value, desired_output) {
        let at = choose|at: int| crate::text::occurs_at(value, desired_output, at);
        assert(value.subrange(at, at + desired_output.len()) == desired_output);
    }
    if exists|at: int|
        0 <= at && at + desired_output.len() <= value.len() && #[trigger] value.subrange(
            at,
            at + desired_output.len(),
        ) == desired_output {
        let at = choose|at: int|
            0 <= at && at + desired_output.len() <= value.len() && #[trigger] value.subrange(
                at,
                at + desired_output.len(),
            ) == desired_output;
        assert(crate::text::occurs_at(value, desired_output, at));
    }
}

/// The first fitting output is selected, an exact one replaces one that fits in part, an equally good
/// one of another output makes the choice ambiguous, and nothing else matters.
pub proof fn law_better_matches_win(
    current: Option<OutputMatch>,
    candidate: OutputMatch,
    same_output: bool,
)
    ensures
        ({
            let action = wayland::spec_match_action(current, candidate, same_output);
            &&& action == MatchAction::Select <==> current is None
            &&& action == MatchAction::Replace <==> current == Some(OutputMatch::Substring)
                && candidate == OutputMatch::Exact
            &&& action == MatchAction::Ambiguous <==> current == Some(candidate) && !same_output
            &&& action == MatchAction::Ignore <==> current == Some(candidate) && same_output
                || current == Some(OutputMatch::Exact) && candidate == OutputMatch::Substring
        }),
{
}

/// A name of an output touches nothing but which output is chosen.
pub proof fn law_names_only_choose_an_output(
    capturer: Capturer,
    output: u32,
    global_id: Option<u32>,
    quality: OutputMatch,
)
    ensures
        ({
            let after = capturer.matched(output, global_id, quality);
            &&& after == (Capturer {
                output: after.output,
                output_global_id: after.output_global_id,
                output_match: after.output_match,
                output_match_ambiguous: after.output_match_ambiguous,
                ..capturer
            })
            &&& after.output == capturer.output || after.output == Some(output)
        }),
{
}

/// Eight bytes hold a number in which every byte weighs 256 times as much as the one before it, or in
/// the other byte order as the one after it.
pub proof fn law_bytes_are_weighed_by_their_order(bytes: Seq<u8>)
    requires
        bytes.len() == 8,
    ensures
        wayland::number(bytes, ByteOrder::Little) == bytes[0] + 0x100 * bytes[1] + 0x1_0000 * bytes[2]
            + 0x100_0000 * bytes[3] + 0x1_0000_0000 * bytes[4] + 0x100_0000_0000 * bytes[5]
            + 0x1_0000_0000_0000 * bytes[6] + 0x100_0000_0000_0000 * bytes[7],
        wayland::number(bytes, ByteOrder::Big) == bytes[7] + 0x100 * bytes[6] + 0x1_0000 * bytes[5]
            + 0x100_0000 * bytes[4] + 0x1_0000_0000 * bytes[3] + 0x100_0000_0000 * bytes[2]
            + 0x1_0000_0000_0000 * bytes[1] + 0x100_0000_0000_0000 * bytes[0],
{
    lemma_weights(bytes);
    lemma_weights(bytes.reverse());
}

proof fn lemma_weights(bytes: Seq<u8>)
    requires
        bytes.len() == 8,
    ensures
        wayland::little_endian(bytes) == bytes[0] + 0x100 * bytes[1] + 0x1_0000 * bytes[2]
            + 0x100_0000 * bytes[3] + 0x1_0000_0000 * bytes[4] + 0x100_0000_0000 * bytes[5]
            + 0x1_0000_0000_0000 * bytes[6] + 0x100_0000_0000_0000 * bytes[7],
{
    reveal_with_fuel(wayland::little_endian, 9);
    assert(bytes.skip(0) =~= bytes);
    assert forall|i: int| 0 <= i < 8 implies #[trigger] bytes.skip(i).drop_first() == bytes.skip(
        i + 1,
    ) by {
        assert(bytes.skip(i).drop_first() =~= bytes.skip(i + 1));
    }
    assert(wayland::little_endian(bytes.skip(7)) == bytes[7]);
    assert(wayland::little_endian(bytes.skip(6)) == bytes[6] + 256 * wayland::little_endian(
        bytes.skip(7),
    ));
    assert(wayland::little_endian(bytes.skip(5)) == bytes[5] + 256 * wayland::little_endian(
        bytes.skip(6),
    ));
    assert(wayland::little_endian(bytes.skip(4)) == bytes[4] + 256 * wayland::little_endian(
        bytes.skip(5),
    ));
    assert(wayland::little_endian(bytes.skip(3)) == bytes[3] + 256 * wayland::little_endian(
        bytes.skip(4),
    ));
    assert(wayland::little_endian(bytes.skip(2)) == bytes[2] + 256 * wayland::little_endian(
        bytes.skip(3),
    ));
    assert(wayland::little_endian(bytes.skip(1)) == bytes[1] + 256 * wayland::little_endian(
        bytes.skip(2),
    ));
    assert(wayland::little_endian(bytes.skip(0)) == bytes[0] + 256 * wayland::little_endian(
        bytes.skip(1),
    ));
}

/// Eight bytes name a device and no other number of them does; its numbers are those of the number
/// that the bytes hold.
pub proof fn law_devices_have_eight_bytes(bytes: Seq<u8>, order: ByteOrder)
    ensures
        wayland::device_in(bytes, order) is Some <==> bytes.len() == 8,
        bytes.len() == 8 ==> wayland::device_in(bytes, order) == Some(
            (
                wayland::spec_major(wayland::number(bytes, order) as u64),
                wayland::spec_minor(wayland::number(bytes, order) as u64),
            ),
        ),
{
}

/// A list of modifiers has eight bytes for each, one after the other.
pub proof fn law_modifiers_have_eight_bytes_each(bytes: Seq<u8>, order: ByteOrder, at: int)
    ensures
        8 * wayland::modifiers_in(bytes, order).len() <= bytes.len(),
        bytes.len() < 8 * wayland::modifiers_in(bytes, order).len() + 8,
        0 <= at && 8 * at + 8 <= bytes.len() ==> wayland::modifiers_in(bytes, order)[at]
            == wayland::number(bytes.subrange(8 * at, 8 * at + 8), order),
{
    if 0 <= at && 8 * at + 8 <= bytes.len() {
        let eight = bytes.subrange(8 * at, 8 * at + 8);
        law_bytes_are_weighed_by_their_order(eight);
    }
}

/// The usable modifiers are those that are offered and can be exported, in the order of the offer;
/// where nothing is known of a format, none are.
pub proof fn law_usable_modifiers_are_offered_and_supported(
    offered: Seq<u64>,
    more: Seq<u64>,
    supported: Option<Vec<u64>>,
    modifier: u64,
)
    ensures
        wayland::usable(offered, supported).contains(modifier) <==> offered.contains(modifier)
            && supported is Some && (supported->0)@.contains(modifier),
        wayland::usable(offered + more, supported) == wayland::usable(offered, supported)
            + wayland::usable(more, supported),
        wayland::usable(offered, supported).len() <= offered.len(),
        supported is Some && (forall|i: int|
            0 <= i < offered.len() ==> (supported->0)@.contains(#[trigger] offered[i]))
            ==> wayland::usable(offered, supported) == offered,
{
    match supported {
        None => {
            assert(wayland::usable(offered, supported) + wayland::usable(more, supported)
                =~= Seq::<u64>::empty());
        },
        Some(list) => {
            let keep = |modifier: u64| list@.contains(modifier);
            lemma_filter(offered, keep, modifier);
            Seq::filter_distributes_over_add(offered, more, keep);
        },
    }
}

proof fn lemma_filter(all: Seq<u64>, keep: spec_fn(u64) -> bool, value: u64)
    ensures
        all.filter(keep).contains(value) <==> all.contains(value) && keep(value),
        all.filter(keep).len() <= all.len(),
        (forall|i: int| 0 <= i < all.len() ==> keep(#[trigger] all[i])) ==> all.filter(keep) == all,
    decreases all.len(),
{
    reveal(Seq::filter);
    if all.len() > 0 {
        let front = all.drop_last();
        lemma_filter(front, keep, value);
        let fewer = front.filter(keep);
        let kept = all.filter(keep);
        assert(all.contains(value) <==> front.contains(value) || all.last() == value) by {
            if front.contains(value) {
                let i = front.index_of(value);
                assert(all[i] == value);
            }
            if all.contains(value) {
                let i = all.index_of(value);
                if i < front.len() {
                    assert(front[i] == value);
                }
            }
            assert(all[all.len() - 1] == all.last());
        }
        if keep(all.last()) {
            assert(kept == fewer.push(all.last()));
            assert(kept.contains(value) <==> fewer.contains(value) || all.last() == value) by {
                if fewer.contains(value) {
                    let i = fewer.index_of(value);
                    assert(kept[i] == value);
                }
                assert(kept[fewer.len() as int] == all.last());
                if kept.contains(value) {
                    let i = kept.index_of(value);
                    if i < fewer.len() {
                        assert(fewer[i] == value);
                    }
                }
            }
        }
        if forall|i: int| 0 <= i < all.len() ==> keep(#[trigger] all[i]) {
            assert forall|i: int| 0 <= i < front.len() implies keep(#[trigger] front[i]) by {
                assert(front[i] == all[i]);
            }
            assert(all[all.len() - 1] == all.last());
            assert(kept =~= all);
        }
    }
}

/// The format that is used is the first one of which some offered modifier can be exported.
pub proof fn law_the_first_usable_format_is_used(
    formats: Seq<(u32, Vec<u64>)>,
    supported: Seq<Option<Vec<u64>>>,
    at: int,
    modifier: u64,
)
    requires
        formats.len() == supported.len(),
        0 <= at < formats.len(),
    ensures
        0 <= wayland::first_usable(formats, supported) <= formats.len(),
        at < wayland::first_usable(formats, supported) ==> !(formats[at].1@.contains(modifier)
            && supported[at] is Some && (supported[at]->0)@.contains(modifier)),
        at == wayland::first_usable(formats, supported) ==> exists|some: u64|
            #![trigger formats[at].1@.contains(some)]
            formats[at].1@.contains(some) && supported[at] is Some && (
            supported[at]->0)@.contains(some),
    decreases formats.len(),
{
    let first = formats[0].1@;
    law_usable_modifiers_are_offered_and_supported(first, first, supported[0], modifier);
    if wayland::usable(first, supported[0]).len() > 0 {
        let some = wayland::usable(first, supported[0])[0];
        law_usable_modifiers_are_offered_and_supported(first, first, supported[0], some);
        assert(wayland::usable(first, supported[0]).contains(some));
        assert(first.contains(some));
    } else {
        let rest = formats.drop_first();
        let others = supported.drop_first();
        if at > 0 {
            assert(rest[at - 1] == formats[at] && others[at - 1] == supported[at]);
            law_the_first_usable_format_is_used(rest, others, at - 1, modifier);
        } else {
            if rest.len() > 0 {
                law_the_first_usable_format_is_used(rest, others, 0, modifier);
            }
            assert(!wayland::usable(first, supported[0]).contains(modifier));
        }
    }
}

/// A protocol is supported if the compositor has every object that it needs.
pub proof fn law_protocols_need_their_objects(capturer: Capturer)
    ensures
        !capturer.supports(WaylandProtocol::Any),
        capturer.supports(WaylandProtocol::ExtImageCopyCaptureV1) <==> capturer.dmabuf
            && capturer.img_capture_source_manager && capturer.img_copy_capture_manager,
        capturer.supports(WaylandProtocol::WlrScreencopyUnstableV1) <==> capturer.dmabuf
            && capturer.screencopy_manager,
        capturer.supports(WaylandProtocol::WlrExportDmabufUnstableV1) <==> capturer.dmabuf_manager,
{
}

/// Without a request the newest of the protocols is used whose objects are all there.
pub proof fn law_newer_protocols_are_preferred(capturer: Capturer)
    requires
        capturer.protocol == WaylandProtocol::Any,
    ensures
        ({
            let copies = capturer.dmabuf && capturer.img_capture_source_manager
                && capturer.img_copy_capture_manager;
            let screencopy = capturer.dmabuf && capturer.screencopy_manager;
            &&& copies ==> capturer.choice() == Ok::<WaylandProtocol, StartError>(
                WaylandProtocol::ExtImageCopyCaptureV1,
            )
            &&& !copies && screencopy ==> capturer.choice() == Ok::<WaylandProtocol, StartError>(
                WaylandProtocol::WlrScreencopyUnstableV1,
            )
            &&& !copies && !screencopy && capturer.dmabuf_manager ==> capturer.choice() == Ok::<
                WaylandProtocol,
                StartError,
            >(WaylandProtocol::WlrExportDmabufUnstableV1)
            &&& !copies && !screencopy && !capturer.dmabuf_manager ==> capturer.choice() == Err::<
                WaylandProtocol,
                StartError,
            >(StartError::NoProtocol)
        }),
{
}

/// What is missing of a requested protocol is reported: the protocol itself, else its capture sources,
/// else its buffers.
pub proof fn law_missing_objects_are_reported(capturer: Capturer)
    ensures
        ({
            let missing = match capturer.protocol {
                WaylandProtocol::ExtImageCopyCaptureV1 => !capturer.img_copy_capture_manager,
                WaylandProtocol::WlrScreencopyUnstableV1 => !capturer.screencopy_manager,
                WaylandProtocol::WlrExportDmabufUnstableV1 => !capturer.dmabuf_manager,
                WaylandProtocol::Any => false,
            };
            let sourceless = capturer.protocol == WaylandProtocol::ExtImageCopyCaptureV1
                && !capturer.img_capture_source_manager;
            let bufferless = (capturer.protocol == WaylandProtocol::ExtImageCopyCaptureV1
                || capturer.protocol == WaylandProtocol::WlrScreencopyUnstableV1)
                && !capturer.dmabuf;
            &&& missing <==> capturer.choice() == Err::<WaylandProtocol, StartError>(
                StartError::Unavailable(capturer.protocol),
            )
            &&& !missing && sourceless <==> capturer.choice() == Err::<WaylandProtocol, StartError>(
                StartError::NoCaptureSource,
            )
            &&& !missing && !sourceless && bufferless <==> capturer.choice() == Err::<
                WaylandProtocol,
                StartError,
            >(StartError::NoDmabuf(capturer.protocol))
        }),
{
}

/// Nothing is captured without an output, nor where several outputs fit.
pub proof fn law_capturing_needs_one_output(capturer: Capturer)
    ensures
        capturer.output is None ==> capturer.selection() == Err::<WaylandProtocol, StartError>(
            StartError::NoOutput,
        ),
        capturer.output is Some && capturer.output_match_ambiguous ==> capturer.selection() == Err::<
            WaylandProtocol,
            StartError,
        >(StartError::AmbiguousOutput),
        capturer.output is Some && !capturer.output_match_ambiguous ==> capturer.selection()
            == capturer.choice(),
{
}

/// A capture goes on for as long as it is wanted and delivers its frames in time, and asks for a frame
/// whenever there is an output and no frame is on its way.
pub proof fn law_frames_are_asked_for(capturer: Capturer, active: bool, startup: Startup, now: u64)
    ensures
        ({
            let step = capturer.spec_step(active, startup, now);
            let late = capturer.successful_frames < startup.required_frames && now
                >= startup.deadline;
            &&& step == Step::Finished <==> !active
            &&& active && late <==> step == (Step::TooFewFrames {
                captured: capturer.successful_frames,
                required: startup.required_frames,
            })
            &&& active && !late && (capturer.is_processing_frame || capturer.output is None)
                <==> step == Step::Wait
            &&& active && !late && !capturer.is_processing_frame && capturer.output is Some
                <==> step is Request
        }),
{
}

/// What is asked of the compositor is what the protocol has: a session and a frame of the size that is
/// known, once there is a buffer for it; a copy; or an exported frame.
pub proof fn law_requests_follow_the_protocol(capturer: Capturer)
    ensures
        capturer.protocol == WaylandProtocol::ExtImageCopyCaptureV1 ==> (capturer.request() matches Request::CopyCapture {
            create_session,
            frame,
        } && create_session == !capturer.img_copy_capture_session && (frame is Some
            <==> capturer.wl_buffer) && (capturer.wl_buffer && capturer.pending_frame is Some
            ==> frame == Some(
            (capturer.pending_frame->0.width, capturer.pending_frame->0.height),
        ))),
        capturer.protocol == WaylandProtocol::WlrScreencopyUnstableV1 ==> capturer.request()
            == Request::Screencopy,
        capturer.protocol == WaylandProtocol::WlrExportDmabufUnstableV1 ==> capturer.request()
            == Request::ExportDmabuf,
{
}

/// Once a frame was asked for it is on its way, and a session that was created is there. A request
/// touches nothing else.
pub proof fn law_requests_are_noted(capturer: Capturer, request: Request)
    requires
        !capturer.is_processing_frame,
    ensures
        ({
            let after = capturer.requested(request);
            &&& request is Screencopy || request is ExportDmabuf ==> after.is_processing_frame
                && after.img_copy_capture_session == capturer.img_copy_capture_session
            &&& request matches Request::CopyCapture { frame, .. } ==> after.img_copy_capture_session
                && (after.is_processing_frame <==> frame is Some)
            &&& after == (Capturer {
                is_processing_frame: after.is_processing_frame,
                img_copy_capture_session: after.img_copy_capture_session,
                ..capturer
            })
        }),
{
}

/// A frame of which the luma is known counts, is adjusted to at that very luma, and makes room for the
/// next one; stale inputs are discarded before the first one only, where that was asked for. A frame
/// of which it is not known ends the capture and does not count.
pub proof fn law_frames_are_adjusted_to(capturer: Capturer, luma: u8, now: u64, later: u8, then: u64)
    requires
        capturer.successful_frames + 1 < usize::MAX,
    ensures
        ({
            let (processed, after) = capturer.settled(Some(luma), now);
            &&& processed == (Processed::Adjust {
                discard_stale_inputs: capturer.discard_stale_inputs_before_first_frame,
                luma,
                delay: 100_000_000,
            })
            &&& !after.is_processing_frame
            &&& after.latest_luma == Some(luma)
            &&& after.last_adjustment == Some(now)
            &&& after.successful_frames == capturer.successful_frames + 1
            &&& after.failure == capturer.failure
            &&& after == (Capturer {
                is_processing_frame: false,
                latest_luma: Some(luma),
                last_adjustment: Some(now),
                successful_frames: after.successful_frames,
                discard_stale_inputs_before_first_frame: false,
                ..capturer
            })
            &&& after.settled(Some(later), then).0 matches Processed::Adjust {
                discard_stale_inputs,
                ..
            } && !discard_stale_inputs
        }),
        ({
            let (processed, after) = capturer.settled(None, now);
            &&& processed == Processed::Failed
            &&& after == (Capturer { failure: Some(Failure::ProcessFrame), ..capturer })
            &&& after.successful_frames == capturer.successful_frames
        }),
{
}

/// An object that appeared is bound and noted as what it is; one of another kind is ignored. Feedback
/// on buffers is asked for where the object is new enough to give it.
pub proof fn law_objects_are_noted(capturer: Capturer, global: Global, version: u32)
    ensures
        ({
            let (binding, after) = capturer.spec_global(global, version);
            &&& binding == Binding::Ignore <==> global == Global::Other
            &&& binding == Binding::BindWithFeedback <==> global == Global::LinuxDmabuf && version
                >= 4
            &&& after.dmabuf == (capturer.dmabuf || global == Global::LinuxDmabuf)
            &&& after.dmabuf_manager == (capturer.dmabuf_manager || global
                == Global::ExportDmabufManager)
            &&& after.screencopy_manager == (capturer.screencopy_manager || global
                == Global::ScreencopyManager)
            &&& after.img_capture_source_manager == (capturer.img_capture_source_manager || global
                == Global::CaptureSourceManager)
            &&& after.img_copy_capture_manager == (capturer.img_copy_capture_manager || global
                == Global::CopyCaptureManager)
            &&& after == (Capturer {
                dmabuf: after.dmabuf,
                dmabuf_manager: after.dmabuf_manager,
                screencopy_manager: after.screencopy_manager,
                img_capture_source_manager: after.img_capture_source_manager,
                img_copy_capture_manager: after.img_copy_capture_manager,
                ..capturer
            })
        }),
{
}

/// A buffer fits frames of its own size and format, and where none is known every frame.
pub proof fn law_buffers_fit_frames_like_their_own(
    capturer: Capturer,
    width: u32,
    height: u32,
    format: u32,
)
    ensures
        capturer.pending_frame is None ==> capturer.buffer_fits(width, height, format),
        capturer.pending_frame is Some ==> (capturer.buffer_fits(width, height, format)
            <==> capturer.pending_frame->0.width == width && capturer.pending_frame->0.height
            == height && capturer.pending_frame->0.format == format),
{
}

/// The byte order that a machine turns out to have is the one in which it read a one and seven zeros.
pub proof fn law_the_byte_order_is_the_one_that_was_read(one: u64)
    requires
        wayland::in_memory(one, seq![1u8, 0, 0, 0, 0, 0, 0, 0]),
    ensures
        wayland::number(seq![1u8, 0, 0, 0, 0, 0, 0, 0], wayland::order_of(one)) == one,
        one == 1 || one == 0x100_0000_0000_0000,
        wayland::number(seq![1u8, 0, 0, 0, 0, 0, 0, 0], ByteOrder::Little) == 1,
{
    law_bytes_are_weighed_by_their_order(seq![1u8, 0, 0, 0, 0, 0, 0, 0]);
}

/// The choice of an output is in doubt after another one fits as well, no longer in doubt after a better
/// one takes its place, and otherwise as much as before.
pub proof fn law_doubt_comes_from_equal_matches(
    capturer: Capturer,
    output: u32,
    global_id: Option<u32>,
    quality: OutputMatch,
)
    ensures
        ({
            let after = capturer.matched(output, global_id, quality);
            let better = capturer.output_match == Some(OutputMatch::Substring) && quality
                == OutputMatch::Exact;
            let equal = capturer.output_match == Some(quality) && capturer.output != Some(output);
            &&& equal ==> after.output_match_ambiguous && after.output == capturer.output
                && after.output_global_id == capturer.output_global_id && after.output_match
                == capturer.output_match
            &&& better ==> !after.output_match_ambiguous
            &&& !equal && !better ==> after.output_match_ambiguous
                == capturer.output_match_ambiguous
            &&& better || capturer.output_match is None ==> after.output == Some(output)
                && after.output_global_id == global_id && after.output_match == Some(quality)
        }),
{
}

} // verus!
