use wluma::config::WaylandProtocol;
use wluma::frame::capturer::wayland::{
    copies_with_damage, device_numbers, join_modifier, match_action, output_match,
    parse_drm_device, parse_drm_device_in, parse_modifiers, poll_timeout, polled, roundtrip,
    split_modifier, Binding, ByteOrder, Capturer, Constraints, Failure, Frame, Global, MatchAction,
    OutputMatch, Polled, Processed, Request, Roundtrip, StartError, Step, VulkanChoice,
    DELAY_FAILURE, DELAY_SUCCESS,
};
use wluma::frame::capturer::{Startup, PREDICTION_INTERVAL};

fn startup(required_frames: usize) -> Startup {
    Startup {
        deadline: 1_000,
        required_frames,
        discard_stale_inputs_before_first_frame: false,
    }
}

fn capturer(protocol: WaylandProtocol) -> Capturer {
    let mut capturer = Capturer::new(protocol);
    for global in [
        Global::ExportDmabufManager,
        Global::LinuxDmabuf,
        Global::ScreencopyManager,
        Global::CaptureSourceManager,
        Global::CopyCaptureManager,
    ] {
        assert_eq!(capturer.global(global, 1), Binding::Bind);
    }
    capturer.output_named(4, Some(9), "DP-1", "DP-1", true);
    capturer
}

fn frame(width: u32, height: u32, format: u32) -> Frame {
    Frame {
        width,
        height,
        num_objects: 1,
        format,
        layout: None,
    }
}

#[test]
fn parses_drm_device() {
    let device = libc::makedev(226, 128);
    assert_eq!(parse_drm_device(&device.to_ne_bytes()), Some((226, 128)));
}

#[test]
fn ranks_exact_names_above_substrings() {
    assert_eq!(output_match("DP-1", "DP-1", true), Some(OutputMatch::Exact));
    assert_eq!(
        output_match("eDP-1", "DP-1", true),
        Some(OutputMatch::Substring)
    );
    assert_eq!(
        output_match("BNQ BenQ PD3225U", "PD3225", false),
        Some(OutputMatch::Substring)
    );
}

#[test]
fn descriptions_are_substring_matches() {
    assert_eq!(
        output_match("DP-1", "DP-1", false),
        Some(OutputMatch::Substring)
    );
}

#[test]
fn does_not_match_an_empty_output_name() {
    assert_eq!(output_match("Some display (DP-1)", "", false), None);
}

#[test]
fn ignores_a_later_edp_substring_after_an_exact_dp_match() {
    assert_eq!(
        match_action(Some(OutputMatch::Exact), OutputMatch::Substring, false),
        MatchAction::Ignore
    );
}

#[test]
fn replaces_a_substring_with_a_later_exact_match() {
    assert_eq!(
        match_action(Some(OutputMatch::Substring), OutputMatch::Exact, false),
        MatchAction::Replace
    );
}

#[test]
fn detects_equally_specific_matches_from_different_outputs() {
    assert_eq!(
        match_action(Some(OutputMatch::Substring), OutputMatch::Substring, false),
        MatchAction::Ambiguous
    );
    assert_eq!(
        match_action(Some(OutputMatch::Substring), OutputMatch::Substring, true),
        MatchAction::Ignore
    );
}

#[test]
fn selects_the_first_match() {
    assert_eq!(
        match_action(None, OutputMatch::Substring, false),
        MatchAction::Select
    );
}

#[test]
fn splits_device_numbers() {
    for (major, minor) in [(226, 128), (0, 0), (0xabcde, 0x12345678), (u32::MAX, u32::MAX)] {
        let device = libc::makedev(major, minor);
        assert_eq!(device_numbers(device), (major, minor));
    }
    assert_eq!(parse_drm_device(&[0; 7]), None);
    assert_eq!(parse_drm_device(&[0; 9]), None);
}

#[test]
fn parses_whole_modifiers_only() {
    let numbers: [u64; 2] = [7, 0x0102030405060708];
    let mut little: Vec<u8> = numbers.iter().flat_map(|number| number.to_le_bytes()).collect();
    let mut big: Vec<u8> = numbers.iter().flat_map(|number| number.to_be_bytes()).collect();
    little.extend_from_slice(&[1, 2, 3]);
    big.extend_from_slice(&[1, 2, 3]);
    assert_eq!(parse_modifiers(&little, ByteOrder::Little), numbers);
    assert_eq!(parse_modifiers(&big, ByteOrder::Big), numbers);
    assert_eq!(
        parse_modifiers(&little, ByteOrder::Big),
        [0x0700000000000000, 0x0807060504030201]
    );
    assert!(parse_modifiers(&little[..7], ByteOrder::Little).is_empty());
}

#[test]
fn reads_devices_in_a_byte_order() {
    let device = libc::makedev(226, 128);
    assert_eq!(
        parse_drm_device_in(&device.to_le_bytes(), ByteOrder::Little),
        Some((226, 128))
    );
    assert_eq!(
        parse_drm_device_in(&device.to_be_bytes(), ByteOrder::Big),
        Some((226, 128))
    );
    assert_ne!(
        parse_drm_device_in(&device.to_le_bytes(), ByteOrder::Big),
        Some((226, 128))
    );
    assert_eq!(parse_drm_device_in(&[0; 7], ByteOrder::Little), None);
    let native = if puts_little_first() { ByteOrder::Little } else { ByteOrder::Big };
    assert_eq!(Capturer::new(WaylandProtocol::Any).byte_order, native);
}

/// Whether this machine puts the least significant byte first.
fn puts_little_first() -> bool {
    1_u64.to_ne_bytes()[0] == 1
}

#[test]
fn joins_what_was_split() {
    for modifier in [0, 1, 0x0102030405060708, u64::MAX, 1 << 32] {
        let (high, low) = split_modifier(modifier);
        assert_eq!(join_modifier(high, low), modifier);
        assert_eq!((high, low), ((modifier >> 32) as u32, modifier as u32));
    }
}

#[test]
fn polls_at_most_until_the_deadline() {
    assert_eq!(poll_timeout(0, 1_000_000_000), 200);
    assert_eq!(poll_timeout(0, 150_900_000), 150);
    assert_eq!(poll_timeout(5, 5), 0);
    assert_eq!(poll_timeout(6, 5), 0);
}

#[test]
fn the_best_match_is_chosen_in_any_order() {
    let names = [(1, "eDP-1"), (2, "DP-1"), (3, "card1-DP-1")];
    for order in [[0, 1, 2], [1, 2, 0], [2, 0, 1], [2, 1, 0]] {
        let mut capturer = Capturer::new(WaylandProtocol::Any);
        for index in order {
            let (output, name) = names[index];
            capturer.output_named(output, Some(output + 10), name, "DP-1", true);
        }
        assert_eq!(capturer.output, Some(2));
        assert_eq!(capturer.output_global_id, Some(12));
        assert_eq!(capturer.output_match, Some(OutputMatch::Exact));
        assert!(!capturer.output_match_ambiguous);
    }
    let mut capturer = Capturer::new(WaylandProtocol::Any);
    capturer.output_named(1, Some(11), "eDP-1", "DP-1", true);
    capturer.output_named(3, Some(13), "card1-DP-1", "DP-1", true);
    assert_eq!(capturer.output, Some(1));
    assert!(capturer.output_match_ambiguous);
    assert_eq!(capturer.select_protocol(), Err(StartError::AmbiguousOutput));
    capturer.output_named(1, Some(11), "a DP-1 panel", "DP-1", false);
    assert!(capturer.output_match_ambiguous);
}

#[test]
fn a_removed_output_can_be_replaced() {
    let mut capturer = capturer(WaylandProtocol::Any);
    capturer.global_removed(8);
    assert_eq!(capturer.output, Some(4));
    capturer.global_removed(9);
    assert_eq!(capturer.output, None);
    assert_eq!(capturer.output_match, None);
    assert_eq!(capturer.select_protocol(), Err(StartError::NoOutput));
    capturer.output_named(5, Some(10), "DP-1", "DP-1", true);
    assert_eq!(capturer.output, Some(5));
}

#[test]
fn selects_the_preferred_supported_protocol() {
    let ext = WaylandProtocol::ExtImageCopyCaptureV1;
    let screencopy = WaylandProtocol::WlrScreencopyUnstableV1;
    let export = WaylandProtocol::WlrExportDmabufUnstableV1;
    let mut all = capturer(WaylandProtocol::Any);
    assert_eq!(all.supported_protocols(), vec![ext, screencopy, export]);
    assert_eq!(all.select_protocol(), Ok(ext));
    assert_eq!(*all.protocol(), ext);

    let mut capturer = Capturer::new(WaylandProtocol::Any);
    capturer.output_named(4, Some(9), "DP-1", "DP-1", true);
    assert_eq!(capturer.select_protocol(), Err(StartError::NoProtocol));
    capturer.global(Global::ExportDmabufManager, 1);
    capturer.global(Global::ScreencopyManager, 1);
    assert_eq!(capturer.supported_protocols(), vec![export]);
    assert_eq!(
        capturer.global(Global::LinuxDmabuf, 4),
        Binding::BindWithFeedback
    );
    assert_eq!(capturer.supported_protocols(), vec![screencopy, export]);
    assert_eq!(capturer.global(Global::Other, 1), Binding::Ignore);
    assert_eq!(capturer.global(Global::Output, 1), Binding::Bind);
}

#[test]
fn says_what_a_requested_protocol_lacks() {
    let ext = WaylandProtocol::ExtImageCopyCaptureV1;
    let screencopy = WaylandProtocol::WlrScreencopyUnstableV1;
    let export = WaylandProtocol::WlrExportDmabufUnstableV1;
    let start = |protocol, globals: &[Global]| {
        let mut capturer = Capturer::new(protocol);
        capturer.output_named(4, Some(9), "DP-1", "DP-1", true);
        for global in globals {
            capturer.global(*global, 1);
        }
        capturer.select_protocol()
    };
    assert_eq!(start(ext, &[]), Err(StartError::Unavailable(ext)));
    assert_eq!(
        start(ext, &[Global::CopyCaptureManager]),
        Err(StartError::NoCaptureSource)
    );
    assert_eq!(
        start(
            ext,
            &[Global::CopyCaptureManager, Global::CaptureSourceManager]
        ),
        Err(StartError::NoDmabuf(ext))
    );
    assert_eq!(
        start(screencopy, &[]),
        Err(StartError::Unavailable(screencopy))
    );
    assert_eq!(
        start(screencopy, &[Global::ScreencopyManager]),
        Err(StartError::NoDmabuf(screencopy))
    );
    assert_eq!(start(export, &[]), Err(StartError::Unavailable(export)));
    assert_eq!(start(export, &[Global::ExportDmabufManager]), Ok(export));
}

#[test]
fn prefers_the_configured_device() {
    let mut capturer = capturer(WaylandProtocol::Any);
    assert!(matches!(capturer.vulkan_choice(), VulkanChoice::Default));
    capturer.main_device(&libc::makedev(226, 128).to_ne_bytes());
    assert!(matches!(
        capturer.vulkan_choice(),
        VulkanChoice::Drm(226, 128)
    ));
    capturer.begin(Some("/dev/dri/renderD129".to_string()), &startup(1));
    match capturer.vulkan_choice() {
        VulkanChoice::Path(path) => assert_eq!(path, "/dev/dri/renderD129"),
        _ => panic!("the configured device has to be used"),
    }
    capturer.vulkan_ready();
    assert!(capturer.vulkan);
    capturer.main_device(&[1, 2, 3]);
    assert_eq!(capturer.take_failure(), Some(Failure::InvalidMainDevice));
    assert_eq!(capturer.take_failure(), None);
}

#[test]
fn gives_up_without_enough_frames_in_time() {
    let mut capturer = capturer(WaylandProtocol::WlrScreencopyUnstableV1);
    assert_eq!(capturer.step(false, &startup(2), 0), Step::Finished);
    assert_eq!(
        capturer.step(true, &startup(2), 999),
        Step::Request(Request::Screencopy)
    );
    assert_eq!(capturer.step(true, &startup(2), 999), Step::Wait);
    assert_eq!(
        capturer.step(true, &startup(2), 1_000),
        Step::TooFewFrames {
            captured: 0,
            required: 2
        }
    );
    assert_eq!(
        capturer.frame_ready(Some(30), 5),
        Processed::Adjust {
            discard_stale_inputs: false,
            luma: 30,
            delay: DELAY_SUCCESS
        }
    );
    assert_eq!(
        capturer.step(true, &startup(1), 1_000),
        Step::Request(Request::Screencopy)
    );
}

#[test]
fn discards_stale_inputs_before_the_first_frame_only() {
    let mut capturer = capturer(WaylandProtocol::WlrScreencopyUnstableV1);
    let mut policy = startup(1);
    policy.discard_stale_inputs_before_first_frame = true;
    capturer.begin(None, &policy);
    assert!(capturer.process_luma(20, 1));
    assert!(!capturer.process_luma(30, 2));
    assert_eq!(capturer.successful_frames, 2);
    assert_eq!(capturer.latest_luma, Some(30));
}

#[test]
fn predicts_again_with_the_latest_luma() {
    let mut capturer = capturer(WaylandProtocol::WlrScreencopyUnstableV1);
    assert_eq!(capturer.process_prediction_tick(7), None);
    assert_eq!(capturer.last_adjustment, None);
    capturer.process_luma(20, 7);
    assert_eq!(
        capturer.process_prediction_tick(6 + PREDICTION_INTERVAL),
        None
    );
    assert_eq!(
        capturer.process_prediction_tick(7 + PREDICTION_INTERVAL),
        Some(20)
    );
    assert_eq!(
        capturer.process_prediction_tick(8 + PREDICTION_INTERVAL),
        None
    );
}

#[test]
fn exported_frames_keep_their_layout() {
    let mut capturer = capturer(WaylandProtocol::WlrExportDmabufUnstableV1);
    assert_eq!(
        capturer.step(true, &startup(1), 0),
        Step::Request(Request::ExportDmabuf)
    );
    capturer.export_frame(1920, 1080, 1, 875713112, 1, 2);
    capturer.export_object(16, 7680);
    assert_eq!(
        capturer.pending_frame,
        Some(Frame {
            width: 1920,
            height: 1080,
            num_objects: 1,
            format: 875713112,
            layout: Some(((1 << 32) + 2, 16, 7680)),
        })
    );
    assert!(matches!(
        capturer.export_ready(Some(40), 3),
        Processed::Adjust { luma: 40, .. }
    ));
    assert_eq!(capturer.pending_frame, None);
    assert!(!capturer.is_processing_frame);

    capturer.step(true, &startup(1), 0);
    capturer.export_frame(1920, 1080, 1, 875713112, 1, 2);
    assert_eq!(capturer.export_cancelled(), DELAY_FAILURE);
    assert_eq!(capturer.pending_frame, None);
    assert!(!capturer.is_processing_frame);

    capturer.step(true, &startup(1), 0);
    capturer.export_frame(1920, 1080, 1, 875713112, 1, 2);
    assert_eq!(capturer.export_ready(None, 4), Processed::Failed);
    assert!(capturer.is_processing_frame);
    assert_eq!(capturer.take_failure(), Some(Failure::ProcessFrame));
}

#[test]
fn screencopy_exports_a_buffer_where_none_fits() {
    let mut capturer = capturer(WaylandProtocol::WlrScreencopyUnstableV1);
    let first = capturer.screencopy_constraints(100, 50, 7);
    assert!(!first.destroy_buffer);
    assert_eq!(first.export, Some(frame(100, 50, 7)));
    capturer.screencopy_exported(first.export.unwrap(), true);
    assert!(capturer.wl_buffer);

    let same = capturer.screencopy_constraints(100, 50, 7);
    assert!(!same.destroy_buffer);
    assert_eq!(same.export, None);

    let other = capturer.screencopy_constraints(100, 50, 8);
    assert!(other.destroy_buffer);
    assert_eq!(other.export, Some(frame(100, 50, 8)));
    capturer.screencopy_exported(other.export.unwrap(), false);
    assert_eq!(capturer.take_failure(), Some(Failure::ExportBuffer));
    assert!(!capturer.wl_buffer);

    capturer.screencopy_exported(frame(100, 50, 8), true);
    assert_eq!(capturer.screencopy_failed(), (true, DELAY_FAILURE));
    assert_eq!(capturer.screencopy_failed(), (false, DELAY_FAILURE));
    assert!(!copies_with_damage(1));
    assert!(copies_with_damage(2));
}

#[test]
fn exported_frames_leave_a_buffer_alone() {
    let mut capturer = capturer(WaylandProtocol::WlrExportDmabufUnstableV1);
    capturer.screencopy_exported(frame(100, 50, 8), true);
    assert_eq!(capturer.export_cancelled(), DELAY_FAILURE);
    assert!(capturer.wl_buffer);
    assert_eq!(capturer.pending_frame, None);
    assert_eq!(
        capturer.step(true, &startup(1), 0),
        Step::Request(Request::ExportDmabuf)
    );
}

#[test]
fn sessions_use_the_first_exportable_format() {
    let mut capturer = capturer(WaylandProtocol::ExtImageCopyCaptureV1);
    assert_eq!(
        capturer.step(true, &startup(1), 0),
        Step::Request(Request::CopyCapture {
            create_session: true,
            frame: None
        })
    );
    assert!(!capturer.is_processing_frame);
    capturer.buffer_size(640, 480);
    let bytes: Vec<u8> = [5_u64, 6, 7]
        .iter()
        .flat_map(|modifier| modifier.to_ne_bytes())
        .collect();
    capturer.dmabuf_format(1, &bytes);
    capturer.dmabuf_format(2, &bytes);
    capturer.dmabuf_format(3, &bytes);
    let supported = vec![None, Some(vec![9, 7, 5]), Some(vec![5])];
    match capturer.session_done(&supported) {
        Constraints::Export {
            destroy_buffer,
            frame: exported,
            modifiers,
        } => {
            assert!(!destroy_buffer);
            assert_eq!(exported, frame(640, 480, 2));
            assert_eq!(modifiers, vec![5, 7]);
        }
        _ => panic!("the second format can be exported"),
    }
    assert!(capturer.dmabuf_formats.is_empty());
    capturer.session_exported(true);
    assert_eq!(
        capturer.step(true, &startup(1), 0),
        Step::Request(Request::CopyCapture {
            create_session: false,
            frame: Some((640, 480))
        })
    );
    assert_eq!(capturer.step(true, &startup(1), 0), Step::Wait);
    assert_eq!(capturer.frame_failed(), DELAY_FAILURE);
    assert_eq!(capturer.session_stopped(), (true, DELAY_FAILURE));
    assert!(!capturer.img_copy_capture_session);
}

#[test]
fn sessions_fail_without_an_exportable_format() {
    let mut capturer = capturer(WaylandProtocol::ExtImageCopyCaptureV1);
    capturer.buffer_size(640, 480);
    capturer.dmabuf_format(1, &5_u64.to_ne_bytes());
    assert!(matches!(
        capturer.session_done(&vec![Some(vec![6])]),
        Constraints::Unusable {
            destroy_buffer: false
        }
    ));
    assert!(matches!(
        capturer.session_done(&vec![]),
        Constraints::Ignore
    ));
    assert_eq!(capturer.take_failure(), Some(Failure::NoUsableFormat));
    capturer.buffer_size(640, 480);
    capturer.session_exported(false);
    assert_eq!(capturer.take_failure(), Some(Failure::ExportBuffer));
}

#[test]
fn follows_the_allocation_device_unless_one_is_configured() {
    let device = libc::makedev(226, 129).to_ne_bytes();
    let mut automatic = capturer(WaylandProtocol::ExtImageCopyCaptureV1);
    assert_eq!(automatic.dmabuf_device(&device), Some((226, 129)));
    assert_eq!(automatic.dmabuf_device(&device), None);
    automatic.vulkan_initialized(true);
    assert!(automatic.vulkan);
    automatic.vulkan_initialized(false);
    assert_eq!(automatic.take_failure(), Some(Failure::InitializeVulkan));
    assert_eq!(automatic.dmabuf_device(&device[..4]), None);
    assert_eq!(
        automatic.take_failure(),
        Some(Failure::InvalidAllocationDevice)
    );

    let mut configured = capturer(WaylandProtocol::ExtImageCopyCaptureV1);
    configured.begin(Some("/dev/dri/renderD128".to_string()), &startup(1));
    assert_eq!(configured.dmabuf_device(&device), None);
    assert_eq!(configured.drm_device, Some((226, 129)));
}

#[test]
fn roundtrips_end_in_time() {
    assert_eq!(roundtrip(true, 9, 9), Roundtrip::Done);
    assert_eq!(roundtrip(false, 9, 9), Roundtrip::TimedOut);
    assert_eq!(roundtrip(false, 8, 9), Roundtrip::Dispatch);
    assert_eq!(
        [polled(1), polled(0), polled(-1)],
        [Polled::Ready, Polled::Idle, Polled::Failed]
    );
}
