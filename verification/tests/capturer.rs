use wluma::config::{PipewireProtocol, WaylandProtocol};
use wluma::frame::capturer::none;
use wluma::frame::capturer::wayland;
use wluma::frame::capturer::{
    allows_degraded_mode, candidates, pipewire_candidates, prediction_due, probe_is_established,
    wait_slice, waits, Candidate, CandidateFamily, Capturer, Outcome, Plan, RunPolicy, Selected,
    SelectedMode, SelectedStep, SelectedVerdict, Selection, SelectionStep, SelectionVerdict,
    PORTAL_STARTUP_TIMEOUT, PREDICTION_INTERVAL, PROBATION_FRAMES, RECONNECT_INTERVAL,
    STARTUP_TIMEOUT,
};

#[test]
fn probe_requires_several_frames() {
    assert!(!probe_is_established(0));
    assert!(!probe_is_established(PROBATION_FRAMES - 1));
    assert!(probe_is_established(PROBATION_FRAMES));
}

#[test]
fn only_auto_capture_allows_degraded_mode() {
    assert!(allows_degraded_mode(CandidateFamily::Any));
    assert!(!allows_degraded_mode(CandidateFamily::Wayland));
    assert!(!allows_degraded_mode(CandidateFamily::Pipewire));
}

#[test]
fn pipewire_candidates_keep_portal_last() {
    assert_eq!(
        pipewire_candidates().last(),
        Some(&Candidate::Pipewire(PipewireProtocol::Portal))
    );
}

#[test]
fn portal_has_a_longer_startup_timeout() {
    assert_eq!(
        Candidate::Pipewire(PipewireProtocol::Portal).startup_timeout(),
        PORTAL_STARTUP_TIMEOUT
    );
    assert_eq!(
        Candidate::Pipewire(PipewireProtocol::Kwin).startup_timeout(),
        STARTUP_TIMEOUT
    );
}

#[test]
fn prediction_runs_at_fixed_interval() {
    let now = 5_000_000_000;
    assert!(prediction_due(None, now));
    assert!(!prediction_due(Some(now), now + PREDICTION_INTERVAL - 1));
    assert!(prediction_due(Some(now), now + PREDICTION_INTERVAL));
}

#[test]
fn plans_follow_the_configuration() {
    assert_eq!(
        Capturer::Auto.run(),
        Plan::Selecting(CandidateFamily::Any)
    );
    assert_eq!(
        Capturer::Disabled(none::Capturer::default()).run(),
        Plan::Disabled
    );
    assert_eq!(
        Capturer::Pipewire(PipewireProtocol::Any).run(),
        Plan::Selecting(CandidateFamily::Pipewire)
    );
    assert_eq!(
        Capturer::Pipewire(PipewireProtocol::Mutter).run(),
        Plan::Explicit(Candidate::Pipewire(PipewireProtocol::Mutter))
    );
    assert_eq!(
        Capturer::Wayland(wayland::Capturer::new(WaylandProtocol::Any)).run(),
        Plan::Selecting(CandidateFamily::Wayland)
    );
    let protocol = WaylandProtocol::WlrScreencopyUnstableV1;
    assert_eq!(
        Capturer::Wayland(wayland::Capturer::new(protocol)).run(),
        Plan::Explicit(Candidate::Wayland(protocol))
    );
}

#[test]
fn candidates_belong_to_their_family() {
    let protocols = vec![
        WaylandProtocol::WlrScreencopyUnstableV1,
        WaylandProtocol::WlrExportDmabufUnstableV1,
    ];
    assert_eq!(
        candidates(CandidateFamily::Any, &protocols),
        vec![
            Candidate::Wayland(WaylandProtocol::WlrScreencopyUnstableV1),
            Candidate::Wayland(WaylandProtocol::WlrExportDmabufUnstableV1),
            Candidate::Pipewire(PipewireProtocol::Kwin),
            Candidate::Pipewire(PipewireProtocol::Mutter),
            Candidate::Pipewire(PipewireProtocol::Portal),
        ]
    );
    assert_eq!(candidates(CandidateFamily::Wayland, &protocols).len(), 2);
    assert_eq!(
        candidates(CandidateFamily::Pipewire, &protocols),
        pipewire_candidates()
    );
    assert!(candidates(CandidateFamily::Wayland, &vec![]).is_empty());
}

#[test]
fn startup_takes_over_the_policy() {
    let policy = RunPolicy {
        required_frames: 3,
        discard_stale_inputs_before_first_frame: true,
    };
    let startup = Candidate::Pipewire(PipewireProtocol::Portal).startup(7, policy);
    assert_eq!(startup.deadline, 60_000_000_007);
    assert_eq!(startup.required_frames, 3);
    assert!(startup.discard_stale_inputs_before_first_frame);
}

#[test]
fn every_candidate_is_tried_before_the_search_ends() {
    let failed = Outcome::Failed { frames: 2 };
    for (family, end) in [
        (CandidateFamily::Any, SelectionStep::Degrade(200_000_000)),
        (
            CandidateFamily::Pipewire,
            SelectionStep::Fail(CandidateFamily::Pipewire),
        ),
    ] {
        let mut selection = Selection::new(family, pipewire_candidates());
        for candidate in pipewire_candidates() {
            assert_eq!(
                selection.next(true),
                SelectionStep::Attempt(
                    candidate,
                    RunPolicy {
                        required_frames: PROBATION_FRAMES,
                        discard_stale_inputs_before_first_frame: false,
                    }
                )
            );
            assert_eq!(selection.attempted(failed), SelectionVerdict::Continue);
        }
        assert_eq!(selection.next(true), end);
        assert_eq!(selection.next(false), SelectionStep::Stop);
    }
}

#[test]
fn an_established_candidate_ends_the_search() {
    let mut selection = Selection::new(CandidateFamily::Any, pipewire_candidates());
    assert_eq!(
        selection.attempted(Outcome::Failed { frames: 0 }),
        SelectionVerdict::Continue
    );
    assert_eq!(
        selection.attempted(Outcome::Failed {
            frames: PROBATION_FRAMES
        }),
        SelectionVerdict::Reconnect(Candidate::Pipewire(PipewireProtocol::Mutter))
    );
    assert_eq!(
        selection.attempted(Outcome::Finished),
        SelectionVerdict::Stop
    );
}

#[test]
fn only_the_first_failure_of_an_explicit_candidate_is_fatal() {
    let candidate = Candidate::Pipewire(PipewireProtocol::Kwin);
    let none = Outcome::Failed { frames: 0 };
    let mut selected = Selected::new(candidate, SelectedMode::Explicit);
    assert_eq!(
        selected.next(true),
        SelectedStep::Attempt(RunPolicy {
            required_frames: 1,
            discard_stale_inputs_before_first_frame: false,
        })
    );
    assert_eq!(selected.attempted(none, true), SelectedVerdict::Fail);

    let wait = SelectedVerdict::Wait(RECONNECT_INTERVAL);
    assert_eq!(
        selected.attempted(Outcome::Failed { frames: 1 }, true),
        wait
    );
    assert_eq!(selected.attempted(none, true), wait);
    assert_eq!(
        selected.next(true),
        SelectedStep::Attempt(RunPolicy {
            required_frames: 1,
            discard_stale_inputs_before_first_frame: true,
        })
    );
    assert_eq!(
        selected.attempted(Outcome::Finished, true),
        SelectedVerdict::Stop
    );
    assert_eq!(selected.next(false), SelectedStep::Stop);

    let mut stopping = Selected::new(candidate, SelectedMode::Explicit);
    assert_eq!(stopping.attempted(none, false), wait);
    let mut reconnecting = Selected::new(candidate, SelectedMode::Reconnecting);
    assert_eq!(reconnecting.attempted(none, true), wait);
}

#[test]
fn waits_in_slices_up_to_the_deadline() {
    assert!(waits(true, 1, 2));
    assert!(!waits(false, 1, 2));
    assert!(!waits(true, 2, 2));
    assert_eq!(wait_slice(0, 250_000_000), 100_000_000);
    assert_eq!(wait_slice(200_000_000, 250_000_000), 50_000_000);
    assert_eq!(wait_slice(300_000_000, 250_000_000), 0);
}

#[test]
fn a_disabled_capturer_adjusts_at_an_interval() {
    let mut capturer = none::Capturer::new();
    assert_eq!(capturer.run(true, 0), none::Step::Adjust);
    capturer.adjusted(1_000);
    assert_eq!(capturer.run(true, 1_000), none::Step::Sleep(100_000_000));
    assert_eq!(
        capturer.run(true, 150_001_000),
        none::Step::Sleep(50_000_000)
    );
    assert_eq!(capturer.run(true, 200_001_000), none::Step::Adjust);
    capturer.adjusted(200_001_000);
    assert_eq!(capturer.run(false, 200_001_001), none::Step::Stop);
}

#[test]
fn concrete_protocols_have_names() {
    assert_eq!(WaylandProtocol::Any.actual_name(), None);
    assert_eq!(
        WaylandProtocol::ExtImageCopyCaptureV1.actual_name(),
        Some("ext-image-copy-capture-v1")
    );
    assert_eq!(
        WaylandProtocol::WlrScreencopyUnstableV1.actual_name(),
        Some("wlr-screencopy-unstable-v1")
    );
    assert_eq!(
        WaylandProtocol::WlrExportDmabufUnstableV1.actual_name(),
        Some("wlr-export-dmabuf-unstable-v1")
    );
}
