use wluma::control::{Property, ValueAdjustment};
use wluma::gamma::mutter;
use wluma::double::{Double, ONE_BITS};
use wluma::gamma::transition::{interpolate, to_progress};
use wluma::gamma::wayland::{gamma_table, ConnectError, Failure, State};
use wluma::gamma::{
    last, Advance, Backend, BackendError, CommandAction, Controller, Executed, Values,
    IDLE_INTERVAL, MUTTER_TRANSITION_INTERVAL, RETRY_INTERVAL, WAYLAND_TRANSITION_INTERVAL,
};
use wluma::gamma::ramp::WhitePoints;

fn output(name: &str) -> mutter::Output {
    mutter::Output {
        crtc: 0,
        name: name.to_string(),
    }
}

fn set(value: u64) -> ValueAdjustment {
    ValueAdjustment {
        relative: false,
        increase: false,
        value,
    }
}

fn step(increase: bool, value: u64) -> ValueAdjustment {
    ValueAdjustment {
        relative: true,
        increase,
        value,
    }
}

fn connected() -> Controller {
    let mut controller = Controller::new();
    assert_eq!(controller.connect(0), Some(Values::neutral()));
    controller.connected(Backend::Wayland, 0);
    controller
}

fn number(value: f64) -> Double {
    Double::from_bits(value.to_bits()).unwrap()
}

#[test]
fn interpolates_gamma_values_in_both_directions() {
    assert_eq!(interpolate(0, 100, number(0.0)), 0);
    assert_eq!(interpolate(0, 100, number(0.5)), 50);
    assert_eq!(interpolate(0, 100, number(1.0)), 100);
    assert_eq!(interpolate(6500, 4000, number(0.5)), 5250);
    assert_eq!(interpolate(6500, 4000, number(1.0)), 4000);
}

#[test]
fn interpolation_rounds_halves_up() {
    assert_eq!(interpolate(0, 5, number(0.5)), 3);
    assert_eq!(interpolate(5, 0, number(0.5)), 3);
    assert_eq!(interpolate(5, 0, number(0.51)), 2);
    assert_eq!(interpolate(0, 50, number(0.29)), 14);
    assert_eq!(interpolate(0, u64::MAX, number(1.0)), u64::MAX);
    assert_eq!(interpolate(3, 0, number(2.0)), 0);
}

#[test]
fn interpolation_is_that_of_double_precision() {
    for (from, to) in [(0, 100), (100, 0), (6500, 2000), (1000, 25000), (7, 7), (u64::MAX, 3)] {
        for step in 0..=200 {
            let progress = step as f64 / 200.0;
            let expected = (from as f64 + (to as f64 - from as f64) * progress).round() as u64;
            assert_eq!(interpolate(from, to, number(progress)), expected);
        }
    }
}

#[test]
fn progress_is_that_of_double_precision() {
    let times = (0..500_000_100_u64).step_by(1_234_567).chain(499_999_900..500_000_100);
    for time in times.chain([1_000_000_000, 1_500_000_000, u64::MAX]) {
        let elapsed = std::time::Duration::from_nanos(time);
        let total = std::time::Duration::from_millis(500);
        let progress = (elapsed.as_secs_f64() / total.as_secs_f64()).min(1.0);
        let progress = progress * progress * (3.0 - 2.0 * progress);
        assert_eq!(f64::from_bits(to_progress(time).to_bits()), progress);
    }
}

#[test]
fn matches_exact_output_before_partial_matches() {
    let outputs = vec![output("DP-1"), output("card0-DP-1")];

    let found = mutter::find_output(&outputs, "DP-1").unwrap();
    assert_eq!(outputs[found].name, "DP-1");
}

#[test]
fn matches_a_unique_partial_output_name() {
    let outputs = vec![output("card0-DP-1"), output("card0-HDMI-1")];

    let found = mutter::find_output(&outputs, "DP-1").unwrap();
    assert_eq!(outputs[found].name, "card0-DP-1");
}

#[test]
fn rejects_missing_or_ambiguous_output_names() {
    let outputs = vec![output("card0-DP-1"), output("card1-DP-1")];

    assert!(mutter::find_output(&outputs, "eDP-1").is_err());
    assert!(mutter::find_output(&outputs, "DP-1").is_err());
    assert_eq!(
        mutter::find_output(&outputs, "eDP-1"),
        Err(mutter::OutputError::NoOutput)
    );
    assert_eq!(
        mutter::find_output(&outputs, "DP-1"),
        Err(mutter::OutputError::AmbiguousOutput)
    );
}

#[test]
fn an_inactive_output_has_no_gamma() {
    let mut outputs = vec![output("card0-DP-1"), output("DP-1")];
    outputs[1].crtc = 71;
    assert_eq!(mutter::find_crtc(&outputs, "DP-1"), Ok(71));
    outputs[1].crtc = -1;
    assert_eq!(
        mutter::find_crtc(&outputs, "DP-1"),
        Err(mutter::OutputError::Inactive)
    );
    assert_eq!(
        mutter::find_crtc(&outputs, "HDMI"),
        Err(mutter::OutputError::NoOutput)
    );
}

#[test]
fn mutter_ramps_have_three_equal_channels() {
    let ramp = || vec![0, 1];
    assert!(mutter::Backend::new(1, 2, ramp(), ramp(), ramp()).is_ok());
    for (red, green, blue) in [
        (vec![], vec![], vec![]),
        (ramp(), vec![0], ramp()),
        (ramp(), ramp(), vec![0]),
    ] {
        assert_eq!(
            mutter::Backend::new(1, 2, red, green, blue).unwrap_err(),
            mutter::OutputError::InvalidLut
        );
    }
}

#[test]
fn falls_back_to_mutter() {
    let unavailable = || Err(Failure::Unavailable("no protocol".to_string()));
    let rejected = || Err(Failure::Rejected("refused".to_string()));
    assert!(!Backend::asks_mutter(&Ok(())));
    assert!(Backend::asks_mutter(&unavailable()));
    assert!(matches!(
        Backend::new(Ok(()), Err("unused".to_string())),
        Ok(Backend::Wayland)
    ));
    assert!(matches!(
        Backend::new(unavailable(), Ok(())),
        Ok(Backend::Mutter)
    ));
    assert!(matches!(
        Backend::new(rejected(), Ok(())),
        Ok(Backend::Mutter)
    ));
    match Backend::new(unavailable(), Err("no bus".to_string())) {
        Err(BackendError::Unsupported(message)) => {
            assert_eq!(message, "Wayland: no protocol; Mutter: no bus")
        }
        _ => panic!("nothing is available"),
    }
    match Backend::new(rejected(), Err("no bus".to_string())) {
        Err(BackendError::Rejected(message)) => assert_eq!(message, "refused"),
        _ => panic!("Wayland refused"),
    }
}

#[test]
fn retries_to_connect_after_a_while() {
    let mut controller = Controller::default();
    assert!(!controller.available());
    assert_eq!(controller.connect(5), Some(Values::neutral()));
    assert_eq!(controller.connect(4 + RETRY_INTERVAL), None);
    assert_eq!(
        controller.connect(5 + RETRY_INTERVAL),
        Some(Values::neutral())
    );
    controller.connected(Backend::Mutter, 9 + RETRY_INTERVAL);
    assert!(controller.available());
    assert_eq!(controller.connect(u64::MAX), None);
    assert_eq!(controller.transition, None);
}

#[test]
fn commands_need_gamma_control() {
    let mut controller = Controller::new();
    assert_eq!(
        controller.execute(CommandAction::Get(Property::Dim), false, 0),
        None
    );
    assert_eq!(
        controller.execute(CommandAction::Adjust(Property::Brightness, set(1)), false, 0),
        None
    );
}

#[test]
fn commands_keep_values_within_bounds() {
    let mut controller = connected();
    let mut adjust = |property, adjustment| {
        let executed = controller
            .execute(CommandAction::Adjust(property, adjustment), false, 0)
            .unwrap();
        assert_eq!(executed.chosen, Some(property));
        let read = controller
            .execute(CommandAction::Get(property), false, 0)
            .unwrap();
        assert_eq!(
            read,
            Executed {
                value: executed.value,
                chosen: None,
                learn: false
            }
        );
        executed.value
    };
    assert_eq!(adjust(Property::Dim, set(40)), 40);
    assert_eq!(adjust(Property::Dim, step(true, 15)), 55);
    assert_eq!(adjust(Property::Dim, step(true, u64::MAX)), 100);
    assert_eq!(adjust(Property::Dim, step(false, u64::MAX)), 0);
    assert_eq!(adjust(Property::Temperature, set(4000)), 4000);
    assert_eq!(adjust(Property::Temperature, set(0)), 1000);
    assert_eq!(adjust(Property::Temperature, set(u64::MAX)), 25000);
    assert_eq!(adjust(Property::Temperature, step(false, 500)), 24500);
}

#[test]
fn paused_commands_are_not_learned() {
    let mut controller = connected();
    let action = CommandAction::Adjust(Property::Dim, set(10));
    assert!(controller.execute(action, false, 0).unwrap().learn);
    assert!(!controller.execute(action, true, 0).unwrap().learn);
}

#[test]
fn transitions_are_gentle_and_end_at_the_target() {
    let mut controller = connected();
    controller.predicted(Some(100), None, false, 1_000);
    assert_eq!(controller.interval(), WAYLAND_TRANSITION_INTERVAL);
    assert_eq!(
        controller.advance(1_000),
        Some(Advance {
            next: Values::neutral(),
            apply: false,
            finished: false
        })
    );
    // A quarter of the time makes 15.625 percent of the way.
    let quarter = controller.advance(125_001_000).unwrap();
    assert_eq!(quarter.next.dim, 16);
    assert!(quarter.apply);
    controller.advanced(quarter, true);
    assert_eq!(controller.status(), (16, 6500));
    assert_eq!(controller.advance(250_001_000).unwrap().next.dim, 50);
    let end = controller.advance(500_001_000).unwrap();
    assert_eq!(end.next.dim, 100);
    assert!(end.finished);
    controller.advanced(end, true);
    assert_eq!(controller.current, controller.target);
    assert_eq!(controller.transition, None);
    assert_eq!(controller.advance(u64::MAX), None);
    assert_eq!(controller.interval(), IDLE_INTERVAL);
}

#[test]
fn a_failed_step_gives_up_control() {
    let mut controller = connected();
    controller.predicted(Some(50), Some(3000), false, 0);
    let half = controller.advance(250_000_000).unwrap();
    controller.advanced(half, true);
    assert_eq!(controller.current.dim, 25);
    assert_eq!(controller.current.temperature, 4750);
    let next = controller.advance(300_000_000).unwrap();
    controller.advanced(next, false);
    assert!(!controller.available());
    assert_eq!(controller.current, Values::neutral());
    assert_eq!(controller.transition, None);
    assert_eq!(controller.target.dim, 50);

    // The target is resumed once control is back.
    controller.connect(u64::MAX);
    controller.connected(Backend::Mutter, 7);
    assert_eq!(controller.interval(), MUTTER_TRANSITION_INTERVAL);
    assert_eq!(controller.advance(500_000_007).unwrap().next.dim, 50);
}

#[test]
fn predictions_are_bounded_and_can_be_paused() {
    let mut controller = connected();
    controller.predicted(Some(900), Some(5), true, 0);
    assert_eq!(controller.target, Values::neutral());
    controller.predicted(None, None, false, 0);
    assert_eq!(controller.target, Values::neutral());
    controller.predicted(Some(900), Some(5), false, 0);
    assert_eq!((controller.target.dim, controller.target.temperature), (100, 1000));
    controller.predicted(None, Some(30000), false, 0);
    assert_eq!(
        (controller.target.dim, controller.target.temperature),
        (100, 25000)
    );
    controller.set_target(Values::neutral(), 0);
    assert_eq!(controller.transition, None);
    assert_eq!(last(&vec![1, 2, 3]), Some(3));
    assert_eq!(last(&vec![]), None);
}

#[test]
fn wayland_matches_outputs_by_name_and_description() {
    let mut state = State::new();
    state.output_named(1, "card0-DP-1", "DP-1", true);
    state.output_named(2, "a DP-1 panel", "DP-1", false);
    assert_eq!(state.output, Some(1));
    assert!(state.output_ambiguous);
    state.output_named(3, "DP-1", "DP-1", true);
    assert_eq!(state.output, Some(3));
    assert!(state.output_exact && !state.output_ambiguous);
    state.output_named(3, "DP-1", "DP-1", true);
    assert!(!state.output_ambiguous);
    state.output_named(4, "DP-1", "DP-1", true);
    assert!(state.output_ambiguous);
    state.output_named(5, "HDMI-1", "DP-1", true);
    assert_eq!(state.output, Some(3));
}

#[test]
fn wayland_control_is_confirmed() {
    let mut state = State::default();
    assert_eq!(state.request_control(), Err(ConnectError::NoManager));
    assert_eq!(state.manager_appeared(3), 1);
    assert_eq!(state.request_control(), Err(ConnectError::NoOutput));
    state.output_named(7, "DP-1", "DP-1", true);
    assert_eq!(state.request_control(), Ok(7));
    assert!(state.control);
    assert_eq!(state.confirm(), Err(ConnectError::NoLut));
    state.gamma_size(0);
    assert_eq!(state.confirm(), Err(ConnectError::NoLut));
    state.gamma_size(256);
    assert_eq!(state.confirm(), Ok(256));
    state.control_failed();
    assert_eq!(state.confirm(), Err(ConnectError::Rejected));
    state.output_named(8, "DP-1", "DP-1", true);
    assert_eq!(state.request_control(), Err(ConnectError::AmbiguousOutput));
}

#[test]
fn only_a_refusal_is_a_rejection() {
    let text = |error: ConnectError| match error.failure("DP-1") {
        Failure::Unavailable(message) => message,
        Failure::Rejected(message) => format!("rejected: {message}"),
    };
    assert_eq!(
        text(ConnectError::AmbiguousOutput),
        "Multiple Wayland outputs match 'DP-1'"
    );
    assert_eq!(
        text(ConnectError::NoManager),
        "wlr-gamma-control-unstable-v1 is unavailable"
    );
    assert_eq!(
        text(ConnectError::NoOutput),
        "Unable to match 'DP-1' to a Wayland output"
    );
    assert_eq!(
        text(ConnectError::Rejected),
        "rejected: Gamma control was rejected for 'DP-1'"
    );
    assert_eq!(
        text(ConnectError::NoLut),
        "Gamma control reported no LUT for 'DP-1'"
    );
}

#[test]
fn tables_hold_the_channels_in_turn() {
    let mut gains = vec![[ONE_BITS; 3]; 24001];
    gains[0] = [ONE_BITS, 0x3fe0_0000_0000_0000, 0];
    let points = WhitePoints::new(gains).unwrap();
    assert_eq!(
        gamma_table(&points, 3, 0, 1000),
        vec![0, 32768, 65535, 0, 16384, 32768, 0, 0, 0]
    );
    assert!(gamma_table(&points, 0, 0, 1000).is_empty());
}

#[test]
fn transitions_do_not_turn_back() {
    let mut controller = connected();
    controller.predicted(Some(77), Some(2000), false, 0);
    let mut previous = Values::neutral();
    for time in 0..=50 {
        let next = controller.advance(time * 10_000_000).unwrap().next;
        assert!(next.dim >= previous.dim && next.dim <= 77);
        assert!(next.temperature <= previous.temperature && next.temperature >= 2000);
        previous = next;
    }
    assert_eq!(previous, controller.target);
}
