use wluma::frame::capturer::pipewire::kwin::{
    connector, lookup_wait, ConnectorError, FindError, Found, Global, LookupError, State, Stream,
};
use wluma::frame::capturer::pipewire::mutter::{
    begin, remaining, stream_deadline, wait, SetupError, Stage, Wait, TIMEOUT,
};

fn outputs(versions: &[u32]) -> State {
    let mut state = State::new();
    for version in versions {
        state.global(Global::Output, *version);
    }
    state
}

#[test]
fn binds_known_versions() {
    let mut state = State::default();
    assert_eq!(state.global(Global::Output, 2), Some(2));
    assert_eq!(state.global(Global::Output, 9), Some(4));
    assert_eq!(state.global(Global::XdgOutputManager, 9), Some(3));
    assert_eq!(state.global(Global::Screencast, 9), Some(4));
    assert_eq!(state.global(Global::Screencast, 1), Some(1));
    assert_eq!(state.global(Global::Other, 1), None);
    assert!(state.manager);
    assert_eq!(state.unnamed_outputs(), vec![0]);
    assert!(outputs(&[1, 2]).unnamed_outputs().is_empty());
}

#[test]
fn keeps_the_name_of_the_chosen_output() {
    let mut state = outputs(&[4, 4]);
    state.match_output(0, "Dell DP-1 panel", "DP-1", false);
    assert_eq!(state.output, Some(0));
    assert_eq!(state.output_name, None);
    state.match_output(0, "eDP-1", "DP-1", true);
    assert_eq!(state.output_name.as_deref(), Some("eDP-1"));
    state.match_output(1, "DP-1", "DP-1", true);
    assert_eq!(state.output, Some(1));
    assert_eq!(state.output_name.as_deref(), Some("DP-1"));
    assert!(!state.output_match_ambiguous);
    state.match_output(0, "HDMI-1", "DP-1", true);
    assert_eq!(state.outputs[0].name.as_deref(), Some("HDMI-1"));
    assert_eq!(state.output_name.as_deref(), Some("DP-1"));
}

#[test]
fn finds_a_stream_or_a_connector() {
    let mut state = outputs(&[4, 4]);
    assert_eq!(state.find(true).unwrap_err(), FindError::NoOutput);
    state.match_output(0, "DP-1", "DP-1", true);
    assert!(matches!(state.find(true), Ok(Found::Connector(Some(_)))));
    state.global(Global::Screencast, 1);
    assert!(matches!(state.find(true), Ok(Found::Stream(0))));
    assert_eq!(connector(state.find(false)), Ok("DP-1".to_string()));
    assert_eq!(connector(state.find(true)), Err(ConnectorError::Unknown));
    state.match_output(1, "DP-1", "DP-1", true);
    assert_eq!(state.find(true).unwrap_err(), FindError::AmbiguousOutput);
    assert_eq!(
        connector(state.find(false)),
        Err(ConnectorError::Find(FindError::AmbiguousOutput))
    );
    let mut unnamed = outputs(&[1]);
    unnamed.match_output(0, "DP-1 panel", "DP-1", false);
    assert_eq!(
        connector(unnamed.find(false)),
        Err(ConnectorError::Unknown)
    );
}

#[test]
fn a_failed_stream_has_no_node() {
    let mut state = outputs(&[4]);
    assert!(matches!(state.stream(), Stream::Pending));
    state.stream_created(42);
    assert!(matches!(state.stream(), Stream::Node(42)));
    state.stream_closed();
    match state.stream() {
        Stream::Failed(message) => assert_eq!(message, "KDE closed the screen stream"),
        _ => panic!("a closed stream has failed"),
    }
    state.stream_failed("no permission".to_string());
    assert!(matches!(state.stream(), Stream::Failed(message) if message == "no permission"));
}

#[test]
fn output_lookup_is_bounded() {
    assert_eq!(lookup_wait(false, 0, 9), Err(LookupError::Interrupted));
    assert_eq!(lookup_wait(true, 9, 9), Err(LookupError::TimedOut));
    assert_eq!(lookup_wait(true, 0, 999_999), Ok(0));
    assert_eq!(lookup_wait(true, 0, 30_000_000), Ok(30));
    assert_eq!(lookup_wait(true, 0, 5_000_000_000), Ok(200));
}

#[test]
fn mutter_calls_are_bounded() {
    assert_eq!(remaining(5, 5), Err(SetupError::SetupTimedOut));
    assert_eq!(remaining(0, 7), Ok(7));
    assert_eq!(remaining(0, u64::MAX), Ok(TIMEOUT));
    assert_eq!(
        begin(Stage::Connect, false, 0, 9),
        Err(SetupError::Interrupted)
    );
    assert_eq!(begin(Stage::Connect, true, 9, 9), Ok(None));
    assert_eq!(begin(Stage::CreateSession, false, 0, 9), Ok(Some(9)));
    assert_eq!(
        begin(Stage::RecordMonitor, false, 9, 9),
        Err(SetupError::Interrupted)
    );
    assert_eq!(
        begin(Stage::RecordMonitor, true, 9, 9),
        Err(SetupError::SetupTimedOut)
    );
    assert_eq!(
        begin(Stage::Listen, false, 0, 9),
        Err(SetupError::Interrupted)
    );
    assert_eq!(begin(Stage::Start, false, 8, 9), Ok(Some(1)));
}

#[test]
fn waits_for_the_mutter_stream() {
    assert_eq!(stream_deadline(1, 9), 9);
    assert_eq!(stream_deadline(1, u64::MAX), TIMEOUT + 1);
    assert_eq!(wait(Some(3), false, 9, 1), Ok(Wait::Node(3)));
    assert_eq!(wait(None, false, 0, 1), Err(SetupError::Interrupted));
    assert_eq!(wait(None, true, 1, 1), Err(SetupError::StreamTimedOut));
    assert_eq!(wait(None, true, 0, 5), Ok(Wait::Process(5)));
    assert_eq!(
        wait(None, true, 0, 5_000_000_000),
        Ok(Wait::Process(200_000_000))
    );
}
