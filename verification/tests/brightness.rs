use wluma::brightness::ddcutil::{
    binary_serial_identifiers, choose_listed, display_matches, find_display, find_raw_display,
    raw_display_identifiers, service_result, supported_version, Backend, DdcUtil, DetectedDisplay,
    Listing, RawDisplay,
};

fn display(model: &str, serial: &str, binary: u32) -> DetectedDisplay {
    (
        1,
        0,
        0,
        "GSM".to_string(),
        model.to_string(),
        serial.to_string(),
        0,
        "edid".to_string(),
        binary,
    )
}

#[test]
fn matches_service_display_identifiers() {
    let display = (
        1,
        0,
        0,
        "GSM".to_string(),
        "LG ULTRAWIDE".to_string(),
        "504AZER5F964".to_string(),
        0,
        "edid".to_string(),
        0x1234abcd,
    );
    assert!(display_matches(&display, "LG ULTRAWIDE"));
    assert!(display_matches(&display, "504AZER5F964"));
    assert!(display_matches(&display, "305441741"));
    assert!(display_matches(&display, "0x1234abcd"));
    assert!(!display_matches(&display, "missing"));
}

#[test]
fn formats_binary_serial_identifiers() {
    assert_eq!(
        binary_serial_identifiers(0x1234abcd),
        "305441741 0x1234abcd"
    );
}

#[test]
fn pads_binary_serial_identifiers() {
    assert_eq!(binary_serial_identifiers(0), "0 0x00000000");
    assert_eq!(binary_serial_identifiers(u32::MAX), "4294967295 0xffffffff");
}

#[test]
fn matches_across_identifiers_but_not_the_encoded_edid() {
    let display = display("LG ULTRAWIDE", "504AZER5F964", 1);
    assert!(display_matches(&display, "GSM LG ULTRAWIDE 504"));
    assert!(display_matches(&display, "1 0x00000001"));
    assert!(!display_matches(&display, "edid"));
}

#[test]
fn takes_the_first_matching_display() {
    let displays = vec![
        display("A", "one", 1),
        display("B", "two", 2),
        display("B", "three", 3),
    ];
    assert_eq!(find_display(&displays, "B"), Some(1));
    assert_eq!(find_display(&displays, "three"), Some(2));
    assert_eq!(find_display(&displays, "four"), None);

    let listed = Some(displays);
    assert_eq!(choose_listed(&listed, "one"), Listing::Use(0));
    assert_eq!(choose_listed(&listed, "four"), Listing::Detect);
    assert_eq!(choose_listed(&None, "one"), Listing::Detect);
}

#[test]
fn identifies_raw_displays_by_what_is_known() {
    let unknown = RawDisplay {
        model_name: None,
        serial_number: None,
        manufacturer_id: None,
        serial: None,
    };
    assert_eq!(raw_display_identifiers(&unknown), "   ");
    let known = RawDisplay {
        model_name: Some("LG".to_string()),
        serial_number: Some("504".to_string()),
        manufacturer_id: Some("GSM".to_string()),
        serial: Some(16),
    };
    assert_eq!(
        raw_display_identifiers(&known),
        "LG 504 GSM 16 0x00000010"
    );
    let displays = vec![unknown, known];
    assert_eq!(find_raw_display(&displays, "GSM"), Some(1));
    assert_eq!(find_raw_display(&displays, " "), Some(0));
    assert_eq!(find_raw_display(&displays, "missing"), None);
}

#[test]
fn understands_the_first_interface_version() {
    assert!(supported_version("1"));
    assert!(supported_version("1.0.7"));
    assert!(!supported_version("10.1"));
    assert!(!supported_version("2.1"));
    assert!(!supported_version(""));
}

#[test]
fn reports_failed_service_calls() {
    assert!(service_result(0, "ignored", "read brightness").is_ok());
    let error = service_result(-3, "no display", "read brightness").unwrap_err();
    assert_eq!(error.status, -3);
    assert_eq!(error.message, "no display");
    assert_eq!(error.operation, "read brightness");
}

#[test]
fn keeps_brightness_within_its_bounds() {
    let mut service = DdcUtil::new(Backend::Service, 100, 5);
    assert_eq!((service.min(), service.max()), (5, 100));
    assert_eq!(service.get(3, 80), 5);
    assert_eq!(service.max(), 80);
    assert_eq!(service.get(90, 80), 80);
    assert_eq!(service.get(50, 3), 5);
    assert_eq!(service.max(), 5);

    let mut raw = DdcUtil::new(Backend::Raw, 100, 5);
    assert_eq!(raw.get(90, 80), 90);
    assert_eq!(raw.max(), 100);
    assert_eq!(raw.set(0), (5, 5));
    assert_eq!(raw.set(70), (70, 70));
    assert_eq!(raw.set(1000), (100, 100));
    assert_eq!(raw.waiting_sleep_ms(), 500);
    assert_eq!(raw.transition_step_ms(), 50);

    let huge = DdcUtil::new(Backend::Raw, 100, 70000);
    assert_eq!((huge.min(), huge.max()), (70000, 70000));
    assert_eq!(huge.set(1), (70000, 4464));
}
