use wluma::als::applesmc::{
    discover, may_have_sensor, parse, Als, Device, DiscoverError, ErrorKind, DEVICE_PREFIX,
    PLATFORM_DEVICES, POLL_INTERVAL, SENSOR_FILE,
};

#[test]
fn parses_both_sensor_formats() {
    assert_eq!(11, parse("(11,0)\n").unwrap());
    assert_eq!(17, parse("(4,17)").unwrap());
    assert_eq!(0, parse("(0,0)").unwrap());
    assert_eq!(255, parse(" ( 255 , 0 ) ").unwrap());
}

#[test]
fn rejects_unexpected_readings() {
    assert!(parse("").is_err());
    assert!(parse("11").is_err());
    assert!(parse("(1)").is_err());
    assert!(parse("(-3,-1)").is_err());
    assert!(parse("(a,b)").is_err());
    assert!(parse("(1,2,3)").is_err());
}

#[test]
fn tells_malformed_readings_from_malformed_values() {
    let error = parse("  garbage\n").unwrap_err();
    assert_eq!(error.kind, ErrorKind::Reading);
    assert_eq!(error.text, "garbage");

    let error = parse("(1)").unwrap_err();
    assert_eq!(error.kind, ErrorKind::Reading);
    assert_eq!(error.text, "(1)");

    let error = parse("( a ,b)").unwrap_err();
    assert_eq!(error.kind, ErrorKind::Value);
    assert_eq!(error.text, " a ");

    let error = parse("(1, b)").unwrap_err();
    assert_eq!(error.kind, ErrorKind::Value);
    assert_eq!(error.text, " b");

    let error = parse("(1,2,x)").unwrap_err();
    assert_eq!(error.kind, ErrorKind::Reading);
    assert_eq!(error.text, "(1,2,x)");

    // The left value is looked at before the shape of the pair.
    assert_eq!(parse("(a)").unwrap_err().kind, ErrorKind::Value);
    assert_eq!(parse("()").unwrap_err().kind, ErrorKind::Value);
    assert_eq!(parse("(").unwrap_err().kind, ErrorKind::Reading);
}

#[test]
fn numbers_fit_in_64_bits() {
    assert_eq!(
        parse("(18446744073709551615,+3)").unwrap(),
        18446744073709551615
    );
    assert_eq!(
        parse("(18446744073709551616,0)").unwrap_err().kind,
        ErrorKind::Value
    );
    assert_eq!(parse("(+,0)").unwrap_err().kind, ErrorKind::Value);
    assert_eq!(parse("(\u{2003}7\u{a0},\u{3000}0)").unwrap(), 7);
}

#[test]
fn accepts_a_sensor_by_its_first_reading() {
    let als = Als::new("/tmp/light".to_string(), "(42,0)\n").unwrap();
    assert_eq!(als.path, "/tmp/light");
    assert_eq!(als.get("(7,9)\n").unwrap(), 9);
    assert!(als.get("garbage").is_err());
    assert_eq!(als.poll_interval(), POLL_INTERVAL);
    assert_eq!(POLL_INTERVAL, 800);
    assert!(Als::new("/tmp/light".to_string(), "garbage\n").is_err());
}

#[test]
fn looks_for_the_sensor_in_devices_of_its_name() {
    assert!(!may_have_sensor(&Some("other.0".to_string())));
    assert!(!may_have_sensor(&Some("applesmc".to_string())));
    assert!(may_have_sensor(&Some("applesmc.768".to_string())));
    assert!(!may_have_sensor(&None));
    assert_eq!(
        (PLATFORM_DEVICES, DEVICE_PREFIX, SENSOR_FILE),
        ("/sys/devices/platform", "applesmc.", "light")
    );
}

fn device(name: &str, has_sensor: bool) -> Device {
    Device {
        name: Some(name.to_string()),
        has_sensor,
    }
}

#[test]
fn discovers_the_platform_device() {
    let devices = Some(vec![device("other.0", true), device("applesmc.768", false)]);
    assert_eq!(discover(&devices), Err(DiscoverError::NoSensor));

    let devices = Some(vec![device("other.0", true), device("applesmc.768", true)]);
    assert_eq!(discover(&devices), Ok(1));
}

#[test]
fn takes_the_first_device_with_the_sensor() {
    let unreadable = Device {
        name: None,
        has_sensor: true,
    };
    let devices = Some(vec![
        unreadable,
        device("applesmc.1", false),
        device("applesmc.2", true),
        device("applesmc.3", true),
    ]);
    assert_eq!(discover(&devices), Ok(2));
    assert_eq!(discover(&Some(vec![])), Err(DiscoverError::NoSensor));
    assert_eq!(discover(&None), Err(DiscoverError::Unlisted));
}
