//! External displays, over ddcutil-service or raw DDC.

use vstd::prelude::*;

use crate::text;

verus! {

/// The time to wait while nothing changes, in milliseconds.
pub const DDC_WAITING_SLEEP_MS: u64 = 500;

/// The time between two steps of a transition, in milliseconds.
pub const DDC_TRANSITION_STEP_MS: u64 = 50;

/// A display that ddcutil-service detected: its number, its USB bus and device, the manufacturer, the
/// model, the serial number, the product code, the encoded EDID and the binary serial number.
pub type DetectedDisplay = (i32, i32, i32, String, String, String, u16, String, u32);

/// The texts by which a display can be found over raw DDC.
#[derive(Debug)]
pub struct RawDisplay {
    pub model_name: Option<String>,
    pub serial_number: Option<String>,
    pub manufacturer_id: Option<String>,
    pub serial: Option<u32>,
}

/// A call that ddcutil-service answered with a failure.
#[derive(Debug)]
pub struct ServiceError {
    pub operation: String,
    pub message: String,
    pub status: i32,
}

/// How the display is reached.
#[derive(Clone, Copy, Debug, PartialEq, Eq, Structural)]
pub enum Backend {
    /// Over ddcutil-service, which reports the maximum with every reading.
    Service,
    /// Over raw DDC.
    Raw,
}

pub open spec fn spec_binary_serial_identifiers(value: u32) -> Seq<char> {
    text::decimal(value as int) + seq![' ', '0', 'x'] + text::hexadecimal(value as int, 8)
}

/// A binary serial number in decimal and in hexadecimal.
pub fn binary_serial_identifiers(value: u32) -> (identifiers: String)
    ensures
        identifiers@ == spec_binary_serial_identifiers(value),
{
    let mut identifiers = text::to_decimal(value);
    proof {
        reveal_strlit(" 0x");
    }
    identifiers.append(" 0x");
    identifiers.append(text::to_hexadecimal(value, 8).as_str());
    assert(identifiers@ =~= spec_binary_serial_identifiers(value));
    identifiers
}

/// Four texts with spaces between them.
pub open spec fn spaced(first: Seq<char>, second: Seq<char>, third: Seq<char>, fourth: Seq<char>) -> Seq<char> {
    first + seq![' '] + second + seq![' '] + third + seq![' '] + fourth
}

fn join(first: &str, second: &str, third: &str, fourth: &str) -> (joined: String)
    ensures
        joined@ == spaced(first@, second@, third@, fourth@),
{
    proof {
        reveal_strlit(" ");
    }
    let mut joined = first.to_owned();
    joined.append(" ");
    joined.append(second);
    joined.append(" ");
    joined.append(third);
    joined.append(" ");
    joined.append(fourth);
    assert(joined@ =~= spaced(first@, second@, third@, fourth@));
    joined
}

/// The texts by which a detected display can be found.
pub open spec fn service_identifiers(display: DetectedDisplay) -> Seq<char> {
    spaced(display.3@, display.4@, display.5@, spec_binary_serial_identifiers(display.8))
}

/// Whether a detected display is the one that the configuration names.
pub fn display_matches(display: &DetectedDisplay, identifier: &str) -> (matched: bool)
    ensures
        matched == text::contained(service_identifiers(*display), identifier@),
{
    let serial = binary_serial_identifiers(display.8);
    let identifiers = join(
        display.3.as_str(),
        display.4.as_str(),
        display.5.as_str(),
        serial.as_str(),
    );
    text::contains(identifiers.as_str(), identifier)
}

/// The text of an optional part, empty where it is missing.
pub open spec fn or_empty(part: Option<String>) -> Seq<char> {
    match part {
        Some(text) => text@,
        None => Seq::empty(),
    }
}

pub open spec fn raw_identifiers(display: RawDisplay) -> Seq<char> {
    spaced(
        or_empty(display.model_name),
        or_empty(display.serial_number),
        or_empty(display.manufacturer_id),
        match display.serial {
            Some(serial) => spec_binary_serial_identifiers(serial),
            None => Seq::empty(),
        },
    )
}

fn part(text: &Option<String>) -> (part: &str)
    ensures
        part@ == or_empty(*text),
{
    proof {
        reveal_strlit("");
    }
    match text {
        Some(text) => text.as_str(),
        None => {
            assert(""@ =~= Seq::empty());
            ""
        },
    }
}

/// The texts by which a display can be found over raw DDC.
pub fn raw_display_identifiers(display: &RawDisplay) -> (identifiers: String)
    ensures
        identifiers@ == raw_identifiers(*display),
{
    let serial = match display.serial {
        Some(serial) => binary_serial_identifiers(serial),
        None => String::new(),
    };
    join(
        part(&display.model_name),
        part(&display.serial_number),
        part(&display.manufacturer_id),
        serial.as_str(),
    )
}

/// The first of the detected displays that the configuration names.
pub fn find_display(displays: &Vec<DetectedDisplay>, identifier: &str) -> (found: Option<usize>)
    ensures
        match found {
            Some(at) => {
                &&& at < displays.len()
                &&& text::contained(service_identifiers(displays[at as int]), identifier@)
                &&& forall|i: int|
                    0 <= i < at ==> !text::contained(
                        service_identifiers(#[trigger] displays[i]),
                        identifier@,
                    )
            },
            None => forall|i: int|
                0 <= i < displays.len() ==> !text::contained(
                    service_identifiers(#[trigger] displays[i]),
                    identifier@,
                ),
        },
{
    let mut at: usize = 0;
    while at < displays.len()
        invariant
            at <= displays.len(),
            forall|i: int|
                0 <= i < at ==> !text::contained(
                    service_identifiers(#[trigger] displays[i]),
                    identifier@,
                ),
        decreases displays.len() - at,
    {
        if display_matches(&displays[at], identifier) {
            return Some(at);
        }
        at += 1;
    }
    None
}

/// The first of the displays on raw DDC that the configuration names.
pub fn find_raw_display(displays: &Vec<RawDisplay>, identifier: &str) -> (found: Option<usize>)
    ensures
        match found {
            Some(at) => {
                &&& at < displays.len()
                &&& text::contained(raw_identifiers(displays[at as int]), identifier@)
                &&& forall|i: int|
                    0 <= i < at ==> !text::contained(
                        raw_identifiers(#[trigger] displays[i]),
                        identifier@,
                    )
            },
            None => forall|i: int|
                0 <= i < displays.len() ==> !text::contained(
                    raw_identifiers(#[trigger] displays[i]),
                    identifier@,
                ),
        },
{
    let mut at: usize = 0;
    while at < displays.len()
        invariant
            at <= displays.len(),
            forall|i: int|
                0 <= i < at ==> !text::contained(
                    raw_identifiers(#[trigger] displays[i]),
                    identifier@,
                ),
        decreases displays.len() - at,
    {
        let identifiers = raw_display_identifiers(&displays[at]);
        if text::contains(identifiers.as_str(), identifier) {
            return Some(at);
        }
        at += 1;
    }
    None
}

/// Whether the library speaks the service's interface: the major version is 1.
pub fn supported_version(version: &str) -> (supported: bool)
    ensures
        supported == (version@.take(text::first_position(version@, '.')) == seq!['1']),
{
    let end: usize = match text::find(version, '.') {
        Some(at) => at,
        None => version.unicode_len(),
    };
    let major = version.substring_char(0, end);
    assert(major@ == version@.take(end as int));
    proof {
        reveal_strlit("1");
        assert("1"@ =~= seq!['1']);
    }
    text::equal(major, "1")
}

/// The outcome of a call to the service, from the status and the message of its answer.
pub fn service_result(status: i32, message: &str, operation: &str) -> (result: Result<(), ServiceError>)
    ensures
        result is Ok <==> status == 0,
        result matches Err(error) ==> error.status == status && error.message@ == message@
            && error.operation@ == operation@,
{
    if status == 0 {
        Ok(())
    } else {
        Err(ServiceError { operation: operation.to_owned(), message: message.to_owned(), status })
    }
}

/// How the search for a display on the service goes on once its known displays were listed.
#[derive(Clone, Copy, Debug, PartialEq, Eq, Structural)]
pub enum Listing {
    /// Use the display at this place of the list.
    Use(usize),
    /// Have the service detect its displays anew.
    Detect,
}

/// Decides on the displays that the service knows, or on a list that it failed to give.
pub fn choose_listed(displays: &Option<Vec<DetectedDisplay>>, identifier: &str) -> (listing: Listing)
    ensures
        match *displays {
            None => listing == Listing::Detect,
            Some(displays) => match listing {
                Listing::Use(at) => {
                    &&& at < displays.len()
                    &&& text::contained(service_identifiers(displays[at as int]), identifier@)
                    &&& forall|i: int|
                        0 <= i < at ==> !text::contained(
                            service_identifiers(#[trigger] displays[i]),
                            identifier@,
                        )
                },
                Listing::Detect => forall|i: int|
                    0 <= i < displays.len() ==> !text::contained(
                        service_identifiers(#[trigger] displays[i]),
                        identifier@,
                    ),
            },
        },
{
    match displays {
        Some(displays) => match find_display(displays, identifier) {
            Some(at) => Listing::Use(at),
            None => Listing::Detect,
        },
        None => Listing::Detect,
    }
}

/// The nearest value within bounds.
pub open spec fn clamped(value: int, low: int, high: int) -> int {
    if value < low {
        low
    } else if value > high {
        high
    } else {
        value
    }
}

fn clamp(value: u64, low: u64, high: u64) -> (nearest: u64)
    ensures
        nearest == clamped(value as int, low as int, high as int),
{
    if value < low {
        low
    } else if value > high {
        high
    } else {
        value
    }
}

/// The brightness of one display.
#[derive(Debug)]
pub struct DdcUtil {
    pub backend: Backend,
    pub min_brightness: u64,
    pub max_brightness: u64,
}

/// The greatest brightness, which is never below the configured least one.
pub open spec fn effective_maximum(maximum: u16, min_brightness: u64) -> int {
    if maximum >= min_brightness {
        maximum as int
    } else {
        min_brightness as int
    }
}

impl DdcUtil {
    pub open spec fn well_formed(&self) -> bool {
        self.min_brightness <= self.max_brightness
    }

    /// Uses a display whose brightness goes up to `maximum`.
    pub fn new(backend: Backend, maximum: u16, min_brightness: u64) -> (display: Self)
        ensures
            display.well_formed(),
            display.backend == backend,
            display.min_brightness == min_brightness,
            display.max_brightness == effective_maximum(maximum, min_brightness),
    {
        let maximum: u64 = maximum as u64;
        DdcUtil {
            backend,
            min_brightness,
            max_brightness: if maximum >= min_brightness {
                maximum
            } else {
                min_brightness
            },
        }
    }

    /// The brightness from what the display reported. The service's maximum is kept up to date.
    pub fn get(&mut self, current: u16, maximum: u16) -> (value: u64)
        requires
            old(self).well_formed(),
        ensures
            final(self).well_formed(),
            final(self).backend == old(self).backend,
            final(self).min_brightness == old(self).min_brightness,
            final(self).max_brightness == (match old(self).backend {
                Backend::Service => effective_maximum(maximum, old(self).min_brightness),
                Backend::Raw => old(self).max_brightness as int,
            }),
            value == clamped(
                current as int,
                final(self).min_brightness as int,
                final(self).max_brightness as int,
            ),
    {
        if let Backend::Service = self.backend {
            let updated = DdcUtil::new(self.backend, maximum, self.min_brightness);
            self.max_brightness = updated.max_brightness;
        }
        clamp(current as u64, self.min_brightness, self.max_brightness)
    }

    /// The brightness that a request sets, and the 16 bits of it that the display is sent.
    pub fn set(&self, value: u64) -> (result: (u64, u16))
        requires
            self.well_formed(),
        ensures
            result.0 == clamped(
                value as int,
                self.min_brightness as int,
                self.max_brightness as int,
            ),
            result.1 == result.0 % 0x1_0000,
    {
        let value: u64 = clamp(value, self.min_brightness, self.max_brightness);
        let sent: u16 = (value % 0x1_0000) as u16;
        (value, sent)
    }

    pub fn min(&self) -> (value: u64)
        ensures
            value == self.min_brightness,
    {
        self.min_brightness
    }

    pub fn max(&self) -> (value: u64)
        ensures
            value == self.max_brightness,
    {
        self.max_brightness
    }

    pub fn waiting_sleep_ms(&self) -> (value: u64)
        ensures
            value == DDC_WAITING_SLEEP_MS,
    {
        DDC_WAITING_SLEEP_MS
    }

    pub fn transition_step_ms(&self) -> (value: u64)
        ensures
            value == DDC_TRANSITION_STEP_MS,
    {
        DDC_TRANSITION_STEP_MS
    }
}

} // verus!
