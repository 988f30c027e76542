//! Ambient light from the Apple SMC on Intel MacBooks.
//!
//! The `applesmc` platform driver exposes the sensor as
//! `/sys/devices/platform/applesmc.<id>/light`, formatted as `(left,right)`. The brighter slot is
//! used as a raw, unitless illuminance reading.

use vstd::prelude::*;

use crate::text;

verus! {

/// The directory of the platform devices.
pub const PLATFORM_DEVICES: &'static str = "/sys/devices/platform";

/// How the name of the sensor's device begins.
pub const DEVICE_PREFIX: &'static str = "applesmc.";

/// The file of the device that holds the reading.
pub const SENSOR_FILE: &'static str = "light";

/// The time between two readings, in milliseconds.
pub const POLL_INTERVAL: u64 = 800;

/// What is wrong with a reading.
#[derive(Clone, Copy, Debug, PartialEq, Eq, Structural)]
pub enum ErrorKind {
    /// The reading is not a pair in parentheses.
    Reading,
    /// A slot of the pair is not a number.
    Value,
}

/// A malformed reading: its text without the whitespace around it, or the slot that is no number.
#[derive(Debug)]
pub struct ParseError {
    pub kind: ErrorKind,
    pub text: String,
}

/// What a reading says: the brighter of its two slots.
pub open spec fn reading(content: Seq<char>) -> Result<u64, (ErrorKind, Seq<char>)> {
    let trimmed = text::trimmed(content);
    if trimmed.len() < 2 || trimmed.first() != '(' || trimmed.last() != ')' {
        Err((ErrorKind::Reading, trimmed))
    } else {
        pair(trimmed, trimmed.subrange(1, trimmed.len() - 1))
    }
}

/// What the inside of the parentheses says.
pub open spec fn pair(trimmed: Seq<char>, inner: Seq<char>) -> Result<u64, (ErrorKind, Seq<char>)> {
    let comma = text::first_position(inner, ',');
    let left = inner.take(comma);
    let rest = inner.skip(comma + 1);
    let end = text::first_position(rest, ',');
    let right = rest.take(end);
    match text::number(text::trimmed(left)) {
        None => Err((ErrorKind::Value, left)),
        Some(first) => if comma == inner.len() {
            Err((ErrorKind::Reading, trimmed))
        } else {
            match text::number(text::trimmed(right)) {
                None => Err((ErrorKind::Value, right)),
                Some(second) => if end < rest.len() {
                    Err((ErrorKind::Reading, trimmed))
                } else {
                    Ok(if first >= second { first } else { second })
                },
            }
        },
    }
}

impl ParseError {
    pub open spec fn is(&self, error: (ErrorKind, Seq<char>)) -> bool {
        self.kind == error.0 && self.text@ == error.1
    }
}

/// Parses a reading of the sensor, as `(left,right)`.
pub fn parse(content: &str) -> (value: Result<u64, ParseError>)
    ensures
        match reading(content@) {
            Ok(brighter) => value == Ok::<u64, ParseError>(brighter),
            Err(error) => value matches Err(found) && found.is(error),
        },
{
    let trimmed = text::trim(content);
    let list = text::chars(trimmed);
    let length: usize = list.len();
    if length < 2 || list[0] != '(' || list[length - 1] != ')' {
        return Err(ParseError { kind: ErrorKind::Reading, text: trimmed.to_owned() });
    }
    let inner = trimmed.substring_char(1, length - 1);
    let comma = text::find(inner, ',');
    let inner_length: usize = length - 2;
    let left_end: usize = match comma {
        Some(at) => at,
        None => inner_length,
    };
    let left = inner.substring_char(0, left_end);
    assert(left@ == inner@.take(left_end as int));
    let first: u64 = match text::parse_u64(text::trim(left)) {
        Some(value) => value,
        None => {
            return Err(ParseError { kind: ErrorKind::Value, text: left.to_owned() });
        },
    };
    if comma.is_none() {
        return Err(ParseError { kind: ErrorKind::Reading, text: trimmed.to_owned() });
    }
    let rest = inner.substring_char(left_end + 1, inner_length);
    assert(rest@ == inner@.skip(left_end + 1));
    let next = text::find(rest, ',');
    let right_end: usize = match next {
        Some(at) => at,
        None => inner_length - left_end - 1,
    };
    let right = rest.substring_char(0, right_end);
    assert(right@ == rest@.take(right_end as int));
    let second: u64 = match text::parse_u64(text::trim(right)) {
        Some(value) => value,
        None => {
            return Err(ParseError { kind: ErrorKind::Value, text: right.to_owned() });
        },
    };
    if next.is_some() {
        return Err(ParseError { kind: ErrorKind::Reading, text: trimmed.to_owned() });
    }
    Ok(if first >= second {
        first
    } else {
        second
    })
}

/// A platform device: its name, which is missing where the device could not be read, and whether it
/// has the sensor file.
#[derive(Debug)]
pub struct Device {
    pub name: Option<String>,
    pub has_sensor: bool,
}

/// Why no sensor was found.
#[derive(Clone, Copy, Debug, PartialEq, Eq, Structural)]
pub enum DiscoverError {
    /// The platform devices could not be listed.
    Unlisted,
    /// No device has the sensor.
    NoSensor,
}

/// Whether a device of this name may have the sensor.
pub open spec fn named(name: Option<String>) -> bool {
    match name {
        Some(name) => text::occurs_at(name@, DEVICE_PREFIX@, 0),
        None => false,
    }
}

/// Whether a device has the sensor.
pub open spec fn qualifies(device: Device) -> bool {
    named(device.name) && device.has_sensor
}

/// Whether a device of this name may have the sensor and is worth a look at its files.
pub fn may_have_sensor(name: &Option<String>) -> (worthwhile: bool)
    ensures
        worthwhile == named(*name),
{
    match name {
        Some(name) => text::starts_with(name.as_str(), DEVICE_PREFIX),
        None => false,
    }
}

/// The place of the first device that has the sensor, in a listing that is missing where there was
/// none to be had.
pub fn discover(devices: &Option<Vec<Device>>) -> (found: Result<usize, DiscoverError>)
    ensures
        match found {
            Ok(place) => {
                &&& devices is Some
                &&& place < (devices->0)@.len()
                &&& qualifies((devices->0)@[place as int])
                &&& forall|i: int| 0 <= i < place ==> !qualifies(#[trigger] (devices->0)@[i])
            },
            Err(DiscoverError::NoSensor) => {
                &&& devices is Some
                &&& forall|i: int|
                    0 <= i < (devices->0)@.len() ==> !qualifies(#[trigger] (devices->0)@[i])
            },
            Err(DiscoverError::Unlisted) => devices is None,
        },
{
    let list = match devices {
        Some(list) => list,
        None => {
            return Err(DiscoverError::Unlisted);
        },
    };
    let mut place: usize = 0;
    while place < list.len()
        invariant
            *devices == Some(*list),
            place <= list.len(),
            forall|i: int| 0 <= i < place ==> !qualifies(#[trigger] list@[i]),
        decreases list.len() - place,
    {
        if may_have_sensor(&list[place].name) && list[place].has_sensor {
            return Ok(place);
        }
        place += 1;
    }
    Err(DiscoverError::NoSensor)
}

/// An ambient light sensor, by the file that holds its reading.
#[derive(Debug)]
pub struct Als {
    pub path: String,
}

impl Als {
    /// Accepts the sensor at `path` where its first reading is well-formed.
    pub fn new(path: String, content: &str) -> (als: Result<Self, ParseError>)
        ensures
            match reading(content@) {
                Ok(_) => als matches Ok(sensor) && sensor.path@ == path@,
                Err(error) => als matches Err(found) && found.is(error),
            },
    {
        match parse(content) {
            Ok(_) => Ok(Als { path }),
            Err(error) => Err(error),
        }
    }

    /// The value of what the sensor's file holds.
    pub fn get(&self, content: &str) -> (value: Result<u64, ParseError>)
        ensures
            match reading(content@) {
                Ok(brighter) => value == Ok::<u64, ParseError>(brighter),
                Err(error) => value matches Err(found) && found.is(error),
            },
    {
        parse(content)
    }

    /// The time between two readings, in milliseconds.
    pub fn poll_interval(&self) -> (interval: u64)
        ensures
            interval == POLL_INTERVAL,
    {
        POLL_INTERVAL
    }
}

} // verus!
