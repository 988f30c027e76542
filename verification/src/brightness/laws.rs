//! What the brightness of external displays promises.

use vstd::prelude::*;

use crate::text;

use super::ddcutil;
use super::ddcutil::{DetectedDisplay, RawDisplay};

verus! {

proof fn lemma_part(whole: Seq<char>, before: Seq<char>, part: Seq<char>, after: Seq<char>)
    requires
        whole == before + part + after,
    ensures
        text::contained(whole, part),
{
    let at = before.len() as int;
    assert(whole.subrange(at, at + part.len()) =~= part);
    assert(text::occurs_at(whole, part, at));
}

proof fn lemma_spaced(first: Seq<char>, second: Seq<char>, third: Seq<char>, fourth: Seq<char>)
    ensures
        ({
            let joined = ddcutil::spaced(first, second, third, fourth);
            &&& text::contained(joined, first)
            &&& text::contained(joined, second)
            &&& text::contained(joined, third)
            &&& text::contained(joined, fourth)
            &&& joined == first + (seq![' '] + second + seq![' '] + third + seq![' '] + fourth)
        }),
{
    let joined = ddcutil::spaced(first, second, third, fourth);
    let space = seq![' '];
    let nothing = Seq::<char>::empty();
    assert(joined =~= nothing + first + (space + second + space + third + space + fourth));
    lemma_part(joined, nothing, first, space + second + space + third + space + fourth);
    assert(joined =~= (first + space) + second + (space + third + space + fourth));
    lemma_part(joined, first + space, second, space + third + space + fourth);
    assert(joined =~= (first + space + second + space) + third + (space + fourth));
    lemma_part(joined, first + space + second + space, third, space + fourth);
    assert(joined =~= (first + space + second + space + third + space) + fourth + nothing);
    lemma_part(joined, first + space + second + space + third + space, fourth, nothing);
    assert(joined =~= first + (space + second + space + third + space + fourth));
}

proof fn lemma_serial(value: u32)
    ensures
        text::contained(
            ddcutil::spec_binary_serial_identifiers(value),
            text::decimal(value as int),
        ),
        text::contained(
            ddcutil::spec_binary_serial_identifiers(value),
            "0x"@ + text::hexadecimal(value as int, 8),
        ),
{
    reveal_strlit("0x");
    let both = ddcutil::spec_binary_serial_identifiers(value);
    let (decimal, hexadecimal) = (
        text::decimal(value as int),
        text::hexadecimal(value as int, 8),
    );
    let nothing = Seq::<char>::empty();
    assert(both =~= nothing + decimal + (seq![' ', '0', 'x'] + hexadecimal));
    lemma_part(both, nothing, decimal, seq![' ', '0', 'x'] + hexadecimal);
    assert(both =~= (decimal + seq![' ']) + ("0x"@ + hexadecimal) + nothing);
    lemma_part(both, decimal + seq![' '], "0x"@ + hexadecimal, nothing);
}

/// What occurs in a part of a text occurs in the text.
proof fn lemma_nested(whole: Seq<char>, part: Seq<char>, inner: Seq<char>)
    requires
        text::contained(whole, part),
        text::contained(part, inner),
    ensures
        text::contained(whole, inner),
{
    let at = choose|at: int| text::occurs_at(whole, part, at);
    let within = choose|within: int| text::occurs_at(part, inner, within);
    assert(whole.subrange(at + within, at + within + inner.len()) =~= inner) by {
        assert forall|i: int| 0 <= i < inner.len() implies whole.subrange(
            at + within,
            at + within + inner.len(),
        )[i] == inner[i] by {
            assert(inner[i] == part.subrange(within, within + inner.len())[i]);
            assert(part[within + i] == whole.subrange(at, at + part.len())[within + i]);
        }
    }
    assert(text::occurs_at(whole, inner, at + within));
}

/// A display that the service detected is found by its manufacturer, by its model, by its serial
/// number, and by its binary serial number in decimal and in hexadecimal.
pub proof fn law_detected_displays_are_found(display: DetectedDisplay)
    ensures
        text::contained(ddcutil::service_identifiers(display), display.3@),
        text::contained(ddcutil::service_identifiers(display), display.4@),
        text::contained(ddcutil::service_identifiers(display), display.5@),
        text::contained(ddcutil::service_identifiers(display), text::decimal(display.8 as int)),
        text::contained(
            ddcutil::service_identifiers(display),
            "0x"@ + text::hexadecimal(display.8 as int, 8),
        ),
        // The manufacturer and the model are found together.
        text::contained(ddcutil::service_identifiers(display), display.3@ + seq![' '] + display.4@),
        ddcutil::service_identifiers(display).len() == display.3@.len() + display.4@.len()
            + display.5@.len() + text::decimal(display.8 as int).len() + text::hexadecimal(
            display.8 as int,
            8,
        ).len() + 6,
{
    let serial = ddcutil::spec_binary_serial_identifiers(display.8);
    let whole = ddcutil::service_identifiers(display);
    lemma_spaced(display.3@, display.4@, display.5@, serial);
    lemma_serial(display.8);
    lemma_nested(whole, serial, text::decimal(display.8 as int));
    reveal_strlit("0x");
    lemma_nested(whole, serial, "0x"@ + text::hexadecimal(display.8 as int, 8));
    let named = display.3@ + seq![' '] + display.4@;
    let rest = seq![' '] + display.5@ + seq![' '] + serial;
    assert(whole =~= Seq::<char>::empty() + named + rest);
    lemma_part(whole, Seq::<char>::empty(), named, rest);
}

/// A display on raw DDC is found by whatever is known of it.
pub proof fn law_raw_displays_are_found(display: RawDisplay)
    ensures
        display.model_name matches Some(name) ==> text::contained(
            ddcutil::raw_identifiers(display),
            name@,
        ),
        display.serial_number matches Some(number) ==> text::contained(
            ddcutil::raw_identifiers(display),
            number@,
        ),
        display.manufacturer_id matches Some(manufacturer) ==> text::contained(
            ddcutil::raw_identifiers(display),
            manufacturer@,
        ),
        display.serial matches Some(serial) ==> text::contained(
            ddcutil::raw_identifiers(display),
            text::decimal(serial as int),
        ) && text::contained(
            ddcutil::raw_identifiers(display),
            "0x"@ + text::hexadecimal(serial as int, 8),
        ),
        display.model_name is None && display.serial_number is None && display.manufacturer_id is None
            && display.serial is None ==> ddcutil::raw_identifiers(display) == seq![' ', ' ', ' '],
{
    let (first, second, third) = (
        ddcutil::or_empty(display.model_name),
        ddcutil::or_empty(display.serial_number),
        ddcutil::or_empty(display.manufacturer_id),
    );
    let whole = ddcutil::raw_identifiers(display);
    if let Some(serial) = display.serial {
        let fourth = ddcutil::spec_binary_serial_identifiers(serial);
        lemma_spaced(first, second, third, fourth);
        lemma_serial(serial);
        lemma_nested(whole, fourth, text::decimal(serial as int));
        lemma_nested(whole, fourth, "0x"@ + text::hexadecimal(serial as int, 8));
    } else {
        lemma_spaced(first, second, third, Seq::<char>::empty());
    }
    if display.model_name is None && display.serial_number is None && display.manufacturer_id is None
        && display.serial is None {
        assert(whole =~= seq![' ', ' ', ' ']);
    }
}

/// A brightness within bounds is taken as it is, any other one as the nearest bound; and a greater
/// request is never met with less.
pub proof fn law_brightness_is_kept_within_bounds(value: int, more: int, low: int, high: int)
    requires
        low <= high,
        value <= more,
    ensures
        low <= ddcutil::clamped(value, low, high) <= high,
        low <= value <= high ==> ddcutil::clamped(value, low, high) == value,
        value < low ==> ddcutil::clamped(value, low, high) == low,
        value > high ==> ddcutil::clamped(value, low, high) == high,
        ddcutil::clamped(value, low, high) <= ddcutil::clamped(more, low, high),
{
}

/// The greatest brightness is what the display reports, but never below the configured least one.
pub proof fn law_the_greatest_brightness_is_reported(maximum: u16, min_brightness: u64)
    ensures
        ddcutil::effective_maximum(maximum, min_brightness) >= min_brightness,
        maximum >= min_brightness ==> ddcutil::effective_maximum(maximum, min_brightness) == maximum,
        maximum < min_brightness ==> ddcutil::effective_maximum(maximum, min_brightness)
            == min_brightness,
{
}

/// A display is looked at every half a second while nothing changes, and ten times as often during a
/// transition.
pub proof fn law_displays_are_not_hurried()
    ensures
        ddcutil::DDC_WAITING_SLEEP_MS == 500,
        ddcutil::DDC_WAITING_SLEEP_MS == 10 * ddcutil::DDC_TRANSITION_STEP_MS,
{
}

} // verus!
