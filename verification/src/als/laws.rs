//! What reading the Apple sensor promises.

use vstd::prelude::*;

use crate::text;
use crate::text_laws;

use super::applesmc;
use super::applesmc::{Device, ErrorKind, ParseError};

verus! {

/// A pair in parentheses, with whitespace around it or without, is read as the brighter of its two
/// slots, whichever of them that is. A slot that is no number is reported, the first one first.
pub proof fn law_the_brighter_slot_is_read(
    before: Seq<char>,
    left: Seq<char>,
    right: Seq<char>,
    after: Seq<char>,
)
    requires
        forall|i: int| 0 <= i < before.len() ==> text::whitespace(#[trigger] before[i]),
        forall|i: int| 0 <= i < after.len() ==> text::whitespace(#[trigger] after[i]),
        forall|i: int| 0 <= i < left.len() ==> #[trigger] left[i] != ',',
        forall|i: int| 0 <= i < right.len() ==> #[trigger] right[i] != ',',
    ensures
        ({
            let content = before + (seq!['('] + left + seq![','] + right + seq![')']) + after;
            let first = text::number(text::trimmed(left));
            let second = text::number(text::trimmed(right));
            let result = applesmc::reading(content);
            &&& first is Some && second is Some ==> {
                &&& result matches Ok(value) && value >= first->0 && value >= second->0 && (value
                    == first->0 || value == second->0)
            }
            &&& first is None ==> result == Err::<u64, (ErrorKind, Seq<char>)>(
                (ErrorKind::Value, left),
            )
            &&& first is Some && second is None ==> result == Err::<u64, (ErrorKind, Seq<char>)>(
                (ErrorKind::Value, right),
            )
        }),
{
    let core = seq!['('] + left + seq![','] + right + seq![')'];
    let content = before + core + after;
    text_laws::law_whitespace_is_invisible('(');
    text_laws::law_whitespace_is_invisible(')');
    text_laws::law_trimming_leaves_the_core(before, core, after);
    let inner = core.subrange(1, core.len() - 1);
    assert(inner =~= left + seq![','] + right);
    text_laws::law_the_first_separator_is_found(left, right, ',');
    text_laws::law_the_first_separator_is_found(right, left, ',');
    assert(inner.take(left.len() as int) =~= left);
    assert(inner.skip(left.len() as int + 1) =~= right);
    assert(right.take(right.len() as int) =~= right);
}

/// Swapping the two slots of a pair of numbers changes nothing.
pub proof fn law_slots_are_interchangeable(left: Seq<char>, right: Seq<char>)
    requires
        forall|i: int| 0 <= i < left.len() ==> #[trigger] left[i] != ',',
        forall|i: int| 0 <= i < right.len() ==> #[trigger] right[i] != ',',
        text::number(text::trimmed(left)) is Some,
        text::number(text::trimmed(right)) is Some,
    ensures
        applesmc::reading(seq!['('] + left + seq![','] + right + seq![')']) == applesmc::reading(
            seq!['('] + right + seq![','] + left + seq![')'],
        ),
{
    let nothing = Seq::<char>::empty();
    law_the_brighter_slot_is_read(nothing, left, right, nothing);
    law_the_brighter_slot_is_read(nothing, right, left, nothing);
    let there = seq!['('] + left + seq![','] + right + seq![')'];
    let back = seq!['('] + right + seq![','] + left + seq![')'];
    assert(nothing + there + nothing =~= there);
    assert(nothing + back + nothing =~= back);
}

/// What is not a pair of numbers in parentheses is no reading: without the parentheses, with one slot
/// or with more than two, the whole text is reported.
pub proof fn law_other_texts_are_no_readings(
    core: Seq<char>,
    left: Seq<char>,
    right: Seq<char>,
    more: Seq<char>,
)
    requires
        forall|i: int| 0 <= i < left.len() ==> #[trigger] left[i] != ',',
        forall|i: int| 0 <= i < right.len() ==> #[trigger] right[i] != ',',
        text::number(text::trimmed(left)) is Some,
        text::number(text::trimmed(right)) is Some,
    ensures
        text::trimmed(core) == core && (core.len() < 2 || core[0] != '(' || core[core.len() - 1]
            != ')') ==> applesmc::reading(core) == Err::<u64, (ErrorKind, Seq<char>)>(
            (ErrorKind::Reading, core),
        ),
        ({
            let single = seq!['('] + left + seq![')'];
            applesmc::reading(single) == Err::<u64, (ErrorKind, Seq<char>)>(
                (ErrorKind::Reading, single),
            )
        }),
        ({
            let triple = seq!['('] + left + seq![','] + right + seq![','] + more + seq![')'];
            applesmc::reading(triple) == Err::<u64, (ErrorKind, Seq<char>)>(
                (ErrorKind::Reading, triple),
            )
        }),
{
    let nothing = Seq::<char>::empty();
    text_laws::law_whitespace_is_invisible('(');
    text_laws::law_whitespace_is_invisible(')');
    let single = seq!['('] + left + seq![')'];
    text_laws::law_trimming_leaves_the_core(nothing, single, nothing);
    assert(nothing + single + nothing =~= single);
    let inner = single.subrange(1, single.len() - 1);
    assert(inner =~= left);
    text_laws::law_the_first_separator_is_found(left, right, ',');
    assert(left.take(left.len() as int) =~= left);
    let triple = seq!['('] + left + seq![','] + right + seq![','] + more + seq![')'];
    text_laws::law_trimming_leaves_the_core(nothing, triple, nothing);
    assert(nothing + triple + nothing =~= triple);
    let rest = right + seq![','] + more;
    let both = triple.subrange(1, triple.len() - 1);
    assert(both =~= left + seq![','] + rest);
    text_laws::law_the_first_separator_is_found(left, rest, ',');
    text_laws::law_the_first_separator_is_found(right, more, ',');
    assert(both.take(left.len() as int) =~= left);
    assert(both.skip(left.len() as int + 1) =~= rest);
    assert(rest.take(right.len() as int) =~= right);
}

/// A device has the sensor if it has the file and its name, which has to be known, begins with the
/// driver's.
pub proof fn law_sensors_are_known_by_name_and_file(device: Device, rest: Seq<char>)
    ensures
        device.name is None || !device.has_sensor ==> !applesmc::qualifies(device),
        device.has_sensor && (device.name matches Some(name) && name@ == "applesmc."@ + rest)
            ==> applesmc::qualifies(device),
        applesmc::qualifies(device) ==> device.name is Some && (device.name->0)@.len() >= 9
            && (device.name->0)@.take(9) == "applesmc."@,
{
    reveal_strlit("applesmc.");
    if let Some(name) = device.name {
        if name@ == "applesmc."@ + rest {
            assert(name@.subrange(0, 0 + "applesmc."@.len() as int) =~= "applesmc."@);
        }
        if applesmc::qualifies(device) {
            assert(name@.take(9) =~= name@.subrange(0, 0 + "applesmc."@.len() as int));
        }
    }
}

/// The sensor is read every eight tenths of a second, from the file of the platform driver.
pub proof fn law_the_sensor_is_a_file_of_the_driver()
    ensures
        applesmc::POLL_INTERVAL == 800,
        applesmc::PLATFORM_DEVICES@ == "/sys/devices/platform"@,
        applesmc::SENSOR_FILE@ == "light"@,
{
}

/// A first slot that is no number is reported even where it is the only one, as when nothing stands
/// between the parentheses.
pub proof fn law_a_single_slot_is_read_first(left: Seq<char>)
    requires
        forall|i: int| 0 <= i < left.len() ==> #[trigger] left[i] != ',',
        text::number(text::trimmed(left)) is None,
    ensures
        applesmc::reading(seq!['('] + left + seq![')']) == Err::<u64, (ErrorKind, Seq<char>)>(
            (ErrorKind::Value, left),
        ),
{
    let nothing = Seq::<char>::empty();
    text_laws::law_whitespace_is_invisible('(');
    text_laws::law_whitespace_is_invisible(')');
    let single = seq!['('] + left + seq![')'];
    text_laws::law_trimming_leaves_the_core(nothing, single, nothing);
    assert(nothing + single + nothing =~= single);
    let inner = single.subrange(1, single.len() - 1);
    assert(inner =~= left);
    text_laws::law_the_first_separator_is_found(left, left, ',');
    assert(left.take(left.len() as int) =~= left);
}

/// An error is of one kind and about one text.
pub proof fn law_errors_are_told_apart(error: ParseError, kind: ErrorKind, text: Seq<char>)
    ensures
        error.is((kind, text)) <==> error.kind == kind && error.text@ == text,
{
}

} // verus!
