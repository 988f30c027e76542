//! What the choice of an output for gamma control promises.

use vstd::prelude::*;

use crate::text;

use super::mutter;
use super::mutter::Output;
use super::wayland;
use super::wayland::{ConnectError, State};

verus! {

/// An output fits exactly if the configured name is its whole name, and otherwise if the configured
/// name occurs in its name or its description.
pub proof fn law_outputs_fit_by_their_names(value: Seq<char>, desired_output: Seq<char>, is_name: bool)
    ensures
        ({
            let fit = wayland::fits(value, desired_output, is_name);
            &&& fit == Some(true) <==> is_name && value == desired_output
            &&& fit is Some <==> exists|at: int|
                0 <= at && at + desired_output.len() <= value.len() && #[trigger] value.subrange(
                    at,
                    at + desired_output.len(),
                ) == desired_output
        }),
{
    if value == desired_output {
        assert(value.subrange(0, 0 + desired_output.len() as int) =~= desired_output);
        assert(text::occurs_at(value, desired_output, 0));
    }
    if text::contained(value, desired_output) {
        let at = choose|at: int| text::occurs_at(value, desired_output, at);
        assert(value.subrange(at, at + desired_output.len()) == desired_output);
    }
    if exists|at: int|
        0 <= at && at + desired_output.len() <= value.len() && #[trigger] value.subrange(
            at,
            at + desired_output.len(),
        ) == desired_output {
        let at = choose|at: int|
            0 <= at && at + desired_output.len() <= value.len() && #[trigger] value.subrange(
                at,
                at + desired_output.len(),
            ) == desired_output;
        assert(text::occurs_at(value, desired_output, at));
    }
}

/// A name of an output touches nothing but which output is chosen, and an exact match is never given
/// up for another one.
pub proof fn law_names_only_choose_an_output(state: State, output: u32, exact: bool)
    ensures
        ({
            let after = state.matched(output, exact);
            &&& after == (State {
                output: after.output,
                output_exact: after.output_exact,
                output_ambiguous: after.output_ambiguous,
                ..state
            })
            &&& state.output is Some && (state.output_exact || !exact) ==> after.output
                == state.output && after.output_exact == state.output_exact
            &&& state.output is None || exact && !state.output_exact ==> after.output == Some(output)
                && after.output_exact == exact && !after.output_ambiguous
            &&& state.output is Some && state.output_exact == exact && state.output != Some(output)
                ==> after.output_ambiguous
            &&& state.output == Some(output) && state.output_exact == exact ==> after == state
        }),
{
}

/// What goes wrong is told with the name of the output, except that there is no gamma control at all.
pub proof fn law_failures_are_told(output_name: Seq<char>)
    ensures
        ConnectError::AmbiguousOutput.text(output_name) == "Multiple Wayland outputs match '"@
            + output_name + "'"@,
        ConnectError::NoManager.text(output_name) == "wlr-gamma-control-unstable-v1 is unavailable"@,
        ConnectError::NoOutput.text(output_name) == "Unable to match '"@ + output_name
            + "' to a Wayland output"@,
        ConnectError::Rejected.text(output_name) == "Gamma control was rejected for '"@ + output_name
            + "'"@,
        ConnectError::NoLut.text(output_name) == "Gamma control reported no LUT for '"@ + output_name
            + "'"@,
{
}

/// The output that a name means has exactly that name, and is the first one that does; or else its name
/// contains it, and no other one's does.
pub proof fn law_names_mean_one_output(outputs: Seq<Output>, name: Seq<char>, at: int, other: int)
    requires
        mutter::means(outputs, name, at),
        0 <= other < outputs.len(),
        other != at,
    ensures
        0 <= at < outputs.len(),
        text::contained(outputs[at].name@, name),
        outputs[at].name@ == name ==> outputs[other].name@ != name || at < other,
        outputs[at].name@ != name ==> outputs[other].name@ != name && !text::contained(
            outputs[other].name@,
            name,
        ),
        !mutter::means(outputs, name, other),
{
    assert(outputs[at].name@.subrange(0, outputs[at].name@.len() as int) =~= outputs[at].name@);
    if outputs[at].name@ == name {
        assert(text::occurs_at(outputs[at].name@, name, 0));
        assert(mutter::named(outputs[at], name));
    }
    assert(mutter::named(outputs[other], name) == (outputs[other].name@ == name));
    assert(mutter::resembles(outputs[other], name) == text::contained(outputs[other].name@, name));
    if outputs[other].name@ == name {
        assert(mutter::named(outputs[other], name));
    }
}

/// An output of exactly the name is meant by it, whatever other names contain it.
pub proof fn law_exact_names_are_found(outputs: Seq<Output>, name: Seq<char>, at: int)
    requires
        0 <= at < outputs.len(),
        outputs[at].name@ == name,
        forall|i: int| 0 <= i < at ==> (#[trigger] outputs[i]).name@ != name,
    ensures
        mutter::means(outputs, name, at),
{
    assert(mutter::named(outputs[at], name));
}

/// Only the first version of gamma control is understood.
pub proof fn law_the_first_version_is_understood()
    ensures
        wayland::MANAGER_VERSION == 1,
{
}

} // verus!
