//! What finding the stream promises.

use vstd::prelude::*;

use super::kwin;
use super::kwin::{Global, State};
use super::mutter;
use super::mutter::{SetupError, Stage};

verus! {

/// A call may take until the deadline, but never longer than five seconds, and not at all once the
/// deadline has passed.
pub proof fn law_calls_end_at_the_deadline(now: u64, deadline: u64)
    ensures
        now >= deadline ==> mutter::spec_remaining(now, deadline) == Err::<u64, SetupError>(
            SetupError::SetupTimedOut,
        ),
        now < deadline ==> (mutter::spec_remaining(now, deadline) matches Ok(time) && 0 < time && time
            <= 5_000_000_000 && now + time <= deadline && (time == 5_000_000_000 || now + time
            == deadline)),
{
}

/// The lesser of two times is one of them and not after the other.
pub proof fn law_the_lesser_time_counts(left: u64, right: u64)
    ensures
        mutter::least(left, right) <= left && mutter::least(left, right) <= right,
        mutter::least(left, right) == left || mutter::least(left, right) == right,
{
}

/// Whether the capture is still wanted is looked at before connecting, before recording the monitor and
/// before listening; creating the session, recording the monitor and starting are calls.
pub proof fn law_stages_look_and_call(stage: Stage)
    ensures
        !mutter::checks_active(stage) <==> stage == Stage::CreateSession || stage == Stage::Start,
        !mutter::calls(stage) <==> stage == Stage::Connect || stage == Stage::Listen,
{
}

/// An object is bound with its own version, but never with a newer one than is understood; objects of
/// another kind are not bound.
pub proof fn law_objects_are_bound_as_understood(global: Global, version: u32)
    ensures
        State::bound_version(global, version) is None <==> global == Global::Other,
        State::bound_version(global, version) matches Some(bound) ==> {
            let newest = if global == Global::XdgOutputManager {
                3u32
            } else {
                4
            };
            &&& bound <= version && bound <= newest
            &&& bound == version || bound == newest
        },
{
}

/// Two optional texts are the same if both are missing or both are there and equal.
pub proof fn law_texts_are_compared(left: Option<String>, right: Option<String>)
    ensures
        left is None && right is None ==> kwin::same_text(left, right),
        left is Some && right is Some ==> (kwin::same_text(left, right) <==> (left->0)@ == (
        right->0)@),
        (left is None <==> right is Some) ==> !kwin::same_text(left, right),
{
}

/// A stream that was closed says so.
pub proof fn law_closed_streams_say_so()
    ensures
        kwin::STREAM_CLOSED@ == "KDE closed the screen stream"@,
{
}

} // verus!
