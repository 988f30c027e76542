//! What the turns of controllers promise.

use vstd::prelude::*;

use super::{Controller, Cooldown, Inner, Turn};

verus! {

/// A wait that began is under way until its time is over, and not a moment longer.
pub proof fn law_waits_end(cooldown: Cooldown, until: u64, now: u64)
    ensures
        cooldown.until == Some(until) ==> (cooldown.active(now) <==> now < until),
        cooldown.until is None ==> !cooldown.active(now),
{
}

/// A controller adjusts unless it is paused or disabled. A disabled one that learns discards what came
/// in meanwhile, so that nothing of it is learned later; one that is only paused keeps it.
pub proof fn law_turns_follow_the_switches(controller: Controller)
    ensures
        controller.turn() == Turn::Adjust <==> controller.paused != Some(true)
            && controller.enabled != Some(false),
        controller.turn() == Turn::Discard <==> controller.enabled == Some(false)
            && controller.inner == Inner::Adaptive,
        controller.turn() == Turn::Skip <==> (controller.enabled == Some(false) && controller.inner
            == Inner::Manual) || (controller.enabled != Some(false) && controller.paused == Some(
            true,
        )),
        controller.spec_can_adjust() <==> controller.paused != Some(true) && controller.enabled
            != Some(false),
        controller.spec_is_enabled() <==> controller.enabled != Some(false),
{
}

/// The first inputs may take ten times as long as a choice is left alone, which is one and a half
/// seconds.
pub proof fn law_waiting_times()
    ensures
        super::PENDING_COOLDOWN == 1_500_000_000,
        super::INITIAL_TIMEOUT == 10 * super::PENDING_COOLDOWN,
{
}

} // verus!
