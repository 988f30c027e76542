//! What the gamma control of an output promises.

use vstd::prelude::*;

use crate::control::{Property, ValueAdjustment};

use super::transition_laws;
use super::{Advance, Backend, Controller, Values};

verus! {

/// A step up adds to the present value as far as the property goes, a step down takes away from it as
/// far as the property goes, and another request is met as far as the property goes. So no step up
/// ever lowers a value and no step down raises one.
pub proof fn law_requests_are_granted_within_bounds(
    current: u64,
    property: Property,
    adjustment: ValueAdjustment,
    least: u64,
    greatest: u64,
)
    requires
        property == Property::Dim && least == 0 && greatest == 100 || property
            == Property::Temperature && least == 1000 && greatest == 25000,
        least <= current <= greatest,
    ensures
        ({
            let value = super::granted(current, property, adjustment);
            let amount = adjustment.value as int;
            &&& least <= value <= greatest
            &&& adjustment.relative && adjustment.increase ==> value >= current && value == (
            if current + amount <= greatest {
                current + amount
            } else {
                greatest as int
            })
            &&& adjustment.relative && !adjustment.increase ==> value <= current && value == (
            if current - amount >= least {
                current - amount
            } else {
                least as int
            })
            &&& !adjustment.relative && least <= amount <= greatest ==> value == amount
            &&& !adjustment.relative && amount < least ==> value == least
            &&& !adjustment.relative && amount > greatest ==> value == greatest
        }),
{
}

/// A step down undoes a step up of the same size that met no bound, and the other way round.
pub proof fn law_steps_undo_each_other(current: u64, property: Property, amount: u64, increase: bool)
    requires
        property == Property::Dim && (if increase {
            current + amount <= 100
        } else {
            amount <= current <= 100
        }) || property == Property::Temperature && 1000 <= current <= 25000 && (
        if increase {
            current + amount <= 25000
        } else {
            1000 + amount <= current
        }),
    ensures
        ({
            let there = ValueAdjustment { relative: true, increase, value: amount };
            let back = ValueAdjustment { relative: true, increase: !increase, value: amount };
            super::granted(super::granted(current, property, there) as u64, property, back)
                == current
        }),
{
}

/// A property is read and set by itself: setting one leaves the other as it was.
pub proof fn law_properties_are_independent(values: Values, value: u64)
    ensures
        values.get(Property::Dim) == values.dim,
        values.get(Property::Temperature) == values.temperature,
        values.with(Property::Dim, value).dim == value,
        values.with(Property::Dim, value).temperature == values.temperature,
        values.with(Property::Temperature, value).temperature == value,
        values.with(Property::Temperature, value).dim == values.dim,
{
}

/// The values that change nothing are no dimming and the neutral temperature, and all valid values
/// are between no dimming and full dimming and between the extreme temperatures.
pub proof fn law_valid_values(values: Values)
    ensures
        Values::spec_neutral().dim == 0,
        Values::spec_neutral().temperature == 6500,
        values.valid() <==> values.dim <= 100 && 1000 <= values.temperature
            && values.temperature <= 25000,
{
}

/// A new target begins a transition from the present values at once, where the output is under control
/// and shows other values. The target that there is already changes nothing. Aiming alone never
/// changes what the output shows.
pub proof fn law_new_targets_begin_transitions(controller: Controller, target: Values, now: u64)
    ensures
        ({
            let after = controller.aimed(target, now);
            &&& after.target == target
            &&& after.current == controller.current
            &&& after.backend == controller.backend
            &&& after.last_attempt == controller.last_attempt
            &&& target == controller.target ==> after.transition == controller.transition
            &&& target != controller.target && controller.backend is Some && controller.current
                != target ==> after.transition is Some && after.transition->0.from
                == controller.current && after.transition->0.started == now
            &&& target != controller.target && (controller.backend is None || controller.current
                == target) ==> after.transition is None
        }),
{
}

/// Predictions are aimed at as they are where they are within bounds, else at the nearest bound. What
/// was not predicted stays aimed at.
pub proof fn law_predictions_are_aimed_at(target: Values, dim: Option<u64>, temperature: Option<u64>)
    requires
        target.dim <= 100,
        1000 <= target.temperature <= 25000,
    ensures
        ({
            let aimed = super::predicted_target(target, dim, temperature);
            &&& dim is None ==> aimed.dim == target.dim
            &&& dim matches Some(dim) ==> aimed.dim == (if dim <= 100 {
                dim
            } else {
                100
            })
            &&& temperature is None ==> aimed.temperature == target.temperature
            &&& temperature matches Some(wanted) ==> {
                &&& 1000 <= wanted <= 25000 ==> aimed.temperature == wanted
                &&& wanted < 1000 ==> aimed.temperature == 1000
                &&& wanted > 25000 ==> aimed.temperature == 25000
            }
        }),
{
}

/// Control is tried for at the start and whenever the last attempt is half a minute ago, for as long as
/// there is none.
pub proof fn law_attempts_are_spaced(controller: Controller, now: u64)
    ensures
        controller.backend is Some ==> !controller.attempts(now),
        controller.backend is None && controller.last_attempt is None ==> controller.attempts(now),
        controller.backend is None && controller.last_attempt is Some ==> (controller.attempts(now)
            <==> now >= controller.last_attempt->0 + 30_000_000_000),
{
}

/// During a transition both values lie between those that it comes from and those aimed at, and come
/// ever closer to them.
pub proof fn law_transitions_approach_the_target(controller: Controller, now: u64, later: u64)
    requires
        controller.well_formed(),
        controller.transition is Some,
        now <= later,
    ensures
        ({
            let from = controller.transition->0.from;
            let target = controller.target;
            let first = (controller.spec_advance(now)->0).next;
            let second = (controller.spec_advance(later)->0).next;
            &&& from.dim <= target.dim ==> from.dim <= first.dim <= second.dim <= target.dim
            &&& from.dim >= target.dim ==> from.dim >= first.dim >= second.dim >= target.dim
            &&& from.temperature <= target.temperature ==> from.temperature <= first.temperature
                <= second.temperature <= target.temperature
            &&& from.temperature >= target.temperature ==> from.temperature >= first.temperature
                >= second.temperature >= target.temperature
        }),
{
    let transition = controller.transition->0;
    let earlier = if now < transition.started {
        0u64
    } else {
        (now - transition.started) as u64
    };
    let after = if later < transition.started {
        0u64
    } else {
        (later - transition.started) as u64
    };
    transition_laws::law_transitions_do_not_turn_back(
        transition.from.dim,
        controller.target.dim,
        earlier,
        after,
    );
    transition_laws::law_transitions_do_not_turn_back(
        transition.from.temperature,
        controller.target.temperature,
        earlier,
        after,
    );
}

/// There is a step exactly during a transition, and the backend has to set values exactly if they are
/// other ones than the output shows.
pub proof fn law_steps_are_taken_during_transitions(controller: Controller, now: u64)
    ensures
        controller.spec_advance(now) is Some <==> controller.transition is Some,
        controller.spec_advance(now) matches Some(advance) ==> (advance.apply <==> advance.next.dim
            != controller.current.dim || advance.next.temperature
            != controller.current.temperature),
{
}

/// The last step of a transition shows the values that were aimed at.
pub proof fn law_last_steps_show_the_target(controller: Controller, now: u64)
    requires
        controller.well_formed(),
        controller.transition is Some,
        controller.spec_advance(now)->0.finished,
    ensures
        controller.spec_advance(now)->0.next == controller.target,
{
    let transition = controller.transition->0;
    let time = if now < transition.started {
        0u64
    } else {
        (now - transition.started) as u64
    };
    transition_laws::law_transitions_end_at_the_target(
        transition.from.dim,
        controller.target.dim,
        time,
    );
    transition_laws::law_transitions_end_at_the_target(
        transition.from.temperature,
        controller.target.temperature,
        time,
    );
}

/// A step that was taken shows its values, and the last one ends the transition. A step that the
/// backend failed to take loses control and every change with it, but not the target.
pub proof fn law_steps_take_effect(controller: Controller, advance: Advance, succeeded: bool)
    ensures
        ({
            let after = controller.spec_advanced(advance, succeeded);
            &&& after.target == controller.target
            &&& after.last_attempt == controller.last_attempt
            &&& advance.apply && !succeeded ==> after.backend is None && after.transition is None
                && after.current.dim == 0 && after.current.temperature == 6500
            &&& !advance.apply || succeeded ==> after.backend == controller.backend
            &&& (!advance.apply || succeeded) && advance.finished ==> after.current
                == controller.target && after.transition is None
            &&& (!advance.apply || succeeded) && !advance.finished ==> after.current
                == advance.next && after.transition == controller.transition
        }),
{
}

/// A value that is set is shown once the transition to it is over: half a second later every step
/// leads there.
pub proof fn law_a_set_value_is_shown(
    controller: Controller,
    property: Property,
    adjustment: ValueAdjustment,
    now: u64,
    later: u64,
)
    requires
        controller.well_formed(),
        controller.backend is Some,
        property != Property::Brightness,
        later >= now + 500_000_000,
    ensures
        ({
            let value = super::granted(
                controller.target.get(property),
                property,
                adjustment,
            ) as u64;
            let target = controller.target.with(property, value);
            let after = controller.aimed(target, now);
            &&& after.target == target
            &&& target != controller.target && controller.current != target ==> ({
                let advance = after.spec_advance(later)->0;
                &&& after.spec_advance(later) is Some
                &&& after.spec_advanced(advance, true).current == target
                &&& after.spec_advanced(advance, true).transition is None
            })
        }),
{
    let value = super::granted(controller.target.get(property), property, adjustment) as u64;
    let target = controller.target.with(property, value);
    let after = controller.aimed(target, now);
    if target != controller.target && controller.current != target {
        super::law_transition_leads_to_the_target(after, later);
    }
}

/// Mutter is given more time between two steps than Wayland.
pub proof fn law_transition_intervals(backend: Backend)
    ensures
        backend == Backend::Wayland ==> backend.spec_transition_interval()
            == 20_000_000,
        backend == Backend::Mutter ==> backend.spec_transition_interval()
            == 50_000_000,
{
}

/// What is reported where no backend works names what each of them has against it.
pub proof fn law_reports_name_both_backends(wayland: Seq<char>, mutter: Seq<char>)
    ensures
        ({
            let message = super::unsupported_message(wayland, mutter);
            &&& message.len() == 9 + wayland.len() + 10 + mutter.len()
            &&& message.take(9) == "Wayland: "@
            &&& message.subrange(9, 9 + wayland.len() as int) == wayland
            &&& message.subrange(9 + wayland.len() as int, 19 + wayland.len() as int)
                == "; Mutter: "@
            &&& message.skip(19 + wayland.len() as int) == mutter
        }),
{
    reveal_strlit("Wayland: ");
    reveal_strlit("; Mutter: ");
    let message = super::unsupported_message(wayland, mutter);
    assert(message.take(9) =~= "Wayland: "@);
    assert(message.subrange(9, 9 + wayland.len() as int) =~= wayland);
    assert(message.subrange(9 + wayland.len() as int, 19 + wayland.len() as int) =~= "; Mutter: "@);
    assert(message.skip(19 + wayland.len() as int) =~= mutter);
}

/// Without a transition the control looks for something to do every tenth of a second, which is less
/// often than during one.
pub proof fn law_idle_control_is_slower(backend: Backend)
    ensures
        super::IDLE_INTERVAL == 100_000_000,
        backend.spec_transition_interval() < super::IDLE_INTERVAL,
{
}

} // verus!
