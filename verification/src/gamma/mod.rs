//! Gamma control of an output: dimming and colour temperature, with smooth transitions.
//!
//! Points in time are nanoseconds since an arbitrary origin; durations are nanoseconds.

pub mod accuracy_laws;
pub mod backend_laws;
pub mod control_laws;
pub mod mutter;
pub mod ramp;
pub mod ramp_laws;
pub mod transition;
pub mod transition_laws;
pub mod wayland;

use vstd::prelude::*;

use crate::control::{Property, ValueAdjustment};
use crate::double::{Double, ONE_BITS};

use self::ramp::{MAX_TEMPERATURE, MIN_TEMPERATURE, NEUTRAL_TEMPERATURE};
use self::transition::{interpolate, to_progress, TRANSITION_DURATION};

verus! {

/// The time between two attempts to get hold of gamma control.
pub const RETRY_INTERVAL: u64 = 30_000_000_000;

/// The time between two steps without a transition.
pub const IDLE_INTERVAL: u64 = 100_000_000;

/// The time between two steps of a transition over Wayland.
pub const WAYLAND_TRANSITION_INTERVAL: u64 = 20_000_000;

/// The time between two steps of a transition over Mutter.
pub const MUTTER_TRANSITION_INTERVAL: u64 = 50_000_000;

/// The strongest dimming, a percentage.
pub const MAX_DIM: u64 = 100;

/// Who sets the gamma ramps.
#[derive(Clone, Copy, Debug, PartialEq, Eq, Structural)]
pub enum Backend {
    Wayland,
    Mutter,
}

/// Why nobody can set the gamma ramps.
#[derive(Debug)]
pub enum BackendError {
    Unsupported(String),
    Rejected(String),
}

/// What both backends have against it.
pub open spec fn unsupported_message(wayland: Seq<char>, mutter: Seq<char>) -> Seq<char> {
    "Wayland: "@ + wayland + "; Mutter: "@ + mutter
}

impl Backend {
    /// Whether Mutter is asked, after Wayland was.
    pub fn asks_mutter(wayland: &Result<(), wayland::Failure>) -> (asked: bool)
        ensures
            asked == (*wayland is Err),
    {
        wayland.is_err()
    }

    /// The backend to use: Wayland where it works, else Mutter where that works. Otherwise a rejection
    /// by Wayland is what is reported.
    pub fn new(wayland: Result<(), wayland::Failure>, mutter: Result<(), String>) -> (backend: Result<
        Self,
        BackendError,
    >)
        ensures
            match (wayland, mutter) {
                (Ok(_), _) => backend == Ok::<Backend, BackendError>(Backend::Wayland),
                (Err(_), Ok(_)) => backend == Ok::<Backend, BackendError>(Backend::Mutter),
                (Err(wayland::Failure::Unavailable(wayland_error)), Err(mutter_error)) => {
                    &&& backend matches Err(BackendError::Unsupported(message))
                    &&& message@ == unsupported_message(wayland_error@, mutter_error@)
                },
                (Err(wayland::Failure::Rejected(wayland_error)), Err(_)) => backend == Err::<
                    Backend,
                    BackendError,
                >(BackendError::Rejected(wayland_error)),
            },
    {
        match wayland {
            Ok(_) => Ok(Backend::Wayland),
            Err(failure) => match mutter {
                Ok(_) => Ok(Backend::Mutter),
                Err(mutter_error) => match failure {
                    wayland::Failure::Unavailable(wayland_error) => {
                        let mut message = "Wayland: ".to_owned();
                        message.append(wayland_error.as_str());
                        message.append("; Mutter: ");
                        message.append(mutter_error.as_str());
                        Err(BackendError::Unsupported(message))
                    },
                    wayland::Failure::Rejected(wayland_error) => Err(
                        BackendError::Rejected(wayland_error),
                    ),
                },
            },
        }
    }

    pub open spec fn spec_transition_interval(self) -> u64 {
        match self {
            Backend::Wayland => WAYLAND_TRANSITION_INTERVAL,
            Backend::Mutter => MUTTER_TRANSITION_INTERVAL,
        }
    }

    pub fn transition_interval(&self) -> (interval: u64)
        ensures
            interval == self.spec_transition_interval(),
    {
        match self {
            Backend::Wayland => WAYLAND_TRANSITION_INTERVAL,
            Backend::Mutter => MUTTER_TRANSITION_INTERVAL,
        }
    }
}

/// A dim percentage and a colour temperature.
#[derive(Clone, Copy, Debug, PartialEq, Eq, Structural)]
pub struct Values {
    pub dim: u64,
    pub temperature: u64,
}

impl Values {
    pub open spec fn valid(self) -> bool {
        self.dim <= MAX_DIM && MIN_TEMPERATURE <= self.temperature <= MAX_TEMPERATURE
    }

    pub open spec fn spec_neutral() -> Values {
        Values { dim: 0, temperature: NEUTRAL_TEMPERATURE }
    }

    /// The values that change nothing.
    pub fn neutral() -> (values: Self)
        ensures
            values == Values::spec_neutral(),
            values.valid(),
    {
        Values { dim: 0, temperature: NEUTRAL_TEMPERATURE }
    }

    pub open spec fn get(self, property: Property) -> u64 {
        match property {
            Property::Temperature => self.temperature,
            _ => self.dim,
        }
    }

    pub open spec fn with(self, property: Property, value: u64) -> Values {
        match property {
            Property::Temperature => Values { temperature: value, ..self },
            _ => Values { dim: value, ..self },
        }
    }
}

/// A transition that began at these values.
#[derive(Clone, Copy, Debug, PartialEq, Eq, Structural)]
pub struct Transition {
    pub from: Values,
    pub started: u64,
}

/// A request to read or to change a value.
#[derive(Clone, Copy, Debug, PartialEq, Eq, Structural)]
pub enum CommandAction {
    Get(Property),
    Adjust(Property, ValueAdjustment),
}

/// The answer to a request.
#[derive(Clone, Copy, Debug, PartialEq, Eq, Structural)]
pub struct Executed {
    pub value: u64,
    /// The value that the user chose: forget the predictions that are under way.
    pub chosen: Option<Property>,
    /// Tell the predictor of the value.
    pub learn: bool,
}

/// A step of a transition.
#[derive(Clone, Copy, Debug, PartialEq, Eq, Structural)]
pub struct Advance {
    pub next: Values,
    /// The backend has to set the values.
    pub apply: bool,
    /// The transition is over.
    pub finished: bool,
}

/// The values of a transition at a point in time.
pub open spec fn at(transition: Transition, target: Values, now: u64) -> Values {
    let done = transition::progress(transition::elapsed(transition.started, now));
    Values {
        dim: transition::spec_interpolate(transition.from.dim, target.dim, done) as u64,
        temperature: transition::spec_interpolate(
            transition.from.temperature,
            target.temperature,
            done,
        ) as u64,
    }
}

/// The value that a request asks for, before it is brought within bounds.
pub open spec fn requested(current: u64, adjustment: ValueAdjustment) -> int {
    if !adjustment.relative {
        adjustment.value as int
    } else if adjustment.increase {
        current + adjustment.value
    } else {
        current - adjustment.value
    }
}

pub open spec fn least_value(property: Property) -> u64 {
    match property {
        Property::Temperature => MIN_TEMPERATURE,
        _ => 0,
    }
}

pub open spec fn greatest_value(property: Property) -> u64 {
    match property {
        Property::Temperature => MAX_TEMPERATURE,
        _ => MAX_DIM,
    }
}

pub open spec fn within(value: int, low: int, high: int) -> int {
    if value < low {
        low
    } else if value > high {
        high
    } else {
        value
    }
}

/// The value that a request sets.
pub open spec fn granted(current: u64, property: Property, adjustment: ValueAdjustment) -> int {
    within(
        requested(current, adjustment),
        least_value(property) as int,
        greatest_value(property) as int,
    )
}

/// The values that predictions aim at, where there are any.
pub open spec fn predicted_target(target: Values, dim: Option<u64>, temperature: Option<u64>) -> Values {
    Values {
        dim: within((dim.unwrap_or(target.dim)) as int, 0, MAX_DIM as int) as u64,
        temperature: within(
            (temperature.unwrap_or(target.temperature)) as int,
            MIN_TEMPERATURE as int,
            MAX_TEMPERATURE as int,
        ) as u64,
    }
}

fn clamp(value: u64, low: u64, high: u64) -> (nearest: u64)
    ensures
        nearest == within(value as int, low as int, high as int),
{
    if value < low {
        low
    } else if value > high {
        high
    } else {
        value
    }
}

/// The gamma control of one output.
#[derive(Clone, Copy, Debug, PartialEq, Eq, Structural)]
pub struct Controller {
    pub backend: Option<Backend>,
    pub last_attempt: Option<u64>,
    pub current: Values,
    pub target: Values,
    pub transition: Option<Transition>,
}

impl Controller {
    /// All values are within bounds, and only an output under control is in transition.
    pub open spec fn well_formed(&self) -> bool {
        &&& self.current.valid()
        &&& self.target.valid()
        &&& self.transition matches Some(transition) ==> self.backend is Some && transition.from.valid()
    }

    pub fn new() -> (controller: Self)
        ensures
            controller.well_formed(),
            controller.backend is None,
            controller.last_attempt is None,
            controller.current == Values::spec_neutral(),
            controller.target == Values::spec_neutral(),
            controller.transition is None,
    {
        Controller {
            backend: None,
            last_attempt: None,
            current: Values::neutral(),
            target: Values::neutral(),
            transition: None,
        }
    }

    /// Whether the output's gamma can be controlled.
    pub fn available(&self) -> (available: bool)
        ensures
            available == (self.backend is Some),
    {
        self.backend.is_some()
    }

    /// Whether to try now to get hold of gamma control.
    pub open spec fn attempts(&self, now: u64) -> bool {
        self.backend is None && (self.last_attempt matches Some(attempt) ==> now >= attempt
            && now - attempt >= RETRY_INTERVAL)
    }

    /// The values to begin with, where it is time to try to get hold of gamma control.
    pub fn connect(&mut self, now: u64) -> (values: Option<Values>)
        requires
            old(self).well_formed(),
        ensures
            final(self).well_formed(),
            values == (if old(self).attempts(now) {
                Some(old(self).current)
            } else {
                None
            }),
            *final(self) == (if old(self).attempts(now) {
                Controller { last_attempt: Some(now), ..*old(self) }
            } else {
                *old(self)
            }),
    {
        if self.backend.is_some() {
            return None;
        }
        if let Some(attempt) = self.last_attempt {
            if now < attempt || now - attempt < RETRY_INTERVAL {
                return None;
            }
        }
        self.last_attempt = Some(now);
        Some(self.current)
    }

    /// A backend took control and set the present values.
    pub fn connected(&mut self, backend: Backend, now: u64)
        requires
            old(self).well_formed(),
        ensures
            final(self).well_formed(),
            *final(self) == (Controller {
                backend: Some(backend),
                transition: if old(self).current != old(self).target {
                    Some(Transition { from: old(self).current, started: now })
                } else {
                    old(self).transition
                },
                ..*old(self)
            }),
    {
        self.backend = Some(backend);
        if self.current != self.target {
            self.transition = Some(Transition { from: self.current, started: now });
        }
    }

    pub fn value(&self, property: Property) -> (value: u64)
        requires
            property != Property::Brightness,
        ensures
            value == self.target.get(property),
    {
        match property {
            Property::Temperature => self.target.temperature,
            _ => self.target.dim,
        }
    }

    /// The state with another target.
    pub open spec fn aimed(self, target: Values, now: u64) -> Controller {
        if target == self.target {
            self
        } else {
            Controller {
                target,
                transition: if self.backend is Some && self.current != target {
                    Some(Transition { from: self.current, started: now })
                } else {
                    None
                },
                ..self
            }
        }
    }

    /// Aims at other values. A new target begins a new transition.
    pub fn set_target(&mut self, target: Values, now: u64)
        requires
            old(self).well_formed(),
            target.valid(),
        ensures
            final(self).well_formed(),
            *final(self) == old(self).aimed(target, now),
    {
        if target == self.target {
            return;
        }
        self.target = target;
        self.transition = if self.backend.is_some() && self.current != target {
            Some(Transition { from: self.current, started: now })
        } else {
            None
        };
    }

    /// Answers a request; without control of the output there is nothing to answer.
    pub fn execute(&mut self, action: CommandAction, paused: bool, now: u64) -> (executed: Option<Executed>)
        requires
            old(self).well_formed(),
            old(self).backend is Some ==> match action {
                CommandAction::Get(property) => property != Property::Brightness,
                CommandAction::Adjust(property, _) => property != Property::Brightness,
            },
        ensures
            final(self).well_formed(),
            executed is Some <==> old(self).backend is Some,
            old(self).backend is None ==> *final(self) == *old(self),
            executed matches Some(executed) ==> match action {
                CommandAction::Get(property) => {
                    &&& *final(self) == *old(self)
                    &&& executed == (Executed {
                        value: old(self).target.get(property),
                        chosen: None,
                        learn: false,
                    })
                },
                CommandAction::Adjust(property, adjustment) => {
                    &&& executed.value == granted(
                        old(self).target.get(property),
                        property,
                        adjustment,
                    )
                    &&& adjustment.relative && adjustment.increase ==> executed.value
                        >= old(self).target.get(property)
                    &&& adjustment.relative && !adjustment.increase ==> executed.value
                        <= old(self).target.get(property)
                    &&& property == Property::Dim ==> final(self).target == (Values {
                        dim: executed.value,
                        temperature: old(self).target.temperature,
                    })
                    &&& property == Property::Temperature ==> final(self).target == (Values {
                        dim: old(self).target.dim,
                        temperature: executed.value,
                    })
                    &&& executed.chosen == Some(property)
                    &&& executed.learn == !paused
                    &&& *final(self) == old(self).aimed(
                        old(self).target.with(property, executed.value),
                        now,
                    )
                },
            },
    {
        if self.backend.is_none() {
            return None;
        }
        match action {
            CommandAction::Get(property) => Some(
                Executed { value: self.value(property), chosen: None, learn: false },
            ),
            CommandAction::Adjust(property, adjustment) => {
                let current: u64 = self.value(property);
                let value: u64 = if adjustment.relative {
                    if adjustment.increase {
                        current.saturating_add(adjustment.value)
                    } else {
                        current.saturating_sub(adjustment.value)
                    }
                } else {
                    adjustment.value
                };
                let (value, target): (u64, Values) = match property {
                    Property::Temperature => {
                        let value: u64 = clamp(value, MIN_TEMPERATURE, MAX_TEMPERATURE);
                        (value, Values { dim: self.target.dim, temperature: value })
                    },
                    _ => {
                        let value: u64 = clamp(value, 0, MAX_DIM);
                        (value, Values { dim: value, temperature: self.target.temperature })
                    },
                };
                self.set_target(target, now);
                Some(Executed { value, chosen: Some(property), learn: !paused })
            },
        }
    }

    /// Takes in the latest predictions, unless they are paused.
    pub fn predicted(&mut self, dim: Option<u64>, temperature: Option<u64>, paused: bool, now: u64)
        requires
            old(self).well_formed(),
        ensures
            final(self).well_formed(),
            *final(self) == (if !paused && (dim is Some || temperature is Some) {
                old(self).aimed(predicted_target(old(self).target, dim, temperature), now)
            } else {
                *old(self)
            }),
    {
        if paused || (dim.is_none() && temperature.is_none()) {
            return;
        }
        let wanted_dim: u64 = match dim {
            Some(value) => value,
            None => self.target.dim,
        };
        let wanted_temperature: u64 = match temperature {
            Some(value) => value,
            None => self.target.temperature,
        };
        let target = Values {
            dim: clamp(wanted_dim, 0, MAX_DIM),
            temperature: clamp(wanted_temperature, MIN_TEMPERATURE, MAX_TEMPERATURE),
        };
        self.set_target(target, now);
    }

    /// The next step of the transition.
    pub open spec fn spec_advance(&self, now: u64) -> Option<Advance> {
        match self.transition {
            None => None,
            Some(transition) => {
                let next = at(transition, self.target, now);
                Some(
                    Advance {
                        next,
                        apply: next != self.current,
                        finished: transition::is_over(transition::elapsed(transition.started, now)),
                    },
                )
            },
        }
    }

    /// Decides on the next step of the transition, if there is one.
    pub fn advance(&self, now: u64) -> (advance: Option<Advance>)
        requires
            self.well_formed(),
        ensures
            advance == self.spec_advance(now),
            advance matches Some(advance) ==> advance.next.valid(),
    {
        match self.transition {
            None => None,
            Some(transition) => {
                let elapsed: u64 = if now < transition.started {
                    0
                } else {
                    now - transition.started
                };
                let done = to_progress(elapsed);
                let next = Values {
                    dim: interpolate(transition.from.dim, self.target.dim, done),
                    temperature: interpolate(
                        transition.from.temperature,
                        self.target.temperature,
                        done,
                    ),
                };
                proof {
                    transition_laws::lemma_ends(transition.from.dim, self.target.dim, elapsed);
                    transition_laws::lemma_ends(
                        transition.from.temperature,
                        self.target.temperature,
                        elapsed,
                    );
                    crate::double::lemma_one_bits();
                }
                let finished = done.at_least(Double::decode(ONE_BITS));
                Some(
                    Advance {
                        next,
                        apply: next != self.current,
                        finished,
                    },
                )
            },
        }
    }

    /// The state after a step that the backend took, or failed to take.
    pub open spec fn spec_advanced(self, advance: Advance, succeeded: bool) -> Controller {
        if advance.apply && !succeeded {
            Controller {
                backend: None,
                current: Values::spec_neutral(),
                transition: None,
                ..self
            }
        } else if advance.finished {
            Controller { current: self.target, transition: None, ..self }
        } else {
            Controller { current: advance.next, ..self }
        }
    }

    /// Notes a step of the transition. Where the backend failed to set the values, control is lost,
    /// and with it every change.
    pub fn advanced(&mut self, advance: Advance, succeeded: bool)
        requires
            old(self).well_formed(),
            advance.next.valid(),
            !advance.apply ==> advance.next == old(self).current,
        ensures
            final(self).well_formed(),
            *final(self) == old(self).spec_advanced(advance, succeeded),
    {
        if advance.apply {
            if !succeeded {
                self.backend = None;
                self.current = Values::neutral();
                self.transition = None;
                return;
            }
            self.current = advance.next;
        }
        if advance.finished {
            self.current = self.target;
            self.transition = None;
        }
    }

    /// The time until the next step.
    pub fn interval(&self) -> (interval: u64)
        ensures
            interval == (match (self.transition, self.backend) {
                (Some(_), Some(backend)) => backend.spec_transition_interval(),
                _ => IDLE_INTERVAL,
            }),
    {
        match (self.transition, self.backend) {
            (Some(_), Some(backend)) => backend.transition_interval(),
            _ => IDLE_INTERVAL,
        }
    }

    /// The present values, as they are reported.
    pub fn status(&self) -> (status: (u8, u32))
        requires
            self.well_formed(),
        ensures
            status.0 == self.current.dim,
            status.1 == self.current.temperature,
    {
        (self.current.dim as u8, self.current.temperature as u32)
    }
}

impl Default for Controller {
    fn default() -> (controller: Self)
        ensures
            controller.well_formed(),
            controller.backend is None,
            controller.last_attempt is None,
            controller.current == Values::spec_neutral(),
            controller.target == Values::spec_neutral(),
            controller.transition is None,
    {
        Controller::new()
    }
}

/// The last of the values that are waiting.
pub fn last(values: &Vec<u64>) -> (value: Option<u64>)
    ensures
        value == (if values@.len() > 0 {
            Some(values@.last())
        } else {
            None
        }),
{
    if values.len() > 0 {
        Some(values[values.len() - 1])
    } else {
        None
    }
}

/// A transition begins where it comes from, and after its time the values are those aimed at.
pub proof fn law_transition_leads_to_the_target(controller: Controller, now: u64)
    requires
        controller.well_formed(),
        controller.transition is Some,
    ensures
        now <= controller.transition->0.started ==> (controller.spec_advance(now)->0).next
            == controller.transition->0.from,
        now >= controller.transition->0.started + TRANSITION_DURATION ==> {
            &&& (controller.spec_advance(now)->0).next == controller.target
            &&& (controller.spec_advance(now)->0).finished
            &&& controller.spec_advanced(controller.spec_advance(now)->0, true).current
                == controller.target
            &&& controller.spec_advanced(controller.spec_advance(now)->0, true).transition is None
        },
{
    let transition = controller.transition->0;
    let time = transition::elapsed(transition.started, now);
    transition_laws::lemma_ends(transition.from.dim, controller.target.dim, time);
    transition_laws::lemma_ends(transition.from.temperature, controller.target.temperature, time);
    if time >= TRANSITION_DURATION {
        transition_laws::lemma_over(time);
    }
}

/// A value that was set is read back until another one is set or predicted.
pub proof fn law_a_set_value_is_read_back(
    controller: Controller,
    property: Property,
    adjustment: ValueAdjustment,
    now: u64,
)
    requires
        controller.well_formed(),
        property != Property::Brightness,
    ensures
        ({
            let value = granted(controller.target.get(property), property, adjustment) as u64;
            let after = controller.aimed(controller.target.with(property, value), now);
            after.target.get(property) == value
        }),
{
}

} // verus!
