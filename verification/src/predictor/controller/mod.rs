//! Decides when to learn and when to predict.
//!
//! Points in time are nanoseconds since an arbitrary origin; durations are nanoseconds.

pub mod adaptive;
pub mod adaptive_laws;
pub mod monotonic;
pub mod surface;
pub mod surface_laws;
pub mod turn_laws;

use vstd::prelude::*;

verus! {

/// How long the first inputs may take.
pub const INITIAL_TIMEOUT: u64 = 15_000_000_000;

/// How long the user has to be content with a value before it is learned.
pub const PENDING_COOLDOWN: u64 = 1_500_000_000;

/// A time to wait for.
#[derive(Clone, Copy, Debug, PartialEq, Eq, Structural)]
pub struct Cooldown {
    pub until: Option<u64>,
}

impl Cooldown {
    pub open spec fn active(self, now: u64) -> bool {
        self.until matches Some(until) && now < until
    }

    pub fn new() -> (cooldown: Self)
        ensures
            cooldown.until is None,
    {
        Cooldown { until: None }
    }

    /// Begins to wait for a duration.
    pub fn reset(&mut self, now: u64, duration: u64)
        requires
            now + duration <= u64::MAX,
        ensures
            final(self).until == Some((now + duration) as u64),
    {
        self.until = Some(now + duration);
    }

    pub fn is_active(&self, now: u64) -> (active: bool)
        ensures
            active == self.active(now),
    {
        match self.until {
            Some(until) => now < until,
            None => false,
        }
    }

    pub fn clear(&mut self)
        ensures
            final(self).until is None,
    {
        self.until = None;
    }
}

impl Default for Cooldown {
    fn default() -> (cooldown: Self)
        ensures
            cooldown.until is None,
    {
        Cooldown::new()
    }
}

/// How a value is chosen.
#[derive(Clone, Copy, Debug, PartialEq, Eq, Structural)]
pub enum Inner {
    /// By learning and predicting.
    Adaptive,
    /// By fixed rules.
    Manual,
}

/// What a controller does with a frame.
#[derive(Clone, Copy, Debug, PartialEq, Eq, Structural)]
pub enum Turn {
    /// Adjust to it.
    Adjust,
    /// Discard what came in meanwhile.
    Discard,
    /// Nothing.
    Skip,
}

/// What a frame means for a controller and for those that go with it.
#[derive(Debug)]
pub struct Adjustment {
    /// Report the luma of the frame.
    pub report: bool,
    /// What each controller that goes with it does, in order.
    pub additional: Vec<Turn>,
}

/// The state of a switch, where there is one.
pub type Switch = Option<bool>;

/// A controller, and the controllers that go with it.
#[derive(Debug)]
pub struct Controller {
    pub inner: Inner,
    pub reports: bool,
    pub paused: Switch,
    pub enabled: Switch,
    pub additional: Vec<Controller>,
}

impl Controller {
    pub open spec fn spec_is_enabled(&self) -> bool {
        self.enabled != Some(false)
    }

    pub open spec fn spec_can_adjust(&self) -> bool {
        self.paused != Some(true) && self.spec_is_enabled()
    }

    pub open spec fn turn(&self) -> Turn {
        if self.spec_can_adjust() {
            Turn::Adjust
        } else if !self.spec_is_enabled() && self.inner == Inner::Adaptive {
            Turn::Discard
        } else {
            Turn::Skip
        }
    }

    pub fn adaptive() -> (controller: Self)
        ensures
            controller.inner == Inner::Adaptive,
            !controller.reports,
            controller.paused is None,
            controller.enabled is None,
            controller.additional@.len() == 0,
    {
        Controller {
            inner: Inner::Adaptive,
            reports: false,
            paused: None,
            enabled: None,
            additional: Vec::new(),
        }
    }

    pub fn manual() -> (controller: Self)
        ensures
            controller.inner == Inner::Manual,
            !controller.reports,
            controller.paused is None,
            controller.enabled is None,
            controller.additional@.len() == 0,
    {
        Controller {
            inner: Inner::Manual,
            reports: false,
            paused: None,
            enabled: None,
            additional: Vec::new(),
        }
    }

    pub fn with_additional(self, controllers: Vec<Controller>) -> (controller: Self)
        ensures
            controller == (Controller { additional: controllers, ..self }),
    {
        Controller { additional: controllers, ..self }
    }

    /// The controller with a switch that enables it.
    pub fn with_enabled(self, enabled: bool) -> (controller: Self)
        ensures
            controller == (Controller { enabled: Some(enabled), ..self }),
    {
        Controller { enabled: Some(enabled), ..self }
    }

    /// The controller that reports the luma, with a switch that pauses it.
    pub fn with_status(self, paused: bool) -> (controller: Self)
        ensures
            controller == (Controller { reports: true, paused: Some(paused), ..self }),
    {
        Controller { reports: true, paused: Some(paused), ..self }
    }

    pub fn is_enabled(&self) -> (enabled: bool)
        ensures
            enabled == self.spec_is_enabled(),
    {
        match self.enabled {
            Some(enabled) => enabled,
            None => true,
        }
    }

    pub fn can_adjust(&self) -> (allowed: bool)
        ensures
            allowed == self.spec_can_adjust(),
    {
        let paused = match self.paused {
            Some(paused) => paused,
            None => false,
        };
        !paused && self.is_enabled()
    }

    /// What a controller that goes with another one does with a frame.
    pub fn take_turn(&self) -> (turn: Turn)
        ensures
            turn == self.turn(),
    {
        if self.can_adjust() {
            Turn::Adjust
        } else if !self.is_enabled() && matches!(self.inner, Inner::Adaptive) {
            Turn::Discard
        } else {
            Turn::Skip
        }
    }

    /// What a frame means: nothing while the controller is paused or disabled, whatever the others
    /// are.
    pub fn adjust(&self) -> (adjustment: Option<Adjustment>)
        ensures
            adjustment is Some <==> self.spec_can_adjust(),
            adjustment matches Some(adjustment) ==> {
                &&& adjustment.report == self.reports
                &&& adjustment.additional@.len() == self.additional@.len()
                &&& forall|i: int|
                    0 <= i < self.additional@.len() ==> #[trigger] adjustment.additional@[i]
                        == self.additional@[i].turn()
            },
    {
        if !self.can_adjust() {
            return None;
        }
        let mut additional: Vec<Turn> = Vec::new();
        let mut i: usize = 0;
        while i < self.additional.len()
            invariant
                i <= self.additional.len(),
                additional@.len() == i,
                forall|j: int| 0 <= j < i ==> #[trigger] additional@[j] == self.additional@[j].turn(),
            decreases self.additional.len() - i,
        {
            additional.push(self.additional[i].take_turn());
            i += 1;
        }
        Some(Adjustment { report: self.reports, additional })
    }
}

/// The distance beyond which an observation has no influence: the bits of the double-precision number
/// 5.0. Numbers that are not negative are ordered as their bits are.
pub const MAX_DISTANCE: u64 = 0x4014_0000_0000_0000;

/// Which observations a value is interpolated from.
#[derive(Debug, PartialEq, Eq)]
pub enum Influence {
    /// From the one at this place alone, which is at the very condition.
    Exact(usize),
    /// From those at these places, by their distances.
    Weighted(Vec<usize>),
    /// From none.
    Nothing,
}

/// Decides which observations a value is interpolated from, given their distances as the bits of
/// double-precision numbers.
pub fn influence(distances: &Vec<u64>) -> (influence: Influence)
    ensures
        match influence {
            Influence::Exact(at) => {
                &&& at < distances@.len()
                &&& distances@[at as int] == 0
                &&& forall|i: int| 0 <= i < at ==> #[trigger] distances@[i] != 0
            },
            Influence::Weighted(places) => {
                &&& forall|i: int| 0 <= i < distances@.len() ==> #[trigger] distances@[i] != 0
                &&& places@.len() > 0
                &&& forall|i: int, j: int| 0 <= i < j < places@.len() ==> places@[i] < places@[j]
                &&& forall|place: usize|
                    places@.contains(place) <==> (place < distances@.len()
                        && distances@[place as int] <= MAX_DISTANCE)
            },
            Influence::Nothing => forall|i: int|
                0 <= i < distances@.len() ==> #[trigger] distances@[i] > MAX_DISTANCE,
        },
{
    let mut places: Vec<usize> = Vec::new();
    let mut at: usize = 0;
    while at < distances.len()
        invariant
            at <= distances.len(),
            forall|i: int| 0 <= i < at ==> #[trigger] distances@[i] != 0,
            forall|i: int| 0 <= i < places@.len() ==> #[trigger] places@[i] < at,
            forall|i: int, j: int| 0 <= i < j < places@.len() ==> places@[i] < places@[j],
            forall|place: usize|
                places@.contains(place) <==> (place < at && distances@[place as int]
                    <= MAX_DISTANCE),
            places@.len() == 0 ==> forall|i: int|
                0 <= i < at ==> #[trigger] distances@[i] > MAX_DISTANCE,
        decreases distances.len() - at,
    {
        let distance: u64 = distances[at];
        if distance == 0 {
            return Influence::Exact(at);
        }
        if distance <= MAX_DISTANCE {
            let ghost before = places@;
            places.push(at);
            proof {
                assert forall|place: usize|
                    places@.contains(place) <==> (place < at + 1 && distances@[place as int]
                        <= MAX_DISTANCE) by {
                    if before.contains(place) {
                        let j = before.index_of(place);
                        assert(places@[j] == place);
                    }
                    if place == at {
                        assert(places@[before.len() as int] == place);
                    }
                    if places@.contains(place) && place != at {
                        let j = places@.index_of(place);
                        assert(before[j] == place);
                    }
                }
            }
        }
        at += 1;
    }
    if places.len() == 0 {
        Influence::Nothing
    } else {
        Influence::Weighted(places)
    }
}

} // verus!
