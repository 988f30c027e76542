//! Gamma control over Wayland.

use vstd::prelude::*;

use crate::text;

use super::ramp;
use super::ramp::WhitePoints;

verus! {

/// The newest version of gamma control that is understood.
pub const MANAGER_VERSION: u32 = 1;

/// Why Wayland cannot control the gamma: it has no way to, or it refused.
#[derive(Debug)]
pub enum Failure {
    Unavailable(String),
    Rejected(String),
}

/// What went wrong while connecting.
#[derive(Clone, Copy, Debug, PartialEq, Eq, Structural)]
pub enum ConnectError {
    AmbiguousOutput,
    NoManager,
    NoOutput,
    Rejected,
    NoLut,
}

/// What is known of the compositor.
#[derive(Clone, Copy, Debug, PartialEq, Eq, Structural)]
pub struct State {
    pub manager: bool,
    pub output: Option<u32>,
    pub output_exact: bool,
    pub output_ambiguous: bool,
    pub control: bool,
    pub size: Option<u32>,
    pub failed: bool,
}

/// Whether a name or a description fits the configured name, and whether it does so exactly.
pub open spec fn fits(value: Seq<char>, desired_output: Seq<char>, is_name: bool) -> Option<bool> {
    if is_name && value == desired_output {
        Some(true)
    } else if text::contained(value, desired_output) {
        Some(false)
    } else {
        None
    }
}

impl ConnectError {
    /// What the error says, as a message before and after the name of the output.
    pub open spec fn message(self) -> (Seq<char>, Option<Seq<char>>) {
        match self {
            ConnectError::AmbiguousOutput => ("Multiple Wayland outputs match '"@, Some("'"@)),
            ConnectError::NoManager => ("wlr-gamma-control-unstable-v1 is unavailable"@, None),
            ConnectError::NoOutput => ("Unable to match '"@, Some("' to a Wayland output"@)),
            ConnectError::Rejected => ("Gamma control was rejected for '"@, Some("'"@)),
            ConnectError::NoLut => ("Gamma control reported no LUT for '"@, Some("'"@)),
        }
    }

    pub open spec fn text(self, output_name: Seq<char>) -> Seq<char> {
        match self.message() {
            (before, Some(after)) => before + output_name + after,
            (before, None) => before,
        }
    }

    /// What the error means for the choice of a backend: only a refusal is a rejection.
    pub fn failure(self, output_name: &str) -> (failure: Failure)
        ensures
            match self {
                ConnectError::Rejected => failure matches Failure::Rejected(message) && message@
                    == self.text(output_name@),
                _ => failure matches Failure::Unavailable(message) && message@ == self.text(
                    output_name@,
                ),
            },
    {
        let (before, after): (&str, Option<&str>) = match self {
            ConnectError::AmbiguousOutput => ("Multiple Wayland outputs match '", Some("'")),
            ConnectError::NoManager => ("wlr-gamma-control-unstable-v1 is unavailable", None),
            ConnectError::NoOutput => ("Unable to match '", Some("' to a Wayland output")),
            ConnectError::Rejected => ("Gamma control was rejected for '", Some("'")),
            ConnectError::NoLut => ("Gamma control reported no LUT for '", Some("'")),
        };
        let mut message = before.to_owned();
        if let Some(after) = after {
            message.append(output_name);
            message.append(after);
        }
        match self {
            ConnectError::Rejected => Failure::Rejected(message),
            _ => Failure::Unavailable(message),
        }
    }
}

impl State {
    pub open spec fn well_formed(&self) -> bool {
        self.output is None ==> !self.output_exact && !self.output_ambiguous
    }

    pub fn new() -> (state: Self)
        ensures
            state.well_formed(),
            !state.manager,
            state.output is None,
            !state.output_exact,
            !state.output_ambiguous,
            !state.control,
            state.size is None,
            !state.failed,
    {
        State {
            manager: false,
            output: None,
            output_exact: false,
            output_ambiguous: false,
            control: false,
            size: None,
            failed: false,
        }
    }

    /// The gamma control manager appeared. Returns the version to bind it with.
    pub fn manager_appeared(&mut self, version: u32) -> (bound: u32)
        ensures
            bound == (if version < MANAGER_VERSION {
                version
            } else {
                MANAGER_VERSION
            }),
            *final(self) == (State { manager: true, ..*old(self) }),
    {
        self.manager = true;
        if version < MANAGER_VERSION {
            version
        } else {
            MANAGER_VERSION
        }
    }

    /// The state after an output showed a fitting name.
    pub open spec fn matched(self, output: u32, exact: bool) -> State {
        if self.output is None || exact && !self.output_exact {
            State {
                output: Some(output),
                output_exact: exact,
                output_ambiguous: false,
                ..self
            }
        } else if self.output != Some(output) && exact == self.output_exact {
            State { output_ambiguous: true, ..self }
        } else {
            self
        }
    }

    /// An output told its name, which may fit exactly, or its description.
    pub fn output_named(&mut self, output: u32, value: &str, desired_output: &str, is_name: bool)
        requires
            old(self).well_formed(),
        ensures
            final(self).well_formed(),
            *final(self) == (match fits(value@, desired_output@, is_name) {
                Some(exact) => old(self).matched(output, exact),
                None => *old(self),
            }),
    {
        let exact = is_name && text::equal(value, desired_output);
        if exact || text::contains(value, desired_output) {
            let same_output = match self.output {
                Some(current) => current == output,
                None => false,
            };
            if self.output.is_none() || exact && !self.output_exact {
                self.output = Some(output);
                self.output_exact = exact;
                self.output_ambiguous = false;
            } else if !same_output && exact == self.output_exact {
                self.output_ambiguous = true;
            }
        }
    }

    /// Decides, once the outputs are known, which one to ask control of.
    pub fn request_control(&mut self) -> (output: Result<u32, ConnectError>)
        requires
            old(self).well_formed(),
        ensures
            final(self).well_formed(),
            output == (if old(self).output_ambiguous {
                Err::<u32, ConnectError>(ConnectError::AmbiguousOutput)
            } else if !old(self).manager {
                Err(ConnectError::NoManager)
            } else {
                match old(self).output {
                    Some(output) => Ok(output),
                    None => Err(ConnectError::NoOutput),
                }
            }),
            *final(self) == (State { control: old(self).control || output is Ok, ..*old(self) }),
    {
        if self.output_ambiguous {
            return Err(ConnectError::AmbiguousOutput);
        }
        if !self.manager {
            return Err(ConnectError::NoManager);
        }
        match self.output {
            Some(output) => {
                self.control = true;
                Ok(output)
            },
            None => Err(ConnectError::NoOutput),
        }
    }

    /// The compositor told the length of the lookup table.
    pub fn gamma_size(&mut self, size: u32)
        ensures
            *final(self) == (State { size: Some(size), ..*old(self) }),
    {
        self.size = Some(size);
    }

    /// The compositor refused or withdrew control.
    pub fn control_failed(&mut self)
        ensures
            *final(self) == (State { failed: true, ..*old(self) }),
    {
        self.failed = true;
    }

    /// Decides, once the compositor answered, whether there is control. Returns the length of the
    /// lookup table.
    pub fn confirm(&self) -> (size: Result<u32, ConnectError>)
        ensures
            size == (if self.failed {
                Err::<u32, ConnectError>(ConnectError::Rejected)
            } else {
                match self.size {
                    Some(size) if size > 0 => Ok(size),
                    _ => Err(ConnectError::NoLut),
                }
            }),
    {
        if self.failed {
            return Err(ConnectError::Rejected);
        }
        match self.size {
            Some(size) => if size > 0 {
                Ok(size)
            } else {
                Err(ConnectError::NoLut)
            },
            None => Err(ConnectError::NoLut),
        }
    }
}

impl Default for State {
    fn default() -> (state: Self)
        ensures
            state.well_formed(),
            !state.manager,
            state.output is None,
            !state.output_exact,
            !state.output_ambiguous,
            !state.control,
            state.size is None,
            !state.failed,
    {
        State::new()
    }
}

/// The lookup table to hand to the compositor: red, green and blue one after the other.
pub fn gamma_table(points: &WhitePoints, size: usize, dim: u64, temperature: u64) -> (table: Vec<u16>)
    requires
        points.valid(),
    ensures
        table@ == ramp::linear_curve(size as int, points.gain(dim, temperature, 0))
            + ramp::linear_curve(size as int, points.gain(dim, temperature, 1))
            + ramp::linear_curve(size as int, points.gain(dim, temperature, 2)),
{
    let lut = ramp::linear(points, size, dim, temperature);
    let mut table: Vec<u16> = Vec::new();
    let mut channel: usize = 0;
    while channel < 3
        invariant
            channel <= 3,
            table@ == (if channel == 0 {
                Seq::empty()
            } else if channel == 1 {
                lut@[0]@
            } else if channel == 2 {
                lut@[0]@ + lut@[1]@
            } else {
                lut@[0]@ + lut@[1]@ + lut@[2]@
            }),
        decreases 3 - channel,
    {
        let ghost before = table@;
        let mut i: usize = 0;
        while i < lut[channel].len()
            invariant
                channel < 3,
                i <= lut@[channel as int].len(),
                table@ == before + lut@[channel as int]@.take(i as int),
            decreases lut@[channel as int].len() - i,
        {
            table.push(lut[channel][i]);
            i += 1;
            assert(table@ =~= before + lut@[channel as int]@.take(i as int));
        }
        assert(lut@[channel as int]@.take(i as int) =~= lut@[channel as int]@);
        channel += 1;
        assert(channel == 1 ==> table@ =~= lut@[0]@);
    }
    table
}

/// An output of this number that fits exactly or not.
pub struct Sighting {
    pub output: u32,
    pub exact: bool,
}

/// The state after a row of fitting names.
pub open spec fn after_sightings(state: State, sightings: Seq<Sighting>) -> State
    decreases sightings.len(),
{
    if sightings.len() == 0 {
        state
    } else {
        after_sightings(state, sightings.drop_last()).matched(
            sightings.last().output,
            sightings.last().exact,
        )
    }
}

/// Whether the sighting at a place is the first exact one, or the first of all if none is exact.
pub open spec fn leads(sightings: Seq<Sighting>, at: int) -> bool {
    &&& 0 <= at < sightings.len()
    &&& at > 0 ==> sightings[at].exact
    &&& forall|i: int| 0 <= i < at ==> !(#[trigger] sightings[i]).exact
    &&& forall|i: int|
        0 <= i < sightings.len() && (#[trigger] sightings[i]).exact ==> sightings[at].exact
}

/// Whether another output than the one at a place fits equally well.
pub open spec fn contested(sightings: Seq<Sighting>, at: int) -> bool {
    exists|i: int|
        0 <= i < sightings.len() && (#[trigger] sightings[i]).exact == sightings[at].exact
            && sightings[i].output != sightings[at].output
}

/// The first output that fits exactly is chosen, or the first one that fits at all, and the choice
/// is ambiguous exactly if another output fits as well.
pub proof fn law_best_match_is_chosen(state: State, sightings: Seq<Sighting>) -> (at: int)
    requires
        state.well_formed(),
        state.output is None,
        sightings.len() > 0,
    ensures
        leads(sightings, at),
        ({
            let after = after_sightings(state, sightings);
            &&& after.output == Some(sightings[at].output)
            &&& after.output_exact == sightings[at].exact
            &&& after.output_ambiguous <==> contested(sightings, at)
        }),
    decreases sightings.len(),
{
    let front = sightings.drop_last();
    let last = sightings.last();
    let end = sightings.len() - 1;
    assert(sightings[end] == last);
    assert(after_sightings(state, Seq::<Sighting>::empty()) == state);
    if front.len() == 0 {
        assert(front =~= Seq::<Sighting>::empty());
        0
    } else {
        let before = law_best_match_is_chosen(state, front);
        assert forall|i: int| 0 <= i < end implies front[i] == #[trigger] sightings[i] by {}
        if last.exact && !front[before].exact {
            assert forall|i: int| 0 <= i < end implies !(#[trigger] sightings[i]).exact by {
                assert(!front[i].exact);
            }
            end
        } else {
            assert(leads(sightings, before));
            if contested(front, before) {
                let i = choose|i: int|
                    0 <= i < front.len() && (#[trigger] front[i]).exact == front[before].exact
                        && front[i].output != front[before].output;
                assert(sightings[i].exact == sightings[before].exact);
                assert(contested(sightings, before));
            } else if last.exact == front[before].exact && last.output != front[before].output {
                assert(contested(sightings, before));
            } else if contested(sightings, before) {
                let i = choose|i: int|
                    0 <= i < sightings.len() && (#[trigger] sightings[i]).exact
                        == sightings[before].exact && sightings[i].output
                        != sightings[before].output;
                if i < end {
                    assert(front[i].exact == front[before].exact);
                }
            }
            before
        }
    }
}

} // verus!
