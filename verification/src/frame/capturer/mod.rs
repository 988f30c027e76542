//! Capturing the screen: which protocol is tried when, and what follows a failure.
//!
//! Points in time are nanoseconds since an arbitrary origin; durations are nanoseconds.

pub mod laws;
pub mod none;
pub mod pipewire;
pub mod wayland;
pub mod wayland_laws;

use vstd::prelude::*;

use crate::config::{PipewireProtocol, WaylandProtocol};

verus! {

/// How long a candidate may take to deliver its first frames.
pub const STARTUP_TIMEOUT: u64 = 5_000_000_000;

/// How long the portal may take, which asks the user.
pub const PORTAL_STARTUP_TIMEOUT: u64 = 60_000_000_000;

/// The frames that a candidate delivers before it counts as established.
pub const PROBATION_FRAMES: usize = 3;

/// The time between two attempts to reconnect.
pub const RECONNECT_INTERVAL: u64 = 5_000_000_000;

/// The time between two predictions.
pub const PREDICTION_INTERVAL: u64 = 200_000_000;

/// The time between two adjustments where no candidate works.
pub const DEGRADED_INTERVAL: u64 = 200_000_000;

/// The time between two frames.
pub const CAPTURE_INTERVAL: u64 = 100_000_000;

/// The longest sleep between two looks at whether to go on.
pub const WAIT_SLICE: u64 = 100_000_000;

/// What captures the screen.
#[derive(Debug)]
pub enum Capturer {
    Auto,
    Disabled(none::Capturer),
    Pipewire(PipewireProtocol),
    Wayland(wayland::Capturer),
}

/// One protocol to capture with.
#[derive(Clone, Copy, Debug, PartialEq, Eq, Structural)]
pub enum Candidate {
    Wayland(WaylandProtocol),
    Pipewire(PipewireProtocol),
}

/// The protocols that are tried in turn.
#[derive(Clone, Copy, Debug, PartialEq, Eq, Structural)]
pub enum CandidateFamily {
    Any,
    Wayland,
    Pipewire,
}

/// What an attempt has to deliver, and until when.
#[derive(Clone, Copy, Debug, PartialEq, Eq, Structural)]
pub struct Startup {
    pub deadline: u64,
    pub required_frames: usize,
    pub discard_stale_inputs_before_first_frame: bool,
}

/// What an attempt has to deliver.
#[derive(Clone, Copy, Debug, PartialEq, Eq, Structural)]
pub struct RunPolicy {
    pub required_frames: usize,
    pub discard_stale_inputs_before_first_frame: bool,
}

/// How a candidate came to be the only one.
#[derive(Clone, Copy, Debug, PartialEq, Eq, Structural)]
pub enum SelectedMode {
    Explicit,
    Reconnecting,
}

/// How a capturer is run.
#[derive(Clone, Copy, Debug, PartialEq, Eq, Structural)]
pub enum Plan {
    /// Without looking at the screen.
    Disabled,
    /// With the first candidate of the family that works.
    Selecting(CandidateFamily),
    /// With this candidate alone.
    Explicit(Candidate),
}

impl Candidate {
    pub open spec fn spec_startup_timeout(self) -> u64 {
        if self == Candidate::Pipewire(PipewireProtocol::Portal) {
            PORTAL_STARTUP_TIMEOUT
        } else {
            STARTUP_TIMEOUT
        }
    }

    pub fn startup_timeout(&self) -> (timeout: u64)
        ensures
            timeout == self.spec_startup_timeout(),
    {
        match self {
            Candidate::Pipewire(PipewireProtocol::Portal) => PORTAL_STARTUP_TIMEOUT,
            _ => STARTUP_TIMEOUT,
        }
    }

    /// What an attempt that begins now has to deliver, and until when.
    pub fn startup(&self, now: u64, policy: RunPolicy) -> (startup: Startup)
        requires
            now + self.spec_startup_timeout() <= u64::MAX,
        ensures
            startup.deadline == now + self.spec_startup_timeout(),
            startup.required_frames == policy.required_frames,
            startup.discard_stale_inputs_before_first_frame
                == policy.discard_stale_inputs_before_first_frame,
    {
        Startup {
            deadline: now + self.startup_timeout(),
            required_frames: policy.required_frames,
            discard_stale_inputs_before_first_frame: policy.discard_stale_inputs_before_first_frame,
        }
    }
}

impl Capturer {
    pub open spec fn plan(self) -> Plan {
        match self {
            Capturer::Auto => Plan::Selecting(CandidateFamily::Any),
            Capturer::Disabled(_) => Plan::Disabled,
            Capturer::Pipewire(PipewireProtocol::Any) => Plan::Selecting(CandidateFamily::Pipewire),
            Capturer::Pipewire(protocol) => Plan::Explicit(Candidate::Pipewire(protocol)),
            Capturer::Wayland(capturer) => if capturer.protocol == WaylandProtocol::Any {
                Plan::Selecting(CandidateFamily::Wayland)
            } else {
                Plan::Explicit(Candidate::Wayland(capturer.protocol))
            },
        }
    }

    /// How the capturer is run.
    pub fn run(&self) -> (plan: Plan)
        ensures
            plan == self.plan(),
    {
        match self {
            Capturer::Auto => Plan::Selecting(CandidateFamily::Any),
            Capturer::Disabled(_) => Plan::Disabled,
            Capturer::Pipewire(PipewireProtocol::Any) => Plan::Selecting(CandidateFamily::Pipewire),
            Capturer::Pipewire(protocol) => Plan::Explicit(Candidate::Pipewire(*protocol)),
            Capturer::Wayland(capturer) => {
                let protocol = *capturer.protocol();
                if protocol == WaylandProtocol::Any {
                    Plan::Selecting(CandidateFamily::Wayland)
                } else {
                    Plan::Explicit(Candidate::Wayland(protocol))
                }
            },
        }
    }
}

/// The candidates of the PipeWire family: the portal asks the user and comes last.
pub open spec fn spec_pipewire_candidates() -> Seq<Candidate> {
    seq![
        Candidate::Pipewire(PipewireProtocol::Kwin),
        Candidate::Pipewire(PipewireProtocol::Mutter),
        Candidate::Pipewire(PipewireProtocol::Portal),
    ]
}

pub fn pipewire_candidates() -> (candidates: Vec<Candidate>)
    ensures
        candidates@ == spec_pipewire_candidates(),
{
    let candidates = vec![
        Candidate::Pipewire(PipewireProtocol::Kwin),
        Candidate::Pipewire(PipewireProtocol::Mutter),
        Candidate::Pipewire(PipewireProtocol::Portal),
    ];
    assert(candidates@ =~= spec_pipewire_candidates());
    candidates
}

/// The candidates of a family, where the compositor offers the given Wayland protocols.
pub open spec fn spec_candidates(family: CandidateFamily, protocols: Seq<WaylandProtocol>) -> Seq<Candidate> {
    let wayland = protocols.map_values(|protocol: WaylandProtocol| Candidate::Wayland(protocol));
    match family {
        CandidateFamily::Any => wayland + spec_pipewire_candidates(),
        CandidateFamily::Wayland => wayland,
        CandidateFamily::Pipewire => spec_pipewire_candidates(),
    }
}

/// The candidates of a family in the order in which they are tried. The Wayland protocols are those
/// that the compositor offers, none where it could not be asked.
pub fn candidates(family: CandidateFamily, protocols: &Vec<WaylandProtocol>) -> (candidates: Vec<Candidate>)
    ensures
        candidates@ == spec_candidates(family, protocols@),
{
    let mut candidates: Vec<Candidate> = Vec::new();
    if matches!(family, CandidateFamily::Any | CandidateFamily::Wayland) {
        for i in 0..protocols.len()
            invariant
                candidates@ == protocols@.take(i as int).map_values(
                    |protocol: WaylandProtocol| Candidate::Wayland(protocol),
                ),
        {
            candidates.push(Candidate::Wayland(protocols[i]));
            assert(candidates@ =~= protocols@.take(i + 1).map_values(
                |protocol: WaylandProtocol| Candidate::Wayland(protocol),
            ));
        }
        assert(protocols@.take(protocols.len() as int) =~= protocols@);
    }
    if matches!(family, CandidateFamily::Any | CandidateFamily::Pipewire) {
        let mut others = pipewire_candidates();
        candidates.append(&mut others);
    }
    assert(candidates@ =~= spec_candidates(family, protocols@));
    candidates
}

/// Whether a candidate that failed after so many frames had worked before.
pub fn probe_is_established(frames: usize) -> (established: bool)
    ensures
        established == (frames >= PROBATION_FRAMES),
{
    frames >= PROBATION_FRAMES
}

/// Whether adjusting goes on without the screen where no candidate works.
pub fn allows_degraded_mode(family: CandidateFamily) -> (allowed: bool)
    ensures
        allowed == (family == CandidateFamily::Any),
{
    matches!(family, CandidateFamily::Any)
}

/// How an attempt ended.
#[derive(Clone, Copy, Debug, PartialEq, Eq, Structural)]
pub enum Outcome {
    /// It was stopped.
    Finished,
    /// It failed after so many frames.
    Failed { frames: usize },
}

/// The search for a candidate that works.
#[derive(Debug)]
pub struct Selection {
    pub family: CandidateFamily,
    pub candidates: Vec<Candidate>,
    /// How many candidates were tried.
    pub tried: usize,
}

/// What the search does next.
#[derive(Clone, Copy, Debug, PartialEq, Eq, Structural)]
pub enum SelectionStep {
    /// The capturer is no longer wanted.
    Stop,
    /// Try this candidate.
    Attempt(Candidate, RunPolicy),
    /// No protocol of the family that the user asked for is available.
    Fail(CandidateFamily),
    /// Adjust without the screen at this interval until the capturer is no longer wanted.
    Degrade(u64),
}

/// What follows an attempt of the search.
#[derive(Clone, Copy, Debug, PartialEq, Eq, Structural)]
pub enum SelectionVerdict {
    /// The capturer is no longer wanted.
    Stop,
    /// Discard stale inputs and keep to this candidate.
    Reconnect(Candidate),
    /// Discard stale inputs, forget the luma, and go on with the search.
    Continue,
}

impl Selection {
    pub open spec fn well_formed(&self) -> bool {
        self.tried <= self.candidates.len()
    }

    pub fn new(family: CandidateFamily, candidates: Vec<Candidate>) -> (selection: Self)
        ensures
            selection.well_formed(),
            selection.family == family,
            selection.candidates@ == candidates@,
            selection.tried == 0,
    {
        Selection { family, candidates, tried: 0 }
    }

    pub open spec fn spec_next(&self, active: bool) -> SelectionStep {
        if !active {
            SelectionStep::Stop
        } else if self.tried < self.candidates.len() {
            SelectionStep::Attempt(
                self.candidates[self.tried as int],
                RunPolicy {
                    required_frames: PROBATION_FRAMES,
                    discard_stale_inputs_before_first_frame: false,
                },
            )
        } else if self.family == CandidateFamily::Any {
            SelectionStep::Degrade(DEGRADED_INTERVAL)
        } else {
            SelectionStep::Fail(self.family)
        }
    }

    /// Decides on the next step: each candidate in turn, then what no candidate leaves.
    pub fn next(&self, active: bool) -> (step: SelectionStep)
        requires
            self.well_formed(),
        ensures
            step == self.spec_next(active),
    {
        if !active {
            SelectionStep::Stop
        } else if self.tried < self.candidates.len() {
            SelectionStep::Attempt(
                self.candidates[self.tried],
                RunPolicy {
                    required_frames: PROBATION_FRAMES,
                    discard_stale_inputs_before_first_frame: false,
                },
            )
        } else if allows_degraded_mode(self.family) {
            SelectionStep::Degrade(DEGRADED_INTERVAL)
        } else {
            SelectionStep::Fail(self.family)
        }
    }

    pub open spec fn verdict(&self, outcome: Outcome) -> SelectionVerdict {
        match outcome {
            Outcome::Finished => SelectionVerdict::Stop,
            Outcome::Failed { frames } => if frames >= PROBATION_FRAMES {
                SelectionVerdict::Reconnect(self.candidates[self.tried as int])
            } else {
                SelectionVerdict::Continue
            },
        }
    }

    pub open spec fn spec_attempted(&self, outcome: Outcome) -> Selection {
        if self.verdict(outcome) == SelectionVerdict::Continue {
            Selection { tried: (self.tried + 1) as usize, ..*self }
        } else {
            *self
        }
    }

    /// Decides on the attempt that just ended.
    pub fn attempted(&mut self, outcome: Outcome) -> (verdict: SelectionVerdict)
        requires
            old(self).tried < old(self).candidates.len(),
        ensures
            final(self).well_formed(),
            *final(self) == old(self).spec_attempted(outcome),
            verdict == old(self).verdict(outcome),
            outcome matches Outcome::Failed { frames } && frames >= PROBATION_FRAMES ==> verdict
                == SelectionVerdict::Reconnect(old(self).candidates@[old(self).tried as int])
                && final(self).tried == old(self).tried,
    {
        match outcome {
            Outcome::Finished => SelectionVerdict::Stop,
            Outcome::Failed { frames } => if probe_is_established(frames) {
                SelectionVerdict::Reconnect(self.candidates[self.tried])
            } else {
                self.tried = self.tried + 1;
                SelectionVerdict::Continue
            },
        }
    }
}

/// The capture with one candidate until it is no longer wanted, reconnecting only to that one.
#[derive(Clone, Copy, Debug, PartialEq, Eq, Structural)]
pub struct Selected {
    pub candidate: Candidate,
    pub mode: SelectedMode,
    pub reconnecting: bool,
}

/// What the capture with one candidate does next.
#[derive(Clone, Copy, Debug, PartialEq, Eq, Structural)]
pub enum SelectedStep {
    /// The capturer is no longer wanted.
    Stop,
    /// Connect to the candidate.
    Attempt(RunPolicy),
}

/// What follows an attempt with the one candidate.
#[derive(Clone, Copy, Debug, PartialEq, Eq, Structural)]
pub enum SelectedVerdict {
    /// The capturer is no longer wanted.
    Stop,
    /// The candidate that the user asked for does not work.
    Fail,
    /// Discard stale inputs, forget the luma, and wait so long before the next attempt.
    Wait(u64),
}

impl Selected {
    pub open spec fn well_formed(&self) -> bool {
        self.mode == SelectedMode::Reconnecting ==> self.reconnecting
    }

    pub fn new(candidate: Candidate, mode: SelectedMode) -> (selected: Self)
        ensures
            selected.well_formed(),
            selected.candidate == candidate,
            selected.mode == mode,
            selected.reconnecting == (mode == SelectedMode::Reconnecting),
    {
        Selected { candidate, mode, reconnecting: matches!(mode, SelectedMode::Reconnecting) }
    }

    pub fn next(&self, active: bool) -> (step: SelectedStep)
        ensures
            step == (if active {
                SelectedStep::Attempt(
                    RunPolicy {
                        required_frames: 1,
                        discard_stale_inputs_before_first_frame: self.reconnecting,
                    },
                )
            } else {
                SelectedStep::Stop
            }),
    {
        if active {
            SelectedStep::Attempt(
                RunPolicy {
                    required_frames: 1,
                    discard_stale_inputs_before_first_frame: self.reconnecting,
                },
            )
        } else {
            SelectedStep::Stop
        }
    }

    pub open spec fn verdict(&self, outcome: Outcome, active: bool) -> SelectedVerdict {
        match outcome {
            Outcome::Finished => SelectedVerdict::Stop,
            Outcome::Failed { frames } => if self.mode == SelectedMode::Explicit
                && !self.reconnecting && frames == 0 && active {
                SelectedVerdict::Fail
            } else {
                SelectedVerdict::Wait(RECONNECT_INTERVAL)
            },
        }
    }

    pub open spec fn spec_attempted(&self, outcome: Outcome, active: bool) -> Selected {
        if self.verdict(outcome, active) is Wait {
            Selected { reconnecting: true, ..*self }
        } else {
            *self
        }
    }

    /// Decides on the attempt that just ended.
    pub fn attempted(&mut self, outcome: Outcome, active: bool) -> (verdict: SelectedVerdict)
        ensures
            old(self).well_formed() ==> final(self).well_formed(),
            *final(self) == old(self).spec_attempted(outcome, active),
            verdict == old(self).verdict(outcome, active),
    {
        match outcome {
            Outcome::Finished => SelectedVerdict::Stop,
            Outcome::Failed { frames } => {
                if matches!(self.mode, SelectedMode::Explicit) && !self.reconnecting && frames == 0
                    && active {
                    return SelectedVerdict::Fail;
                }
                self.reconnecting = true;
                SelectedVerdict::Wait(RECONNECT_INTERVAL)
            },
        }
    }
}

/// Whether a wait goes on.
pub fn waits(active: bool, now: u64, deadline: u64) -> (goes_on: bool)
    ensures
        goes_on == (active && now < deadline),
{
    active && now < deadline
}

pub open spec fn remaining(now: u64, deadline: u64) -> int {
    if now < deadline {
        deadline - now
    } else {
        0
    }
}

/// The next sleep of a wait.
pub open spec fn slice(now: u64, deadline: u64) -> u64 {
    if remaining(now, deadline) < WAIT_SLICE {
        remaining(now, deadline) as u64
    } else {
        WAIT_SLICE
    }
}

/// How long to sleep before looking again whether a wait goes on.
pub fn wait_slice(now: u64, deadline: u64) -> (duration: u64)
    ensures
        duration == slice(now, deadline),
        now < deadline ==> 0 < duration && now + duration <= deadline,
{
    let remaining: u64 = if now < deadline {
        deadline - now
    } else {
        0
    };
    if remaining < WAIT_SLICE {
        remaining
    } else {
        WAIT_SLICE
    }
}

/// Whether it is time for another prediction.
pub fn prediction_due(last: Option<u64>, now: u64) -> (due: bool)
    ensures
        due == (match last {
            None => true,
            Some(last) => now >= last + PREDICTION_INTERVAL,
        }),
{
    match last {
        None => true,
        Some(last) => now >= last && now - last >= PREDICTION_INTERVAL,
    }
}

/// The search after a row of attempts of which none was established.
pub open spec fn after_failures(selection: Selection, failures: Seq<usize>) -> Selection
    decreases failures.len(),
{
    if failures.len() == 0 {
        selection
    } else {
        after_failures(selection, failures.drop_last()).spec_attempted(
            Outcome::Failed { frames: failures.last() },
        )
    }
}

/// The search tries every candidate once, in order: after so many that were not established comes
/// the next one, and after all of them automatic capture goes on without the screen while a family
/// that the user asked for fails.
pub proof fn law_candidates_are_tried_once_in_order(selection: Selection, failures: Seq<usize>)
    requires
        selection.tried == 0,
        failures.len() <= selection.candidates.len(),
        forall|i: int| 0 <= i < failures.len() ==> #[trigger] failures[i] < PROBATION_FRAMES,
    ensures
        after_failures(selection, failures).tried == failures.len(),
        after_failures(selection, failures).candidates == selection.candidates,
        after_failures(selection, failures).family == selection.family,
        failures.len() < selection.candidates.len() ==> (after_failures(selection, failures).spec_next(
            true,
        ) matches SelectionStep::Attempt(candidate, _) && candidate
            == selection.candidates[failures.len() as int]),
        failures.len() == selection.candidates.len() ==> after_failures(selection, failures).spec_next(
            true,
        ) == (if selection.family == CandidateFamily::Any {
            SelectionStep::Degrade(DEGRADED_INTERVAL)
        } else {
            SelectionStep::Fail(selection.family)
        }),
    decreases failures.len(),
{
    if failures.len() > 0 {
        let front = failures.drop_last();
        assert forall|i: int| 0 <= i < front.len() implies #[trigger] front[i] < PROBATION_FRAMES by {
            assert(failures[i] < PROBATION_FRAMES);
        }
        law_candidates_are_tried_once_in_order(selection, front);
        assert(failures[failures.len() - 1] < PROBATION_FRAMES);
    }
}

/// The capture with one candidate after a row of attempts, each with whether it was still wanted.
pub open spec fn after_attempts(selected: Selected, attempts: Seq<(Outcome, bool)>) -> Selected
    decreases attempts.len(),
{
    if attempts.len() == 0 {
        selected
    } else {
        after_attempts(selected, attempts.drop_last()).spec_attempted(
            attempts.last().0,
            attempts.last().1,
        )
    }
}

/// Once an attempt was waited out, no later failure is fatal: the capture reconnects for as long as
/// it is wanted, and always to the same candidate.
pub proof fn law_reconnecting_never_fails(
    selected: Selected,
    attempts: Seq<(Outcome, bool)>,
    outcome: Outcome,
    active: bool,
)
    requires
        selected.reconnecting,
    ensures
        after_attempts(selected, attempts).reconnecting,
        after_attempts(selected, attempts).candidate == selected.candidate,
        after_attempts(selected, attempts).verdict(outcome, active) != SelectedVerdict::Fail,
    decreases attempts.len(),
{
    if attempts.len() > 0 {
        law_reconnecting_never_fails(
            selected,
            attempts.drop_last(),
            attempts.last().0,
            attempts.last().1,
        );
    }
}

/// The portal is tried after every other candidate.
pub proof fn law_portal_comes_last(family: CandidateFamily, protocols: Seq<WaylandProtocol>, at: int)
    requires
        0 <= at < spec_candidates(family, protocols).len(),
        spec_candidates(family, protocols)[at] == Candidate::Pipewire(PipewireProtocol::Portal),
    ensures
        at == spec_candidates(family, protocols).len() - 1,
{
}

} // verus!
