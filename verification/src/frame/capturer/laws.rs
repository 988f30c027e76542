//! What the choice of a protocol promises.

use vstd::prelude::*;

use crate::config::{PipewireProtocol, WaylandProtocol};

use super::{
    Candidate, CandidateFamily, Capturer, Outcome, Plan, Selected, SelectedMode, SelectedVerdict,
    Selection, SelectionStep, SelectionVerdict,
};

verus! {

/// A candidate that delivered three frames or more before it failed is kept to: the capture
/// reconnects to it, and the search does not move on.
pub proof fn law_established_candidates_are_kept(selection: Selection, frames: usize)
    requires
        selection.tried < selection.candidates.len(),
        frames >= 3,
    ensures
        selection.verdict(Outcome::Failed { frames }) == SelectionVerdict::Reconnect(
            selection.candidates@[selection.tried as int],
        ),
        selection.spec_attempted(Outcome::Failed { frames }) == selection,
        selection.spec_attempted(Outcome::Failed { frames }).tried == selection.tried,
{
}

/// What is reconnected to is what the search tried, and every later attempt is made with it.
pub proof fn law_reconnecting_is_to_the_candidate_that_was_tried(
    selection: Selection,
    outcome: Outcome,
    selected: Selected,
    later: Outcome,
    active: bool,
)
    requires
        selection.tried < selection.candidates.len(),
        selection.verdict(outcome) == SelectionVerdict::Reconnect(selected.candidate),
        selected.mode == SelectedMode::Reconnecting,
        selected.reconnecting,
    ensures
        selection.spec_next(true) matches SelectionStep::Attempt(candidate, _) && candidate
            == selected.candidate,
        outcome matches Outcome::Failed { frames } && frames >= 3,
        selected.spec_attempted(later, active).candidate == selected.candidate,
        later is Failed ==> selected.verdict(later, active) == SelectedVerdict::Wait(
            5_000_000_000,
        ),
{
}

/// A candidate that failed before it delivered three frames is given up for the next one, and one
/// that was stopped ends the search.
pub proof fn law_candidates_on_probation_are_given_up(selection: Selection, frames: usize)
    requires
        selection.tried < selection.candidates.len(),
        frames < 3,
    ensures
        selection.verdict(Outcome::Failed { frames }) == SelectionVerdict::Continue,
        selection.spec_attempted(Outcome::Failed { frames }).tried == selection.tried + 1,
        selection.spec_attempted(Outcome::Failed { frames }).candidates == selection.candidates,
        selection.spec_attempted(Outcome::Failed { frames }).family == selection.family,
        selection.verdict(Outcome::Finished) == SelectionVerdict::Stop,
        selection.spec_attempted(Outcome::Finished) == selection,
{
}

/// The search tries the candidate whose turn it is, for as long as it is wanted. Only automatic
/// capture goes on without one.
pub proof fn law_the_search_follows_the_list(selection: Selection)
    requires
        selection.tried <= selection.candidates.len(),
    ensures
        selection.spec_next(false) == SelectionStep::Stop,
        selection.tried < selection.candidates.len() ==> (selection.spec_next(
            true,
        ) matches SelectionStep::Attempt(candidate, policy) && candidate
            == selection.candidates@[selection.tried as int] && policy.required_frames
            == 3 && !policy.discard_stale_inputs_before_first_frame),
        selection.tried == selection.candidates.len() && selection.family == CandidateFamily::Any
            ==> selection.spec_next(true) == SelectionStep::Degrade(200_000_000),
        selection.tried == selection.candidates.len() && selection.family != CandidateFamily::Any
            ==> selection.spec_next(true) == SelectionStep::Fail(selection.family),
{
}

/// With one candidate only its very first attempt can be fatal: when the user asked for the candidate,
/// it never delivered a frame and it is still wanted. Every other failure is waited out, and from
/// then on the capture is reconnecting.
pub proof fn law_only_a_first_failure_is_fatal(selected: Selected, outcome: Outcome, active: bool)
    ensures
        selected.verdict(outcome, active) == SelectedVerdict::Stop <==> outcome == Outcome::Finished,
        selected.verdict(outcome, active) == SelectedVerdict::Fail <==> outcome == (Outcome::Failed {
            frames: 0,
        }) && active && selected.mode == SelectedMode::Explicit && !selected.reconnecting,
        (selected.verdict(outcome, active) matches SelectedVerdict::Wait(time)) ==> selected.verdict(
            outcome,
            active,
        ) == SelectedVerdict::Wait(5_000_000_000) && selected.spec_attempted(
            outcome,
            active,
        ).reconnecting,
        !(selected.verdict(outcome, active) is Wait) ==> selected.spec_attempted(outcome, active)
            == selected,
        selected.spec_attempted(outcome, active).candidate == selected.candidate,
        selected.spec_attempted(outcome, active).mode == selected.mode,
{
}

/// A capturer is run as it is configured: a concrete protocol alone, a family with whatever works of
/// it, and automatic capture with whatever works at all.
pub proof fn law_capturers_are_run_as_configured(capturer: Capturer)
    ensures
        capturer is Auto <==> capturer.plan() == Plan::Selecting(CandidateFamily::Any),
        capturer is Disabled <==> capturer.plan() == Plan::Disabled,
        capturer matches Capturer::Pipewire(protocol) ==> capturer.plan() == (if protocol
            == PipewireProtocol::Any {
            Plan::Selecting(CandidateFamily::Pipewire)
        } else {
            Plan::Explicit(Candidate::Pipewire(protocol))
        }),
        capturer matches Capturer::Wayland(inner) ==> capturer.plan() == (if inner.protocol
            == WaylandProtocol::Any {
            Plan::Selecting(CandidateFamily::Wayland)
        } else {
            Plan::Explicit(Candidate::Wayland(inner.protocol))
        }),
{
}

/// The candidates are the offered Wayland protocols in the order of the offer, then those of PipeWire,
/// each once, and of either only those of the family.
pub proof fn law_candidates_are_those_of_the_family(
    family: CandidateFamily,
    protocols: Seq<WaylandProtocol>,
    at: int,
)
    ensures
        ({
            let candidates = super::spec_candidates(family, protocols);
            let wayland = if family == CandidateFamily::Pipewire {
                0
            } else {
                protocols.len() as int
            };
            let pipewire = if family == CandidateFamily::Wayland {
                0int
            } else {
                3
            };
            &&& candidates.len() == wayland + pipewire
            &&& 0 <= at < wayland ==> candidates[at] == Candidate::Wayland(protocols[at])
            &&& pipewire > 0 ==> candidates[wayland] == Candidate::Pipewire(PipewireProtocol::Kwin)
            &&& pipewire > 0 ==> candidates[wayland + 1] == Candidate::Pipewire(
                PipewireProtocol::Mutter,
            )
            &&& pipewire > 0 ==> candidates[wayland + 2] == Candidate::Pipewire(
                PipewireProtocol::Portal,
            )
        }),
{
}

/// Only the portal, which asks the user, has a minute to begin with; any other candidate has five
/// seconds.
pub proof fn law_the_portal_may_take_longer(candidate: Candidate)
    ensures
        candidate == Candidate::Pipewire(PipewireProtocol::Portal)
            ==> candidate.spec_startup_timeout() == 60_000_000_000,
        candidate != Candidate::Pipewire(PipewireProtocol::Portal)
            ==> candidate.spec_startup_timeout() == 5_000_000_000,
{
}

/// A sleep ends at the deadline or after a whole slice, whichever comes first, and there is none once
/// the deadline has passed.
pub proof fn law_sleeps_end_at_the_deadline(now: u64, deadline: u64)
    ensures
        now >= deadline ==> super::slice(now, deadline) == 0 && super::remaining(now, deadline) == 0,
        now < deadline ==> {
            let time = super::slice(now, deadline);
            &&& 0 < time <= 100_000_000
            &&& now + time <= deadline
            &&& time == 100_000_000 || now + time == deadline
            &&& now + super::remaining(now, deadline) == deadline
        },
{
}

/// A frame is captured every tenth of a second and a value predicted every fifth of one. After a frame
/// that failed a whole second passes, and events are never waited for longer than between two
/// predictions.
pub proof fn law_capturing_keeps_time()
    ensures
        super::CAPTURE_INTERVAL == 100_000_000,
        super::wayland::DELAY_SUCCESS == super::CAPTURE_INTERVAL,
        super::wayland::DELAY_FAILURE == 10 * super::wayland::DELAY_SUCCESS,
        super::PREDICTION_INTERVAL == 2 * super::CAPTURE_INTERVAL,
        super::DEGRADED_INTERVAL == super::PREDICTION_INTERVAL,
        super::wayland::POLL_INTERVAL == super::PREDICTION_INTERVAL,
        super::pipewire::mutter::PROCESS_INTERVAL == super::PREDICTION_INTERVAL,
        super::pipewire::mutter::TIMEOUT == super::STARTUP_TIMEOUT,
        super::STARTUP_TIMEOUT == 5_000_000_000,
{
}

} // verus!
