//! Adjusting without looking at the screen.

use vstd::prelude::*;

use super::{wait_slice, waits, PREDICTION_INTERVAL};

verus! {

/// What to do next.
#[derive(Clone, Copy, Debug, PartialEq, Eq, Structural)]
pub enum Step {
    /// The capturer is no longer wanted.
    Stop,
    /// Adjust for a black screen, then begin to wait.
    Adjust,
    /// Sleep for this time.
    Sleep(u64),
}

/// A capturer that reports a black screen at a fixed interval.
#[derive(Debug)]
pub struct Capturer {
    /// The end of the present wait.
    pub deadline: Option<u64>,
}

impl Capturer {
    pub fn new() -> (capturer: Self)
        ensures
            capturer.deadline is None,
    {
        Capturer { deadline: None }
    }

    /// Decides on the next step while nothing is waited for or a wait goes on.
    pub fn run(&mut self, active: bool, now: u64) -> (step: Step)
        ensures
            match old(self).deadline {
                Some(deadline) if active && now < deadline => {
                    &&& step == Step::Sleep(super::slice(now, deadline))
                    &&& final(self).deadline == old(self).deadline
                },
                _ => {
                    &&& step == if active { Step::Adjust } else { Step::Stop }
                    &&& final(self).deadline is None
                },
            },
    {
        if let Some(deadline) = self.deadline {
            if waits(active, now, deadline) {
                return Step::Sleep(wait_slice(now, deadline));
            }
        }
        self.deadline = None;
        if active {
            Step::Adjust
        } else {
            Step::Stop
        }
    }

    /// Begins to wait for the next adjustment.
    pub fn adjusted(&mut self, now: u64)
        requires
            now + PREDICTION_INTERVAL <= u64::MAX,
        ensures
            final(self).deadline == Some((now + PREDICTION_INTERVAL) as u64),
    {
        self.deadline = Some(now + PREDICTION_INTERVAL);
    }
}

impl Default for Capturer {
    fn default() -> (capturer: Self)
        ensures
            capturer.deadline is None,
    {
        Capturer { deadline: None }
    }
}

} // verus!
