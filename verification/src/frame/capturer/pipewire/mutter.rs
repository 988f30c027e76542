//! The stream of GNOME Mutter.

use vstd::prelude::*;

verus! {

/// The longest time that one call may take.
pub const TIMEOUT: u64 = 5_000_000_000;

/// The longest time to wait for the stream before looking whether it is still wanted.
pub const PROCESS_INTERVAL: u64 = 200_000_000;

/// A step on the way to the stream.
#[derive(Clone, Copy, Debug, PartialEq, Eq, Structural)]
pub enum Stage {
    /// Connect to the session bus.
    Connect,
    CreateSession,
    RecordMonitor,
    /// Listen for the stream.
    Listen,
    Start,
}

/// Why there is no stream.
#[derive(Clone, Copy, Debug, PartialEq, Eq, Structural)]
pub enum SetupError {
    /// The capture is no longer wanted.
    Interrupted,
    /// The time to set it up is over.
    SetupTimedOut,
    /// The time to wait for the stream is over.
    StreamTimedOut,
}

/// What waiting for the stream does next.
#[derive(Clone, Copy, Debug, PartialEq, Eq, Structural)]
pub enum Wait {
    /// The stream is this node.
    Node(u32),
    /// Process messages for this time at most.
    Process(u64),
}

pub open spec fn least(left: u64, right: u64) -> u64 {
    if left < right {
        left
    } else {
        right
    }
}

/// The time that the next call may take.
pub open spec fn spec_remaining(now: u64, deadline: u64) -> Result<u64, SetupError> {
    if now >= deadline {
        Err(SetupError::SetupTimedOut)
    } else {
        Ok(least((deadline - now) as u64, TIMEOUT))
    }
}

pub fn remaining(now: u64, deadline: u64) -> (time: Result<u64, SetupError>)
    ensures
        time == spec_remaining(now, deadline),
{
    if now >= deadline {
        return Err(SetupError::SetupTimedOut);
    }
    let left: u64 = deadline - now;
    Ok(if left < TIMEOUT {
        left
    } else {
        TIMEOUT
    })
}

/// Whether a stage begins with a look at whether the capture is still wanted.
pub open spec fn checks_active(stage: Stage) -> bool {
    stage == Stage::Connect || stage == Stage::RecordMonitor || stage == Stage::Listen
}

/// Whether a stage calls Mutter, which takes time.
pub open spec fn calls(stage: Stage) -> bool {
    stage == Stage::CreateSession || stage == Stage::RecordMonitor || stage == Stage::Start
}

/// Whether a stage is reached, and the time that its call may take.
pub fn begin(stage: Stage, active: bool, now: u64, deadline: u64) -> (time: Result<Option<u64>, SetupError>)
    ensures
        time == (if checks_active(stage) && !active {
            Err::<Option<u64>, SetupError>(SetupError::Interrupted)
        } else if calls(stage) {
            match spec_remaining(now, deadline) {
                Ok(time) => Ok(Some(time)),
                Err(error) => Err(error),
            }
        } else {
            Ok(None)
        }),
{
    if matches!(stage, Stage::Connect | Stage::RecordMonitor | Stage::Listen) && !active {
        return Err(SetupError::Interrupted);
    }
    if matches!(stage, Stage::CreateSession | Stage::RecordMonitor | Stage::Start) {
        match remaining(now, deadline) {
            Ok(time) => Ok(Some(time)),
            Err(error) => Err(error),
        }
    } else {
        Ok(None)
    }
}

/// When waiting for the stream ends.
pub fn stream_deadline(now: u64, deadline: u64) -> (end: u64)
    requires
        now + TIMEOUT <= u64::MAX,
    ensures
        end == least(deadline, (now + TIMEOUT) as u64),
{
    let limit: u64 = now + TIMEOUT;
    if deadline < limit {
        deadline
    } else {
        limit
    }
}

/// Decides how to go on with waiting: a stream that is there counts even if it is late.
pub fn wait(node: Option<u32>, active: bool, now: u64, deadline: u64) -> (step: Result<Wait, SetupError>)
    ensures
        step == (match node {
            Some(node) => Ok::<Wait, SetupError>(Wait::Node(node)),
            None => if !active {
                Err(SetupError::Interrupted)
            } else if now >= deadline {
                Err(SetupError::StreamTimedOut)
            } else {
                Ok(Wait::Process(least((deadline - now) as u64, PROCESS_INTERVAL)))
            },
        }),
{
    if let Some(node) = node {
        return Ok(Wait::Node(node));
    }
    if !active {
        return Err(SetupError::Interrupted);
    }
    if now >= deadline {
        return Err(SetupError::StreamTimedOut);
    }
    let left: u64 = deadline - now;
    Ok(
        Wait::Process(
            if left < PROCESS_INTERVAL {
                left
            } else {
                PROCESS_INTERVAL
            },
        ),
    )
}

} // verus!
