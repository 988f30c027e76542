//! Moving smoothly from one value to another.

use vstd::prelude::*;

use crate::double;
use crate::double::{Double, ONE_BITS};
use crate::double_laws;

use super::ramp;
use super::transition_laws;

verus! {

/// How long a transition takes.
pub const TRANSITION_DURATION: u64 = 500_000_000;

/// A second.
pub const SECOND: u64 = 1_000_000_000;

/// The value that lies at `progress` of the way, halves rounding up.
pub open spec fn spec_interpolate(from: u64, to: u64, progress: int) -> int {
    let (start, end) = (double::whole(from as int), double::whole(to as int));
    let moved = double::product(double::distance(start, end), progress);
    let value = double::round(
        if end >= start {
            double::sum(start, moved)
        } else if start >= moved {
            double::distance(start, moved)
        } else {
            0
        },
    );
    if value <= u64::MAX {
        value
    } else {
        u64::MAX as int
    }
}

/// The value that lies at `progress` of the way between two values.
pub fn interpolate(from: u64, to: u64, progress: Double) -> (value: u64)
    requires
        progress.well_formed(),
        progress.exponent <= 1_000_000,
    ensures
        value == spec_interpolate(from, to, progress.value()),
{
    let (start, end) = (Double::of(from), Double::of(to));
    let moved = start.apart(end).times(progress);
    if end.at_least(start) {
        start.plus(moved).rounded()
    } else if start.at_least(moved) {
        start.apart(moved).rounded()
    } else {
        proof {
            double_laws::lemma_whole(0);
            double_laws::lemma_round_to(0, 0);
        }
        0
    }
}

/// The time since a transition began.
pub open spec fn elapsed(started: u64, now: u64) -> u64 {
    if now < started {
        0
    } else {
        (now - started) as u64
    }
}

/// A time in seconds.
pub open spec fn seconds(time: u64) -> int {
    double::sum(
        double::whole((time / SECOND) as int),
        double::quotient(double::whole((time % SECOND) as int), double::whole(SECOND as int)),
    )
}

/// Which part of its duration a transition has taken.
pub open spec fn share(time: u64) -> int {
    let share = double::quotient(seconds(time), seconds(TRANSITION_DURATION));
    if share <= double::one() {
        share
    } else {
        double::one()
    }
}

/// How far a transition is after some time: it begins and ends gently.
pub open spec fn progress(time: u64) -> int {
    let share = share(time);
    double::product(
        double::product(share, share),
        double::distance(double::whole(3), double::product(double::whole(2), share)),
    )
}

fn to_seconds(time: u64) -> (number: Double)
    ensures
        number.well_formed(),
        number.value() == seconds(time),
        number.exponent <= 10_000,
        time == TRANSITION_DURATION ==> number.mantissa > 0,
{
    let second = Double::of(SECOND);
    proof {
        ramp::lemma_positive(second, SECOND as int);
    }
    let number = Double::of(time / SECOND).plus(Double::of(time % SECOND).over(second));
    proof {
        if time == TRANSITION_DURATION {
            transition_laws::lemma_half();
            if number.mantissa == 0 {
                assert(0 * vstd::arithmetic::power2::pow2(number.exponent as nat) == 0);
            }
        }
    }
    number
}

/// How far a transition is after some time.
pub fn to_progress(time: u64) -> (number: Double)
    ensures
        number.well_formed(),
        number.value() == progress(time),
        number.exponent <= 1_000_000,
{
    proof {
        double::lemma_one_bits();
    }
    let one = Double::decode(ONE_BITS);
    let whole = to_seconds(time).over(to_seconds(TRANSITION_DURATION));
    let share = if one.at_least(whole) {
        whole
    } else {
        one
    };
    let rest = Double::of(3).apart(Double::of(2).times(share));
    share.times(share).times(rest)
}

/// Whether a transition is over after some time.
pub open spec fn is_over(time: u64) -> bool {
    progress(time) >= double::one()
}

} // verus!
