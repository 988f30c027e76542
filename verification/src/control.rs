//! Requests of the user.

use vstd::prelude::*;

verus! {

/// What a request reads or changes.
#[derive(Clone, Copy, Debug, PartialEq, Eq, Structural)]
pub enum Property {
    Brightness,
    Dim,
    Temperature,
}

/// A new value, or a step up or down from the present one.
#[derive(Clone, Copy, Debug, PartialEq, Eq, Structural)]
pub struct ValueAdjustment {
    pub relative: bool,
    pub increase: bool,
    pub value: u64,
}

} // verus!
