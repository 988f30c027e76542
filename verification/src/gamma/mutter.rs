//! Gamma control over Mutter's display configuration.

use vstd::prelude::*;

use crate::text;

use super::ramp;
use super::ramp::{Lut, WhitePoints};

verus! {

/// An output: the controller that drives it, negative where there is none, and its name.
#[derive(Debug)]
pub struct Output {
    pub crtc: i32,
    pub name: String,
}

/// Why an output's gamma cannot be controlled.
#[derive(Clone, Copy, Debug, PartialEq, Eq, Structural)]
pub enum OutputError {
    /// No output fits.
    NoOutput,
    /// Several outputs fit.
    AmbiguousOutput,
    /// The output is inactive.
    Inactive,
    /// The lookup table is empty, or its channels differ in length.
    InvalidLut,
}

pub open spec fn named(output: Output, name: Seq<char>) -> bool {
    output.name@ == name
}

pub open spec fn resembles(output: Output, name: Seq<char>) -> bool {
    text::contained(output.name@, name)
}

/// Whether the output at a place is the one that a name means: the first one of exactly that name,
/// or else the only one whose name contains it.
pub open spec fn means(outputs: Seq<Output>, name: Seq<char>, at: int) -> bool {
    &&& 0 <= at < outputs.len()
    &&& if exists|i: int| 0 <= i < outputs.len() && named(#[trigger] outputs[i], name) {
        named(outputs[at], name) && forall|i: int|
            0 <= i < at ==> !named(#[trigger] outputs[i], name)
    } else {
        resembles(outputs[at], name) && forall|i: int|
            0 <= i < outputs.len() && i != at ==> !resembles(#[trigger] outputs[i], name)
    }
}

/// Finds the output that a name means.
pub fn find_output(outputs: &Vec<Output>, output_name: &str) -> (found: Result<usize, OutputError>)
    ensures
        match found {
            Ok(at) => means(outputs@, output_name@, at as int),
            Err(error) => {
                &&& forall|i: int|
                    0 <= i < outputs@.len() ==> !named(#[trigger] outputs@[i], output_name@)
                &&& error == OutputError::NoOutput <==> forall|i: int|
                    0 <= i < outputs@.len() ==> !resembles(#[trigger] outputs@[i], output_name@)
                &&& error == OutputError::AmbiguousOutput <==> exists|i: int, j: int|
                    0 <= i < j < outputs@.len() && resembles(#[trigger] outputs@[i], output_name@)
                        && resembles(#[trigger] outputs@[j], output_name@)
                &&& error == OutputError::NoOutput || error == OutputError::AmbiguousOutput
            },
        },
{
    let mut at: usize = 0;
    while at < outputs.len()
        invariant
            at <= outputs.len(),
            forall|i: int| 0 <= i < at ==> !named(#[trigger] outputs@[i], output_name@),
        decreases outputs.len() - at,
    {
        if text::equal(outputs[at].name.as_str(), output_name) {
            assert(named(outputs@[at as int], output_name@));
            return Ok(at);
        }
        at += 1;
    }
    let mut found: Option<usize> = None;
    let mut next: usize = 0;
    while next < outputs.len()
        invariant
            next <= outputs.len(),
            forall|i: int|
                0 <= i < outputs.len() ==> !named(#[trigger] outputs@[i], output_name@),
            match found {
                None => forall|i: int|
                    0 <= i < next ==> !resembles(#[trigger] outputs@[i], output_name@),
                Some(place) => {
                    &&& place < next
                    &&& resembles(outputs@[place as int], output_name@)
                    &&& forall|i: int|
                        0 <= i < next && i != place ==> !resembles(
                            #[trigger] outputs@[i],
                            output_name@,
                        )
                },
            },
        decreases outputs.len() - next,
    {
        if text::contains(outputs[next].name.as_str(), output_name) {
            assert(resembles(outputs@[next as int], output_name@));
            if let Some(place) = found {
                assert(resembles(outputs@[place as int], output_name@));
                return Err(OutputError::AmbiguousOutput);
            }
            found = Some(next);
        }
        next += 1;
    }
    match found {
        Some(place) => Ok(place),
        None => Err(OutputError::NoOutput),
    }
}

/// Finds the controller that drives the output that a name means.
pub fn find_crtc(outputs: &Vec<Output>, output_name: &str) -> (crtc: Result<u32, OutputError>)
    ensures
        match crtc {
            Ok(crtc) => exists|at: int|
                #![trigger outputs@[at]]
                means(outputs@, output_name@, at) && outputs@[at].crtc == crtc,
            Err(OutputError::Inactive) => exists|at: int|
                #![trigger outputs@[at]]
                means(outputs@, output_name@, at) && outputs@[at].crtc < 0,
            Err(error) => {
                &&& forall|i: int|
                    0 <= i < outputs@.len() ==> !named(#[trigger] outputs@[i], output_name@)
                &&& error == OutputError::NoOutput <==> forall|i: int|
                    0 <= i < outputs@.len() ==> !resembles(#[trigger] outputs@[i], output_name@)
                &&& error == OutputError::AmbiguousOutput <==> exists|i: int, j: int|
                    0 <= i < j < outputs@.len() && resembles(#[trigger] outputs@[i], output_name@)
                        && resembles(#[trigger] outputs@[j], output_name@)
                &&& error == OutputError::NoOutput || error == OutputError::AmbiguousOutput
            },
        },
{
    match find_output(outputs, output_name) {
        Ok(at) => {
            let crtc: i32 = outputs[at].crtc;
            assert(outputs@[at as int].crtc == crtc);
            if crtc < 0 {
                Err(OutputError::Inactive)
            } else {
                Ok(crtc as u32)
            }
        },
        Err(error) => Err(error),
    }
}

/// Gamma control of one output, with the lookup table that it had.
#[derive(Debug)]
pub struct Backend {
    pub serial: u32,
    pub crtc: u32,
    pub original: Lut,
}

impl Backend {
    /// Takes control of an output whose channels have these curves.
    pub fn new(serial: u32, crtc: u32, red: Vec<u16>, green: Vec<u16>, blue: Vec<u16>) -> (backend: Result<
        Self,
        OutputError,
    >)
        ensures
            match backend {
                Ok(backend) => {
                    &&& 0 < red@.len() == green@.len() == blue@.len()
                    &&& backend.serial == serial
                    &&& backend.crtc == crtc
                    &&& backend.original@[0]@ == red@
                    &&& backend.original@[1]@ == green@
                    &&& backend.original@[2]@ == blue@
                },
                Err(error) => {
                    &&& error == OutputError::InvalidLut
                    &&& !(0 < red@.len() == green@.len() == blue@.len())
                },
            },
    {
        if red.len() == 0 || red.len() != green.len() || red.len() != blue.len() {
            return Err(OutputError::InvalidLut);
        }
        Ok(Backend { serial, crtc, original: [red, green, blue] })
    }

    /// The lookup table to set: the original one, dimmed and shifted.
    pub fn set(&self, points: &WhitePoints, dim: u64, temperature: u64) -> (lut: Lut)
        requires
            points.valid(),
        ensures
            forall|channel: int|
                0 <= channel < 3 ==> (#[trigger] lut@[channel])@ == ramp::applied_curve(
                    self.original@[channel]@,
                    points.gain(dim, temperature, channel),
                ),
    {
        ramp::apply(points, &self.original, dim, temperature)
    }
}

} // verus!
