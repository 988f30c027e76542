//! The stream of KWin, and the connector of an output.

use vstd::prelude::*;

use crate::frame::capturer::wayland;
use crate::frame::capturer::wayland::{match_action, output_match, MatchAction, OutputMatch};

verus! {

/// The newest version of an output that is understood. From this one on it tells its own name.
pub const OUTPUT_VERSION: u32 = 4;

/// The newest version of the extended outputs that is understood.
pub const XDG_OUTPUT_VERSION: u32 = 3;

/// The newest version of the screencast interface that is understood.
pub const SCREENCAST_VERSION: u32 = 4;

/// An output of the compositor.
#[derive(Debug)]
pub struct Output {
    /// It does not tell its name itself.
    pub needs_xdg_output: bool,
    pub name: Option<String>,
}

/// What is known of the compositor while the stream is looked for. Outputs go by their place.
#[derive(Debug)]
pub struct State {
    pub manager: bool,
    pub xdg_output_manager: bool,
    pub outputs: Vec<Output>,
    pub output: Option<usize>,
    pub output_name: Option<String>,
    pub output_match: Option<OutputMatch>,
    pub output_match_ambiguous: bool,
    pub node: Option<u32>,
    pub failure: Option<String>,
}

/// A kind of global object of the compositor.
#[derive(Clone, Copy, Debug, PartialEq, Eq, Structural)]
pub enum Global {
    Output,
    XdgOutputManager,
    Screencast,
    Other,
}

/// Why no output was settled on.
#[derive(Clone, Copy, Debug, PartialEq, Eq, Structural)]
pub enum FindError {
    /// No output fits.
    NoOutput,
    /// Several outputs fit equally well.
    AmbiguousOutput,
}

/// Why the connector of an output is not known.
#[derive(Clone, Copy, Debug, PartialEq, Eq, Structural)]
pub enum ConnectorError {
    Find(FindError),
    /// The output does not tell its name.
    Unknown,
}

/// How the search goes on once the outputs are known.
#[derive(Debug)]
pub enum Found {
    /// There is no stream to create: the connector is all that is known.
    Connector(Option<String>),
    /// Create the stream of the output at this place.
    Stream(usize),
}

/// What became of a stream.
#[derive(Debug)]
pub enum Stream {
    /// It is not there yet.
    Pending,
    /// It failed with this message.
    Failed(String),
    /// It is this node.
    Node(u32),
}

/// Why waiting for the compositor ends.
#[derive(Clone, Copy, Debug, PartialEq, Eq, Structural)]
pub enum LookupError {
    Interrupted,
    TimedOut,
}

/// What a closed stream reports.
pub const STREAM_CLOSED: &'static str = "KDE closed the screen stream";

/// Whether two optional texts are the same.
pub open spec fn same_text(left: Option<String>, right: Option<String>) -> bool {
    match (left, right) {
        (Some(left), Some(right)) => left@ == right@,
        (None, None) => true,
        _ => false,
    }
}

impl State {
    /// The chosen output is a known one, its name is the one that is kept, and the state of the match
    /// belongs to it.
    pub open spec fn well_formed(&self) -> bool {
        &&& self.output matches Some(output) ==> output < self.outputs.len() && same_text(
            self.output_name,
            self.outputs[output as int].name,
        )
        &&& self.output is None ==> self.output_name is None
        &&& self.output is Some <==> self.output_match is Some
        &&& self.output_match_ambiguous ==> self.output is Some
    }

    pub fn new() -> (state: Self)
        ensures
            state.well_formed(),
            !state.manager,
            !state.xdg_output_manager,
            state.outputs@.len() == 0,
            state.output is None,
            state.output_name is None,
            state.output_match is None,
            !state.output_match_ambiguous,
            state.node is None,
            state.failure is None,
    {
        State {
            manager: false,
            xdg_output_manager: false,
            outputs: Vec::new(),
            output: None,
            output_name: None,
            output_match: None,
            output_match_ambiguous: false,
            node: None,
            failure: None,
        }
    }

    pub open spec fn bound_version(global: Global, version: u32) -> Option<u32> {
        let newest = match global {
            Global::Output => OUTPUT_VERSION,
            Global::XdgOutputManager => XDG_OUTPUT_VERSION,
            _ => SCREENCAST_VERSION,
        };
        if global == Global::Other {
            None
        } else if version < newest {
            Some(version)
        } else {
            Some(newest)
        }
    }

    /// A global object appeared. Returns the version to bind it with; an output gets the next place.
    pub fn global(&mut self, global: Global, version: u32) -> (bound: Option<u32>)
        requires
            old(self).well_formed(),
        ensures
            final(self).well_formed(),
            bound == State::bound_version(global, version),
            match global {
                Global::Output => {
                    &&& final(self).outputs@.len() == old(self).outputs@.len() + 1
                    &&& final(self).outputs@.drop_last() == old(self).outputs@
                    &&& final(self).outputs@.last().needs_xdg_output == (version < OUTPUT_VERSION)
                    &&& final(self).outputs@.last().name is None
                    &&& *final(self) == (State { outputs: final(self).outputs, ..*old(self) })
                },
                Global::XdgOutputManager => *final(self) == (State {
                    xdg_output_manager: true,
                    ..*old(self)
                }),
                Global::Screencast => *final(self) == (State { manager: true, ..*old(self) }),
                Global::Other => *final(self) == *old(self),
            },
    {
        match global {
            Global::Output => {
                let bound: u32 = if version < OUTPUT_VERSION {
                    version
                } else {
                    OUTPUT_VERSION
                };
                self.outputs.push(
                    Output { needs_xdg_output: bound < OUTPUT_VERSION, name: None },
                );
                assert(self.outputs@.drop_last() =~= old(self).outputs@);
                Some(bound)
            },
            Global::XdgOutputManager => {
                self.xdg_output_manager = true;
                Some(if version < XDG_OUTPUT_VERSION {
                    version
                } else {
                    XDG_OUTPUT_VERSION
                })
            },
            Global::Screencast => {
                self.manager = true;
                Some(if version < SCREENCAST_VERSION {
                    version
                } else {
                    SCREENCAST_VERSION
                })
            },
            Global::Other => None,
        }
    }

    /// The outputs whose names have to be asked for separately, where that is possible.
    pub fn unnamed_outputs(&self) -> (places: Vec<usize>)
        ensures
            !self.xdg_output_manager ==> places@.len() == 0,
            self.xdg_output_manager ==> forall|place: usize|
                places@.contains(place) <==> (place < self.outputs.len()
                    && self.outputs[place as int].needs_xdg_output),
            forall|i: int, j: int| 0 <= i < j < places@.len() ==> places@[i] < places@[j],
    {
        let mut places: Vec<usize> = Vec::new();
        if self.xdg_output_manager {
            let mut i: usize = 0;
            while i < self.outputs.len()
                invariant
                    i <= self.outputs.len(),
                    forall|j: int| 0 <= j < places@.len() ==> #[trigger] places@[j] < i,
                    forall|place: usize|
                        places@.contains(place) <==> (place < i
                            && self.outputs[place as int].needs_xdg_output),
                    forall|j: int, k: int| 0 <= j < k < places@.len() ==> places@[j] < places@[k],
                decreases self.outputs.len() - i,
            {
                if self.outputs[i].needs_xdg_output {
                    let ghost before = places@;
                    places.push(i);
                    proof {
                        assert forall|place: usize|
                            places@.contains(place) <==> (place < i + 1
                                && self.outputs[place as int].needs_xdg_output) by {
                            if before.contains(place) {
                                let j = before.index_of(place);
                                assert(places@[j] == place);
                            }
                            if place == i {
                                assert(places@[before.len() as int] == place);
                            }
                            if places@.contains(place) && place != i {
                                let j = places@.index_of(place);
                                assert(before[j] == place);
                            }
                        }
                    }
                }
                i += 1;
            }
        }
        places
    }

    /// An output told its name, which may fit exactly, or its description.
    pub fn match_output(&mut self, output: usize, value: &str, desired_output: &str, exact: bool)
        requires
            old(self).well_formed(),
            output < old(self).outputs.len(),
        ensures
            final(self).well_formed(),
            final(self).manager == old(self).manager,
            final(self).xdg_output_manager == old(self).xdg_output_manager,
            final(self).node == old(self).node,
            final(self).failure == old(self).failure,
            // The name of an output is kept with it.
            final(self).outputs@.len() == old(self).outputs@.len(),
            forall|i: int|
                0 <= i < final(self).outputs@.len() ==> (#[trigger] final(self).outputs@[i]).needs_xdg_output
                    == old(self).outputs@[i].needs_xdg_output,
            forall|i: int|
                0 <= i < final(self).outputs@.len() && !(exact && i == output)
                    ==> #[trigger] final(self).outputs@[i] == old(self).outputs@[i],
            exact ==> (final(self).outputs@[output as int].name matches Some(name) && name@ == value@),
            // Which output is chosen.
            ({
                let quality = wayland::spec_output_match(value@, desired_output@, exact);
                let action = wayland::spec_match_action(
                    old(self).output_match,
                    quality->0,
                    old(self).output == Some(output),
                );
                let taken = quality is Some && (action == MatchAction::Select || action
                    == MatchAction::Replace);
                &&& final(self).output == (if taken {
                    Some(output)
                } else {
                    old(self).output
                })
                &&& final(self).output_match == (if taken {
                    quality
                } else {
                    old(self).output_match
                })
                &&& final(self).output_match_ambiguous == (if quality is None {
                    old(self).output_match_ambiguous
                } else {
                    match action {
                        MatchAction::Ambiguous => true,
                        MatchAction::Replace => false,
                        _ => old(self).output_match_ambiguous,
                    }
                })
                &&& same_text(
                    final(self).output_name,
                    if taken || exact && old(self).output == Some(output) {
                        final(self).outputs@[output as int].name
                    } else {
                        old(self).output_name
                    },
                )
            }),
    {
        let same_output = match self.output {
            Some(current) => current == output,
            None => false,
        };
        if exact {
            let named = Output {
                needs_xdg_output: self.outputs[output].needs_xdg_output,
                name: Some(value.to_owned()),
            };
            self.outputs.set(output, named);
            if same_output {
                self.output_name = Some(value.to_owned());
            }
        }
        if let Some(candidate) = output_match(value, desired_output, exact) {
            let action = match_action(self.output_match, candidate, same_output);
            match action {
                MatchAction::Select | MatchAction::Replace => {
                    self.output = Some(output);
                    self.output_name = match &self.outputs[output].name {
                        Some(name) => Some(name.clone()),
                        None => None,
                    };
                    self.output_match = Some(candidate);
                    if let MatchAction::Replace = action {
                        self.output_match_ambiguous = false;
                    }
                },
                MatchAction::Ambiguous => self.output_match_ambiguous = true,
                MatchAction::Ignore => {},
            }
        }
    }

    /// Decides how to go on once the outputs told their names.
    pub fn find(&self, create_stream: bool) -> (found: Result<Found, FindError>)
        requires
            self.well_formed(),
        ensures
            match self.output {
                None => found == Err::<Found, FindError>(FindError::NoOutput),
                Some(output) => if self.output_match_ambiguous {
                    found == Err::<Found, FindError>(FindError::AmbiguousOutput)
                } else if create_stream && self.manager {
                    found matches Ok(Found::Stream(place)) && place == output
                } else {
                    found matches Ok(Found::Connector(name)) && same_text(name, self.output_name)
                },
            },
    {
        match self.output {
            None => Err(FindError::NoOutput),
            Some(output) => {
                if self.output_match_ambiguous {
                    return Err(FindError::AmbiguousOutput);
                }
                if create_stream && self.manager {
                    Ok(Found::Stream(output))
                } else {
                    Ok(
                        Found::Connector(
                            match &self.output_name {
                                Some(name) => Some(name.clone()),
                                None => None,
                            },
                        ),
                    )
                }
            },
        }
    }

    /// The compositor created the stream.
    pub fn stream_created(&mut self, node: u32)
        requires
            old(self).well_formed(),
        ensures
            final(self).well_formed(),
            *final(self) == (State { node: Some(node), ..*old(self) }),
    {
        self.node = Some(node);
    }

    /// The compositor could not create the stream.
    pub fn stream_failed(&mut self, error: String)
        requires
            old(self).well_formed(),
        ensures
            final(self).well_formed(),
            *final(self) == (State { failure: Some(error), ..*old(self) }),
    {
        self.failure = Some(error);
    }

    /// The compositor closed the stream.
    pub fn stream_closed(&mut self)
        requires
            old(self).well_formed(),
        ensures
            final(self).well_formed(),
            *final(self) == (State { failure: final(self).failure, ..*old(self) }),
            final(self).failure matches Some(error) && error@ == STREAM_CLOSED@,
    {
        self.failure = Some(STREAM_CLOSED.to_owned());
    }

    /// What became of the stream. A failure counts even if the stream was there.
    pub fn stream(&self) -> (stream: Stream)
        ensures
            match self.failure {
                Some(error) => stream matches Stream::Failed(message) && message@ == error@,
                None => match self.node {
                    Some(node) => stream == Stream::Node(node),
                    None => stream == Stream::Pending,
                },
            },
    {
        match &self.failure {
            Some(error) => Stream::Failed(error.clone()),
            None => match self.node {
                Some(node) => Stream::Node(node),
                None => Stream::Pending,
            },
        }
    }
}

impl Default for State {
    fn default() -> (state: Self)
        ensures
            state.well_formed(),
            !state.manager,
            !state.xdg_output_manager,
            state.outputs@.len() == 0,
            state.output is None,
            state.output_name is None,
            state.output_match is None,
            !state.output_match_ambiguous,
            state.node is None,
            state.failure is None,
    {
        State::new()
    }
}

/// The connector that the search found.
pub fn connector(found: Result<Found, FindError>) -> (connector: Result<String, ConnectorError>)
    ensures
        match found {
            Err(error) => connector == Err::<String, ConnectorError>(ConnectorError::Find(error)),
            Ok(Found::Connector(Some(name))) => connector == Ok::<String, ConnectorError>(name),
            Ok(_) => connector == Err::<String, ConnectorError>(ConnectorError::Unknown),
        },
{
    match found {
        Err(error) => Err(ConnectorError::Find(error)),
        Ok(Found::Connector(Some(name))) => Ok(name),
        Ok(_) => Err(ConnectorError::Unknown),
    }
}

/// Whether to wait on for the compositor, and then for how many milliseconds at most.
pub fn lookup_wait(active: bool, now: u64, deadline: u64) -> (timeout: Result<i32, LookupError>)
    ensures
        timeout == (if !active {
            Err::<i32, LookupError>(LookupError::Interrupted)
        } else if now >= deadline {
            Err(LookupError::TimedOut)
        } else if deadline - now < wayland::POLL_INTERVAL {
            Ok(((deadline - now) / 1_000_000) as i32)
        } else {
            Ok((wayland::POLL_INTERVAL / 1_000_000) as i32)
        }),
{
    if !active {
        return Err(LookupError::Interrupted);
    }
    if now >= deadline {
        return Err(LookupError::TimedOut);
    }
    Ok(wayland::poll_timeout(now, deadline))
}

} // verus!
