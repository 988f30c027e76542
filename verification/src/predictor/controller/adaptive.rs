//! A controller that learns from the user and predicts from what it learned.

use std::collections::HashMap;

use vstd::prelude::*;

use crate::als::{Reading, Scale};
use crate::double;
use crate::double::INFINITE_BITS;
use crate::predictor::data;
use crate::predictor::data::{Data, Entry, Kind, Profile, StoredData};
use crate::predictor::AlsDirection;

use super::monotonic;
use super::monotonic::{linear_coordinate, Model, Sample, LUMA_LEVELS};
use super::{Cooldown, PENDING_COOLDOWN};

verus! {

/// Whether a learned value grows or shrinks with screen luma.
#[derive(Clone, Copy, Debug, PartialEq, Eq, Structural)]
pub enum LumaDirection {
    Increasing,
    Decreasing,
}

/// The distance up to which a new observation replaces an old one: the bits of the double-precision
/// number 0.25. Numbers that are not negative are ordered as their bits are.
pub const REPLACEMENT_DISTANCE: u64 = 0x3FD0_0000_0000_0000;

/// The sum of the values of the observations at a reading.
pub open spec fn total(entries: Seq<Entry>, als: u64) -> int
    decreases entries.len(),
{
    if entries.len() == 0 {
        0
    } else {
        total(entries.drop_last(), als) + if entries.last().als == als {
            entries.last().brightness as int
        } else {
            0
        }
    }
}

/// The number of the observations at a reading.
pub open spec fn count(entries: Seq<Entry>, als: u64) -> int
    decreases entries.len(),
{
    if entries.len() == 0 {
        0
    } else {
        count(entries.drop_last(), als) + if entries.last().als == als {
            1int
        } else {
            0
        }
    }
}

/// The average of the values at a reading, halves rounding up.
pub open spec fn average(entries: Seq<Entry>, als: u64) -> int {
    (total(entries, als) + count(entries, als) / 2) / count(entries, als)
}

/// Whether some observation is at this reading.
pub open spec fn present(entries: Seq<Entry>, als: u64) -> bool {
    exists|i: int| 0 <= i < entries.len() && (#[trigger] entries[i]).als == als
}

/// Whether observations stand for others without regard to luma: one for every reading, in
/// ascending order, with the average of the values.
pub open spec fn collapsed(entries: Seq<Entry>, projected: Seq<Entry>) -> bool {
    &&& forall|i: int, j: int| 0 <= i < j < projected.len() ==> projected[i].als < projected[j].als
    &&& forall|i: int|
        0 <= i < projected.len() ==> present(entries, (#[trigger] projected[i]).als)
            && projected[i].luma == 0 && projected[i].brightness == average(
            entries,
            projected[i].als,
        )
    &&& forall|i: int| 0 <= i < entries.len() ==> present(projected, (#[trigger] entries[i]).als)
}

#[derive(Clone, Copy)]
struct Group {
    als: u64,
    total: u128,
    count: u64,
}

spec fn grouped(groups: Seq<Group>, entries: Seq<Entry>) -> bool {
    &&& forall|i: int, j: int| 0 <= i < j < groups.len() ==> groups[i].als < groups[j].als
    &&& forall|i: int|
        0 <= i < groups.len() ==> present(entries, (#[trigger] groups[i]).als) && groups[i].total
            == total(entries, groups[i].als) && groups[i].count == count(entries, groups[i].als)
    &&& forall|i: int|
        0 <= i < entries.len() ==> exists|j: int|
            0 <= j < groups.len() && (#[trigger] groups[j]).als == (#[trigger] entries[i]).als
}

proof fn lemma_totals(entries: Seq<Entry>, als: u64)
    ensures
        0 <= count(entries, als) <= entries.len(),
        0 <= total(entries, als) <= count(entries, als) * u64::MAX,
        count(entries, als) > 0 <==> present(entries, als),
    decreases entries.len(),
{
    if entries.len() > 0 {
        let front = entries.drop_last();
        lemma_totals(front, als);
        if present(front, als) {
            let i = choose|i: int| 0 <= i < front.len() && (#[trigger] front[i]).als == als;
            assert(entries[i].als == als);
        }
        if entries.last().als == als {
            assert(entries[entries.len() - 1].als == als);
            assert((count(front, als) + 1) * u64::MAX == count(front, als) * u64::MAX + u64::MAX)
                by (nonlinear_arith);
        } else if present(entries, als) {
            let i = choose|i: int| 0 <= i < entries.len() && (#[trigger] entries[i]).als == als;
            assert(front[i].als == als);
        }
    }
}

/// The average of values is not above the greatest of them.
proof fn lemma_average(sum: int, number: int)
    requires
        0 < number,
        0 <= sum <= number * u64::MAX,
    ensures
        0 <= (sum + number / 2) / number <= u64::MAX,
{
    let top = number * u64::MAX;
    assert((top + number / 2) / number == u64::MAX) by {
        vstd::arithmetic::div_mod::lemma_fundamental_div_mod_converse(
            top + number / 2,
            number,
            u64::MAX as int,
            number / 2,
        );
    }
    vstd::arithmetic::div_mod::lemma_div_is_ordered(sum + number / 2, top + number / 2, number);
    vstd::arithmetic::div_mod::lemma_div_pos_is_pos(sum + number / 2, number);
}

/// One observation for every reading, with the average of the values whatever the luma.
pub fn collapse_luma(entries: &Vec<Entry>) -> (projected: Vec<Entry>)
    ensures
        collapsed(entries@, projected@),
        projected@.len() <= entries@.len(),
{
    let mut groups: Vec<Group> = Vec::new();
    let mut k: usize = 0;
    while k < entries.len()
        invariant
            k <= entries.len(),
            grouped(groups@, entries@.take(k as int)),
            groups@.len() <= k,
        decreases entries.len() - k,
    {
        let entry = entries[k];
        let ghost before = entries@.take(k as int);
        let ghost after = entries@.take(k + 1);
        let ghost old_groups = groups@;
        let mut at: usize = 0;
        while at < groups.len() && groups[at].als < entry.als
            invariant
                at <= groups.len(),
                forall|i: int| 0 <= i < at ==> (#[trigger] groups[i]).als < entry.als,
            decreases groups.len() - at,
        {
            at += 1;
        }
        proof {
            assert(after.drop_last() =~= before);
            assert(after.last() == entry);
            lemma_totals(before, entry.als);
            lemma_totals(after, entry.als);
            assert(after[k as int].als == entry.als);
            assert forall|i: int| 0 <= i < before.len() implies before[i] == #[trigger] after[i] by {}
            assert forall|als: u64| present(before, als) implies #[trigger] present(after, als) by {
                let i = choose|i: int| 0 <= i < before.len() && (#[trigger] before[i]).als == als;
                assert(after[i].als == als);
            }
        }
        if at < groups.len() && groups[at].als == entry.als {
            let group = groups[at];
            proof {
                assert(count(before, entry.als) * u64::MAX <= (usize::MAX as int) * u64::MAX)
                    by (nonlinear_arith)
                    requires
                        count(before, entry.als) <= usize::MAX,
                ;
                assert((usize::MAX as int) * u64::MAX + u64::MAX <= u128::MAX) by (nonlinear_arith)
                    requires
                        usize::MAX <= u64::MAX,
                ;
            }
            groups.set(
                at,
                Group {
                    als: group.als,
                    total: group.total + entry.brightness as u128,
                    count: group.count + 1,
                },
            );
            proof {
                assert forall|i: int| 0 <= i < groups@.len() implies present(
                    after,
                    (#[trigger] groups@[i]).als,
                ) && groups@[i].total == total(after, groups@[i].als) && groups@[i].count == count(
                    after,
                    groups@[i].als,
                ) by {
                    assert(old_groups[i].als == groups@[i].als);
                    if i < at {
                        assert(old_groups[i].als < old_groups[at as int].als);
                    } else if i > at {
                        assert(old_groups[at as int].als < old_groups[i].als);
                    }
                }
                assert forall|i: int| 0 <= i < after.len() implies exists|j: int|
                    0 <= j < groups@.len() && (#[trigger] groups@[j]).als == (#[trigger] after[i]).als by {
                    if i == k {
                        assert(groups@[at as int].als == after[i].als);
                    } else {
                        let j = choose|j: int|
                            0 <= j < old_groups.len() && (#[trigger] old_groups[j]).als
                                == before[i].als;
                        assert(groups@[j].als == after[i].als);
                    }
                }
            }
        } else {
            proof {
                if present(before, entry.als) {
                    let i = choose|i: int|
                        0 <= i < before.len() && (#[trigger] before[i]).als == entry.als;
                    let j = choose|j: int|
                        0 <= j < old_groups.len() && (#[trigger] old_groups[j]).als
                            == before[i].als;
                    if j >= at {
                        assert(old_groups[at as int].als <= old_groups[j].als);
                    }
                    assert(false);
                }
                assert(total(before, entry.als) == 0);
            }
            groups.insert(
                at,
                Group { als: entry.als, total: entry.brightness as u128, count: 1 },
            );
            proof {
                assert forall|i: int, j: int| 0 <= i < j < groups@.len() implies groups@[i].als
                    < groups@[j].als by {
                    let a = if i < at {
                        i
                    } else {
                        i - 1
                    };
                    let b = if j < at {
                        j
                    } else {
                        j - 1
                    };
                    if i != at {
                        assert(groups@[i] == old_groups[a]);
                        if i > at {
                            assert(old_groups[at as int].als <= old_groups[a].als);
                        }
                    }
                    if j != at {
                        assert(groups@[j] == old_groups[b]);
                        if j > at {
                            assert(old_groups[at as int].als <= old_groups[b].als);
                        }
                    }
                }
                assert forall|i: int| 0 <= i < groups@.len() implies present(
                    after,
                    (#[trigger] groups@[i]).als,
                ) && groups@[i].total == total(after, groups@[i].als) && groups@[i].count == count(
                    after,
                    groups@[i].als,
                ) by {
                    if i < at {
                        assert(groups@[i] == old_groups[i]);
                    } else if i > at {
                        assert(groups@[i] == old_groups[i - 1]);
                        assert(old_groups[at as int].als <= old_groups[i - 1].als);
                    }
                }
                assert forall|i: int| 0 <= i < after.len() implies exists|j: int|
                    0 <= j < groups@.len() && (#[trigger] groups@[j]).als == (#[trigger] after[i]).als by {
                    if i == k {
                        assert(groups@[at as int].als == after[i].als);
                    } else {
                        let j = choose|j: int|
                            0 <= j < old_groups.len() && (#[trigger] old_groups[j]).als
                                == before[i].als;
                        if j < at {
                            assert(groups@[j].als == after[i].als);
                        } else {
                            assert(groups@[j + 1].als == after[i].als);
                        }
                    }
                }
            }
        }
        k += 1;
    }
    assert(entries@.take(k as int) =~= entries@);
    let mut projected: Vec<Entry> = Vec::new();
    let mut i: usize = 0;
    while i < groups.len()
        invariant
            i <= groups.len(),
            groups@.len() <= entries@.len(),
            grouped(groups@, entries@),
            projected@.len() == i,
            forall|j: int|
                0 <= j < i ==> (#[trigger] projected@[j]).als == groups@[j].als && projected@[j].luma
                    == 0 && projected@[j].brightness == average(entries@, groups@[j].als),
        decreases groups.len() - i,
    {
        let group = groups[i];
        proof {
            lemma_totals(entries@, group.als);
            lemma_average(group.total as int, group.count as int);
            assert(entries@.len() == entries.len());
            assert(count(entries@, group.als) * u64::MAX + count(entries@, group.als) <= u128::MAX)
                by (nonlinear_arith)
                requires
                    count(entries@, group.als) <= usize::MAX,
                    usize::MAX <= u64::MAX,
            ;
        }
        let half: u128 = group.count as u128 / 2;
        let value: u128 = (group.total + half) / group.count as u128;
        projected.push(Entry::new(group.als, 0, value as u64));
        i += 1;
    }
    proof {
        assert forall|j: int| 0 <= j < entries@.len() implies present(
            projected@,
            (#[trigger] entries@[j]).als,
        ) by {
            let g = choose|g: int|
                0 <= g < groups@.len() && (#[trigger] groups@[g]).als == entries@[j].als;
            assert(projected@[g].als == entries@[j].als);
        }
    }
    projected
}

/// The order of learned observations: by reading, then by luma.
pub open spec fn in_order(first: Entry, second: Entry) -> bool {
    first.als < second.als || (first.als == second.als && first.luma <= second.luma)
}

pub open spec fn sorted(entries: Seq<Entry>) -> bool {
    forall|i: int, j: int| 0 <= i < j < entries.len() ==> in_order(entries[i], entries[j])
}

/// The observations that are too far away to be replaced.
pub open spec fn distant(entries: Seq<Entry>, distances: Seq<u64>) -> Seq<Entry>
    decreases entries.len(),
{
    if entries.len() == 0 {
        Seq::empty()
    } else {
        let front = distant(entries.drop_last(), distances.drop_last());
        if distances.last() <= REPLACEMENT_DISTANCE {
            front
        } else {
            front.push(entries.last())
        }
    }
}

/// Adds an observation to ordered ones at its place.
fn insert_sorted(entries: &mut Vec<Entry>, entry: Entry)
    requires
        sorted(old(entries)@),
    ensures
        sorted(final(entries)@),
        final(entries)@.to_multiset() == old(entries)@.to_multiset().insert(entry),
        final(entries)@.len() == old(entries)@.len() + 1,
{
    let mut at: usize = 0;
    while at < entries.len() && (entries[at].als < entry.als || (entries[at].als == entry.als
        && entries[at].luma <= entry.luma))
        invariant
            at <= entries.len(),
            entries@ == old(entries)@,
            forall|i: int| 0 <= i < at ==> in_order(#[trigger] entries@[i], entry),
        decreases entries.len() - at,
    {
        at += 1;
    }
    let ghost before = entries@;
    entries.insert(at, entry);
    proof {
        before.to_multiset_ensures();
        vstd::seq_lib::to_multiset_insert(before, at as int, entry);
        assert forall|i: int, j: int| 0 <= i < j < entries@.len() implies in_order(
            entries@[i],
            entries@[j],
        ) by {
            let a = if i < at {
                i
            } else {
                i - 1
            };
            let b = if j < at {
                j
            } else {
                j - 1
            };
            if i != at {
                assert(entries@[i] == before[a]);
                if i > at {
                    assert(a == at || in_order(before[at as int], before[a]));
                }
            }
            if j != at {
                assert(entries@[j] == before[b]);
                if j > at {
                    assert(b == at || in_order(before[at as int], before[b]));
                }
            }
        }
    }
}

/// What a controller wants done.
#[derive(Clone, Copy, Debug, PartialEq, Eq, Structural)]
pub enum Action {
    /// Nothing.
    Wait,
    /// Learn the pending observation.
    Learn,
    /// Predict for this reading and this luma.
    Predict(u64, u8),
}

/// Learns one kind of value for one output, and predicts it.
#[derive(Debug)]
pub struct Controller {
    pub pending_cooldown: Cooldown,
    /// What the user chose last, until it is learned.
    pub pending: Option<Entry>,
    pub data: Data,
    /// What was learned is written down.
    pub stateful: bool,
    pub initial_brightness: Option<u64>,
    pub learn_initial: bool,
    pub luma_aware: bool,
    pub last_als: Option<Reading>,
    pub output_name: String,
    pub scale: Scale,
    pub als_direction: AlsDirection,
    pub luma_direction: LumaDirection,
    /// The surface through what was learned, once it was needed.
    pub model: Option<Model>,
    pub kind: Kind,
}

impl Controller {
    /// Whether observations are those that predictions go by: all of them, or those without regard to
    /// luma.
    pub open spec fn observed(&self, entries: Seq<Entry>) -> bool {
        if self.luma_aware {
            entries == self.data.entries@
        } else {
            collapsed(self.data.entries@, entries)
        }
    }

    /// Whether a surface is the one through what was learned.
    pub open spec fn current(&self, model: Model) -> bool {
        &&& model.well_formed()
        &&& model.scale == self.scale
        &&& model.als_direction == self.als_direction
        &&& model.luma_direction == self.luma_direction
        &&& model.luma_aware == self.luma_aware
        &&& exists|coordinate: spec_fn(u64) -> u64| #[trigger] self.fits(model, coordinate)
    }

    /// Whether a surface goes through what was learned, with these coordinates of the readings.
    pub open spec fn fits(&self, model: Model, coordinate: spec_fn(u64) -> u64) -> bool {
        exists|entries: Seq<Entry>| #[trigger]
            self.observed(entries) && entries.len() > 0 && model.fitted(
                samples(entries, coordinate),
            )
    }

    /// The surface is never out of date.
    pub open spec fn well_formed(&self) -> bool {
        self.model matches Some(model) ==> self.current(model)
    }

    /// A controller of brightness.
    pub fn new(
        stateful: bool,
        output_name: &str,
        scale: Scale,
        legacy_thresholds: &HashMap<u64, String>,
        stored: Option<StoredData>,
        profiles: &Vec<Profile>,
    ) -> (created: (Self, bool))
        ensures
            created.0.well_formed(),
            created.0.fresh(stateful, output_name@, scale, Kind::Brightness),
            created.0.loads(stored, profiles@),
            created.0.data.thresholds@ == legacy_thresholds@,
            created.1 == (stateful && stored is Some && (stored->0).migrates(Kind::Brightness)),
    {
        Controller::new_kind(
            stateful,
            output_name,
            scale,
            legacy_thresholds,
            Kind::Brightness,
            stored,
            profiles,
        )
    }

    /// The state of a controller that saw nothing yet.
    pub open spec fn fresh(&self, stateful: bool, output_name: Seq<char>, scale: Scale, kind: Kind) -> bool {
        &&& self.pending_cooldown.until is None
        &&& self.pending is None
        &&& self.data.output_name@ == output_name
        &&& self.data.kind == kind
        &&& self.data.scale == scale
        &&& self.stateful == stateful
        &&& self.initial_brightness is None
        &&& self.learn_initial
        &&& self.luma_aware
        &&& self.last_als is None
        &&& self.output_name@ == output_name
        &&& self.scale == scale
        &&& self.als_direction == AlsDirection::Increasing
        &&& self.luma_direction == LumaDirection::Decreasing
        &&& self.model is None
        &&& self.kind == kind
    }

    /// Whether the controller knows what was stored, if it is to.
    pub open spec fn loads(&self, stored: Option<StoredData>, profiles: Seq<Profile>) -> bool {
        if self.stateful && stored is Some {
            let stored = stored->0;
            &&& self.data.entries@ == data::migrated_entries(stored.entries.of(self.kind), profiles)
            &&& data::legacy_view(self.data.legacy_entries_v1) == data::appended(
                data::legacy_view(stored.legacy_entries_v1),
                data::profile_entries(stored.entries.of(self.kind)),
            )
        } else {
            &&& self.data.entries@.len() == 0
            &&& self.data.legacy_entries_v1 is None
        }
    }

    /// A controller of a kind of value, with what was stored of it. The second result says whether to
    /// write it down again in its present form.
    pub fn new_kind(
        stateful: bool,
        output_name: &str,
        scale: Scale,
        legacy_thresholds: &HashMap<u64, String>,
        kind: Kind,
        stored: Option<StoredData>,
        profiles: &Vec<Profile>,
    ) -> (created: (Self, bool))
        ensures
            created.0.well_formed(),
            created.0.fresh(stateful, output_name@, scale, kind),
            created.0.loads(stored, profiles@),
            created.0.data.thresholds@ == legacy_thresholds@,
            created.1 == (stateful && stored is Some && (stored->0).migrates(kind)),
    {
        let (data, migrated) = if stateful {
            Data::load_kind(output_name, kind, stored, legacy_thresholds, profiles, scale)
        } else {
            (Data::new_kind(output_name, kind, scale, legacy_thresholds), false)
        };
        let controller = Controller {
            pending_cooldown: Cooldown::new(),
            pending: None,
            data,
            stateful,
            initial_brightness: None,
            learn_initial: true,
            luma_aware: true,
            last_als: None,
            output_name: output_name.to_owned(),
            scale,
            als_direction: AlsDirection::Increasing,
            luma_direction: LumaDirection::Decreasing,
            model: None,
            kind,
        };
        (controller, migrated)
    }

    /// The controller that does not learn the value that it finds.
    pub fn without_initial_value(self) -> (controller: Self)
        requires
            self.well_formed(),
        ensures
            controller.well_formed(),
            controller == (Controller { learn_initial: false, ..self }),
    {
        let controller = Controller { learn_initial: false, ..self };
        proof {
            lemma_same_observations(self, controller);
        }
        controller
    }

    /// The controller that predicts without regard to luma.
    pub fn without_luma(self) -> (controller: Self)
        ensures
            controller.well_formed(),
            controller == (Controller { luma_aware: false, model: None, ..self }),
    {
        Controller { luma_aware: false, model: None, ..self }
    }

    pub fn with_als_direction(self, als_direction: AlsDirection) -> (controller: Self)
        ensures
            controller.well_formed(),
            controller == (Controller { als_direction, model: None, ..self }),
    {
        Controller { als_direction, model: None, ..self }
    }

    pub fn with_luma_direction(self, luma_direction: LumaDirection) -> (controller: Self)
        ensures
            controller.well_formed(),
            controller == (Controller { luma_direction, model: None, ..self }),
    {
        Controller { luma_direction, model: None, ..self }
    }

    /// Whether the controller still waits for its first inputs.
    pub fn is_starting(&self) -> (starting: bool)
        ensures
            starting == (self.last_als is None),
    {
        self.last_als.is_none()
    }

    /// The state without what the user chose.
    pub open spec fn forgetful(self, last_als: Option<Reading>) -> Controller {
        Controller {
            last_als,
            initial_brightness: None,
            pending: None,
            pending_cooldown: Cooldown { until: None },
            ..self
        }
    }

    /// Forgets what the user chose while the controller is disabled. A starting controller takes its
    /// first reading; a later one takes its place.
    pub fn discard_inputs(&mut self, first: Option<Reading>, latest: Option<Reading>)
        requires
            old(self).well_formed(),
            old(self).last_als is None ==> first is Some,
        ensures
            final(self).well_formed(),
            *final(self) == old(self).forgetful(
                if latest is Some {
                    latest
                } else if old(self).last_als is None {
                    first
                } else {
                    old(self).last_als
                },
            ),
    {
        if self.last_als.is_none() {
            self.last_als = first;
        }
        if latest.is_some() {
            self.last_als = latest;
        }
        self.initial_brightness = None;
        self.pending = None;
        self.pending_cooldown.clear();
        proof {
            lemma_same_observations(*old(self), *self);
        }
    }

    /// Forgets what cannot be matched to a frame. Without a current frame, queued changes cannot be
    /// associated with the luma at which they happened. A starting controller keeps its inputs.
    pub fn discard_stale_inputs(&mut self, latest: Option<Reading>)
        requires
            old(self).well_formed(),
        ensures
            final(self).well_formed(),
            *final(self) == (if old(self).last_als is None {
                *old(self)
            } else {
                old(self).forgetful(
                    if latest is Some {
                        latest
                    } else {
                        old(self).last_als
                    },
                )
            }),
    {
        if self.last_als.is_none() {
            return;
        }
        if latest.is_some() {
            self.last_als = latest;
        }
        self.initial_brightness = None;
        self.pending = None;
        self.pending_cooldown.clear();
        proof {
            lemma_same_observations(*old(self), *self);
        }
    }

    /// The state with the first inputs, where they are still waited for. The value that is found is
    /// the first thing to learn where nothing was learned yet.
    pub open spec fn started(self, first: Option<(Reading, u64)>) -> Controller {
        if self.last_als is None && first is Some {
            let (reading, value) = first->0;
            Controller {
                last_als: Some(reading),
                initial_brightness: if self.learn_initial && self.data.entries@.len() == 0 {
                    Some(value)
                } else {
                    self.initial_brightness
                },
                ..self
            }
        } else {
            self
        }
    }

    /// The state with a later reading, if there is one.
    pub open spec fn informed(self, latest: Option<Reading>) -> Controller {
        if latest is Some {
            Controller { last_als: latest, ..self }
        } else {
            self
        }
    }

    /// What follows a frame at a reading, where the user may have chosen another value.
    pub open spec fn processed(self, reading: Reading, luma: u8, user: Option<u64>, now: u64) -> (
        Action,
        Controller,
    ) {
        let taken = Controller { initial_brightness: None, ..self };
        let chosen = if user is Some {
            user
        } else {
            self.initial_brightness
        };
        match chosen {
            Some(brightness) => {
                let als = match self.pending {
                    Some(pending) if !reading.stable => pending.als,
                    _ => reading.value,
                };
                (
                    Action::Wait,
                    Controller {
                        pending: Some(Entry { als, luma, brightness }),
                        pending_cooldown: Cooldown { until: Some((now + PENDING_COOLDOWN) as u64) },
                        ..taken
                    },
                )
            },
            None => if !reading.stable {
                (Action::Wait, taken)
            } else {
                let waits = self.pending_cooldown.active(now);
                let cooled = Controller {
                    pending_cooldown: if waits {
                        self.pending_cooldown
                    } else {
                        Cooldown { until: None }
                    },
                    ..taken
                };
                match self.pending {
                    Some(pending) => (
                        if waits {
                            Action::Wait
                        } else {
                            Action::Learn
                        },
                        Controller { pending: Some(Entry { als: reading.value, ..pending }), ..cooled },
                    ),
                    None => (
                        if waits {
                            Action::Wait
                        } else {
                            Action::Predict(reading.value, luma)
                        },
                        cooled,
                    ),
                }
            },
        }
    }

    /// Takes in a frame's luma, with the first reading and value where they are waited for, the latest
    /// reading, and the value that the user chose meanwhile.
    pub fn adjust(
        &mut self,
        first: Option<(Reading, u64)>,
        latest: Option<Reading>,
        user: Option<u64>,
        luma: u8,
        now: u64,
    ) -> (action: Action)
        requires
            old(self).well_formed(),
            old(self).last_als is None ==> first is Some,
            now + PENDING_COOLDOWN <= u64::MAX,
        ensures
            final(self).well_formed(),
            ({
                let known = old(self).started(first).informed(latest);
                (action, *final(self)) == known.processed(known.last_als->0, luma, user, now)
            }),
    {
        if self.last_als.is_none() {
            if let Some((reading, value)) = first {
                self.last_als = Some(reading);
                if self.learn_initial && self.data.entries.len() == 0 {
                    self.initial_brightness = Some(value);
                }
            }
        }
        if latest.is_some() {
            self.last_als = latest;
        }
        proof {
            lemma_same_observations(*old(self), *self);
        }
        match self.last_als {
            Some(reading) => self.process_reading(reading, luma, user, now),
            None => Action::Wait,
        }
    }

    /// Decides on a frame at a reading. A value that the user chose is pending until it was not
    /// changed for a while; only stable readings are learned from and predicted for.
    pub fn process_reading(&mut self, reading: Reading, luma: u8, user: Option<u64>, now: u64) -> (action: Action)
        requires
            old(self).well_formed(),
            now + PENDING_COOLDOWN <= u64::MAX,
        ensures
            final(self).well_formed(),
            (action, *final(self)) == old(self).processed(reading, luma, user, now),
            action matches Action::Predict(als, at) ==> als == reading.value && at == luma,
    {
        let chosen: Option<u64> = if user.is_some() {
            user
        } else {
            self.initial_brightness
        };
        self.initial_brightness = None;
        if let Some(brightness) = chosen {
            let als: u64 = match self.pending {
                None => reading.value,
                Some(pending) => if reading.stable {
                    reading.value
                } else {
                    pending.als
                },
            };
            self.pending = Some(Entry::new(als, luma, brightness));
            self.pending_cooldown.reset(now, PENDING_COOLDOWN);
            proof {
                lemma_same_observations(*old(self), *self);
            }
            return Action::Wait;
        }
        if !reading.stable {
            proof {
                lemma_same_observations(*old(self), *self);
            }
            return Action::Wait;
        }
        let waits = self.pending_cooldown.is_active(now);
        if !waits {
            self.pending_cooldown.clear();
        }
        let action = match self.pending {
            Some(pending) => {
                self.pending = Some(Entry::new(reading.value, pending.luma, pending.brightness));
                if waits {
                    Action::Wait
                } else {
                    Action::Learn
                }
            },
            None => if waits {
                Action::Wait
            } else {
                Action::Predict(reading.value, luma)
            },
        };
        proof {
            lemma_same_observations(*old(self), *self);
        }
        action
    }

    /// The luma that counts.
    pub open spec fn spec_luma(&self, luma: u8) -> u8 {
        if self.luma_aware {
            luma
        } else {
            0
        }
    }

    pub fn luma(&self, luma: u8) -> (counts: u8)
        ensures
            counts == self.spec_luma(luma),
    {
        if self.luma_aware {
            luma
        } else {
            0
        }
    }

    /// Learns the pending observation in place of the near ones. For each observation the caller gives
    /// its distance from the pending one, as the bits of a double-precision number. Returns whether to
    /// write down what was learned.
    pub fn learn(&mut self, distances: &Vec<u64>) -> (save: bool)
        requires
            old(self).pending is Some,
            distances.len() == old(self).data.entries.len(),
            old(self).data.entries.len() < usize::MAX,
        ensures
            final(self).well_formed(),
            save == old(self).stateful,
            sorted(final(self).data.entries@),
            final(self).data.entries@.to_multiset() == distant(
                old(self).data.entries@,
                distances@,
            ).push(old(self).pending->0).to_multiset(),
            // The pending observation is there, with the earlier ones that are far away and no others.
            final(self).data.entries@.contains(old(self).pending->0),
            forall|i: int|
                0 <= i < distances@.len() && distances@[i] > REPLACEMENT_DISTANCE
                    ==> final(self).data.entries@.contains(#[trigger] old(self).data.entries@[i]),
            forall|j: int|
                0 <= j < final(self).data.entries@.len() ==> #[trigger] final(self).data.entries@[j]
                    == old(self).pending->0 || exists|i: int|
                    0 <= i < distances@.len() && distances@[i] > REPLACEMENT_DISTANCE
                        && #[trigger] old(self).data.entries@[i] == final(self).data.entries@[j],
            *final(self) == (Controller {
                pending: None,
                model: None,
                data: Data { entries: final(self).data.entries, ..old(self).data },
                ..*old(self)
            }),
    {
        let mut entries: Vec<Entry> = Vec::new();
        let ghost all = self.data.entries@;
        let ghost far = distances@;
        let mut i: usize = 0;
        assert(all.take(0) =~= Seq::empty());
        while i < distances.len()
            invariant
                *self == *old(self),
                i <= distances.len(),
                all == self.data.entries@,
                far == distances@,
                distances.len() == self.data.entries.len(),
                sorted(entries@),
                entries@.len() <= i,
                entries@.to_multiset() == distant(all.take(i as int), far.take(i as int)).to_multiset(),
            decreases distances.len() - i,
        {
            proof {
                let more = all.take(i + 1);
                let farther = far.take(i + 1);
                assert(more.drop_last() =~= all.take(i as int));
                assert(farther.drop_last() =~= far.take(i as int));
                assert(more.last() == all[i as int]);
                assert(farther.last() == far[i as int]);
                vstd::seq_lib::to_multiset_build(
                    distant(all.take(i as int), far.take(i as int)),
                    all[i as int],
                );
            }
            if distances[i] > REPLACEMENT_DISTANCE {
                insert_sorted(&mut entries, self.data.entries[i]);
            }
            i += 1;
        }
        assert(all.take(i as int) =~= all);
        assert(far.take(i as int) =~= far);
        if let Some(pending) = self.pending {
            proof {
                vstd::seq_lib::to_multiset_build(distant(all, far), pending);
            }
            insert_sorted(&mut entries, pending);
            proof {
                super::adaptive_laws::law_learning_replaces_near_observations_only(
                    all,
                    far,
                    pending,
                    entries@,
                );
            }
        }
        self.pending = None;
        self.data.entries = entries;
        self.model = None;
        self.stateful
    }

    /// Makes sure that the surface is there, unless nothing was learned yet. The caller gives the
    /// coordinate of the reading of each observation.
    pub fn prepare(&mut self, coordinates: &Vec<u64>)
        requires
            old(self).well_formed(),
            (old(self).data.entries@.len() + 2) * LUMA_LEVELS <= usize::MAX,
            coordinates@.len() == old(self).data.entries@.len(),
            forall|i: int|
                0 <= i < coordinates@.len() ==> #[trigger] coordinates@[i] < INFINITE_BITS,
        ensures
            final(self).well_formed(),
            *final(self) == (Controller { model: final(self).model, ..*old(self) }),
            old(self).model is Some ==> final(self).model == old(self).model,
            old(self).model is None ==> (final(self).model is Some <==> old(self).data.entries@.len()
                > 0),
            old(self).model is None && final(self).model is Some ==> final(self).fits(
                final(self).model->0,
                table(old(self).data.entries@, coordinates@),
            ),
    {
        if self.model.is_some() {
            return;
        }
        let ghost coordinate = table(self.data.entries@, coordinates@);
        let model = if self.luma_aware {
            let list = to_samples(&self.data.entries, &self.data.entries, coordinates);
            Model::fit(
                list.as_slice(),
                self.scale,
                self.als_direction,
                self.luma_direction,
                true,
            )
        } else {
            let projected = collapse_luma(&self.data.entries);
            proof {
                assert((projected@.len() + 2) * LUMA_LEVELS <= (self.data.entries@.len() + 2)
                    * LUMA_LEVELS) by (nonlinear_arith)
                    requires
                        projected@.len() <= self.data.entries@.len(),
                ;
                if self.data.entries@.len() > 0 {
                    assert(present(projected@, self.data.entries@[0].als));
                }
                if projected@.len() > 0 {
                    assert(present(self.data.entries@, projected@[0].als));
                }
                assert(self.observed(projected@));
            }
            let list = to_samples(&projected, &self.data.entries, coordinates);
            Model::fit(
                list.as_slice(),
                self.scale,
                self.als_direction,
                self.luma_direction,
                false,
            )
        };
        proof {
            if self.luma_aware {
                assert(self.observed(self.data.entries@));
            }
        }
        let ghost before = *self;
        self.model = model;
        proof {
            if self.model is Some {
                let model = self.model->0;
                if before.luma_aware {
                    assert(self.observed(self.data.entries@));
                } else {
                    let entries = choose|entries: Seq<Entry>| #[trigger]
                        before.observed(entries) && entries.len() > 0 && model.fitted(
                            samples(entries, coordinate),
                        );
                    assert(self.observed(entries));
                }
                assert(self.fits(model, coordinate));
            }
        }
    }

    /// The value of a surface for a condition, whose reading is told as its coordinate.
    pub open spec fn value(&self, model: Model, coordinate: u64, luma: u8) -> int {
        let value = double::round(model.predicted(coordinate, self.spec_luma(luma)));
        if value <= u64::MAX {
            value
        } else {
            u64::MAX as int
        }
    }

    /// The value that is predicted for a condition, once the surface is there. The reading is told as
    /// its coordinate.
    pub fn predict(&self, coordinate: u64, luma: u8) -> (prediction: Option<u64>)
        requires
            self.well_formed(),
        ensures
            match self.model {
                Some(model) => prediction matches Some(value) && value == self.value(
                    model,
                    coordinate,
                    luma,
                ),
                None => prediction is None,
            },
    {
        let luma: u8 = self.luma(luma);
        match &self.model {
            Some(model) => Some(model.predict(coordinate, luma).rounded()),
            None => None,
        }
    }

    /// The value that is predicted for a condition on a linear scale, unless nothing was learned yet.
    pub fn predict_linear(&mut self, als: u64, luma: u8) -> (prediction: Option<u64>)
        requires
            old(self).well_formed(),
            (old(self).data.entries@.len() + 2) * LUMA_LEVELS <= usize::MAX,
        ensures
            final(self).well_formed(),
            *final(self) == (Controller { model: final(self).model, ..*old(self) }),
            old(self).model is Some ==> final(self).model == old(self).model,
            old(self).model is None ==> (final(self).model is Some <==> old(self).data.entries@.len()
                > 0),
            match final(self).model {
                Some(model) => prediction matches Some(value) && value == final(self).value(
                    model,
                    monotonic::spec_linear_coordinate(als),
                    luma,
                ),
                None => prediction is None,
            },
            old(self).model is None && final(self).model is Some ==> final(self).fits(
                final(self).model->0,
                |reading: u64| monotonic::spec_linear_coordinate(reading),
            ),
    {
        let mut coordinates: Vec<u64> = Vec::new();
        let mut i: usize = 0;
        while i < self.data.entries.len()
            invariant
                *self == *old(self),
                i <= self.data.entries.len(),
                coordinates@.len() == i,
                forall|j: int|
                    0 <= j < i ==> #[trigger] coordinates@[j] == monotonic::spec_linear_coordinate(
                        self.data.entries@[j].als,
                    ) && coordinates@[j] < INFINITE_BITS,
            decreases self.data.entries.len() - i,
        {
            coordinates.push(linear_coordinate(self.data.entries[i].als));
            i += 1;
        }
        let ghost before = *self;
        self.prepare(&coordinates);
        proof {
            if before.model is None && self.model is Some {
                let all = before.data.entries@;
                let linear = |reading: u64| monotonic::spec_linear_coordinate(reading);
                let entries = choose|entries: Seq<Entry>| #[trigger]
                    self.observed(entries) && entries.len() > 0 && self.model->0.fitted(
                        samples(entries, table(all, coordinates@)),
                    );
                assert(samples(entries, table(all, coordinates@)) =~= samples(entries, linear)) by {
                    assert forall|k: int| 0 <= k < entries.len() implies table(all, coordinates@)(
                        (#[trigger] entries[k]).als,
                    ) == linear(entries[k].als) by {
                        if before.luma_aware {
                            assert(all[k].als == entries[k].als);
                            assert(present(all, entries[k].als));
                        } else {
                            assert(present(entries, entries[k].als));
                        }
                        lemma_lookup_linear(all, coordinates@, entries[k].als);
                    }
                }
                assert(self.fits(self.model->0, linear));
            }
        }
        self.predict(linear_coordinate(als), luma)
    }
}

/// The coordinate of the last observation with a reading.
pub open spec fn lookup(entries: Seq<Entry>, coordinates: Seq<u64>, als: u64) -> u64
    decreases entries.len(),
{
    if entries.len() == 0 {
        0
    } else if entries.last().als == als {
        coordinates.last()
    } else {
        lookup(entries.drop_last(), coordinates.drop_last(), als)
    }
}

/// The coordinates of readings by the observations that have them.
pub open spec fn table(entries: Seq<Entry>, coordinates: Seq<u64>) -> spec_fn(u64) -> u64 {
    |als: u64| lookup(entries, coordinates, als)
}

/// What was learned, with the readings told as their coordinates.
pub open spec fn samples(entries: Seq<Entry>, coordinate: spec_fn(u64) -> u64) -> Seq<Sample> {
    entries.map_values(
        |entry: Entry| Sample {
            als: coordinate(entry.als),
            luma: entry.luma,
            brightness: entry.brightness,
        },
    )
}

proof fn lemma_lookup_linear(entries: Seq<Entry>, coordinates: Seq<u64>, als: u64)
    requires
        coordinates.len() == entries.len(),
        present(entries, als),
        forall|j: int|
            0 <= j < entries.len() ==> #[trigger] coordinates[j] == monotonic::spec_linear_coordinate(
                entries[j].als,
            ),
    ensures
        lookup(entries, coordinates, als) == monotonic::spec_linear_coordinate(als),
    decreases entries.len(),
{
    let i = choose|i: int| 0 <= i < entries.len() && (#[trigger] entries[i]).als == als;
    if entries.last().als == als {
        assert(coordinates[entries.len() - 1] == monotonic::spec_linear_coordinate(als));
    } else {
        let front = entries.drop_last();
        assert(front[i].als == als);
        assert forall|j: int| 0 <= j < front.len() implies #[trigger] coordinates.drop_last()[j]
            == monotonic::spec_linear_coordinate(front[j].als) by {
            assert(coordinates[j] == monotonic::spec_linear_coordinate(entries[j].als));
        }
        lemma_lookup_linear(front, coordinates.drop_last(), als);
    }
}

/// The coordinate of a reading that some observation has.
fn find_coordinate(entries: &Vec<Entry>, coordinates: &Vec<u64>, als: u64) -> (coordinate: u64)
    requires
        coordinates@.len() == entries@.len(),
        forall|i: int| 0 <= i < coordinates@.len() ==> #[trigger] coordinates@[i] < INFINITE_BITS,
    ensures
        coordinate == lookup(entries@, coordinates@, als),
        coordinate < INFINITE_BITS,
{
    let mut coordinate: u64 = 0;
    let mut i: usize = 0;
    while i < entries.len()
        invariant
            i <= entries.len(),
            coordinates@.len() == entries@.len(),
            forall|j: int| 0 <= j < coordinates@.len() ==> #[trigger] coordinates@[j] < INFINITE_BITS,
            coordinate == lookup(entries@.take(i as int), coordinates@.take(i as int), als),
            coordinate < INFINITE_BITS,
        decreases entries.len() - i,
    {
        proof {
            assert(entries@.take(i + 1).drop_last() =~= entries@.take(i as int));
            assert(coordinates@.take(i + 1).drop_last() =~= coordinates@.take(i as int));
        }
        if entries[i].als == als {
            coordinate = coordinates[i];
        }
        i += 1;
    }
    proof {
        assert(entries@.take(i as int) =~= entries@);
        assert(coordinates@.take(i as int) =~= coordinates@);
    }
    coordinate
}

fn to_samples(entries: &Vec<Entry>, all: &Vec<Entry>, coordinates: &Vec<u64>) -> (list: Vec<Sample>)
    requires
        coordinates@.len() == all@.len(),
        forall|i: int| 0 <= i < coordinates@.len() ==> #[trigger] coordinates@[i] < INFINITE_BITS,
    ensures
        list@ == samples(entries@, table(all@, coordinates@)),
        monotonic::finite(list@),
{
    let mut list: Vec<Sample> = Vec::new();
    let mut i: usize = 0;
    while i < entries.len()
        invariant
            i <= entries.len(),
            coordinates@.len() == all@.len(),
            forall|j: int| 0 <= j < coordinates@.len() ==> #[trigger] coordinates@[j] < INFINITE_BITS,
            list@.len() == i,
            forall|j: int|
                0 <= j < i ==> #[trigger] list@[j] == samples(
                    entries@,
                    table(all@, coordinates@),
                )[j] && list@[j].als < INFINITE_BITS,
        decreases entries.len() - i,
    {
        let entry = entries[i];
        list.push(
            Sample {
                als: find_coordinate(all, coordinates, entry.als),
                luma: entry.luma,
                brightness: entry.brightness,
            },
        );
        i += 1;
    }
    assert(list@ =~= samples(entries@, table(all@, coordinates@)));
    list
}

proof fn lemma_same_observations(before: Controller, after: Controller)
    requires
        before.well_formed(),
        after.model == before.model,
        after.data == before.data,
        after.luma_aware == before.luma_aware,
        after.scale == before.scale,
        after.als_direction == before.als_direction,
        after.luma_direction == before.luma_direction,
    ensures
        after.well_formed(),
{
    if let Some(model) = before.model {
        let coordinate = choose|coordinate: spec_fn(u64) -> u64| #[trigger]
            before.fits(model, coordinate);
        let entries = choose|entries: Seq<Entry>| #[trigger]
            before.observed(entries) && entries.len() > 0 && model.fitted(
                samples(entries, coordinate),
            );
        assert(after.observed(entries));
        assert(after.fits(model, coordinate));
    }
}

/// An unstable reading is neither learned from nor predicted for.
pub proof fn law_unstable_readings_are_waited_out(
    controller: Controller,
    reading: Reading,
    luma: u8,
    user: Option<u64>,
    now: u64,
)
    requires
        !reading.stable,
    ensures
        controller.processed(reading, luma, user, now).0 == Action::Wait,
        user is None && controller.initial_brightness is None ==> controller.processed(
            reading,
            luma,
            user,
            now,
        ).1 == controller,
{
}

/// A value that the user chose is learned as it is, at a luma at which it was chosen, and not before
/// it was left alone for a while.
pub proof fn law_choices_are_learned_after_the_cooldown(
    controller: Controller,
    reading: Reading,
    luma: u8,
    chosen: u64,
    now: u64,
    later_reading: Reading,
    later_luma: u8,
    later: u64,
)
    requires
        reading.stable,
        later_reading.stable,
        now + PENDING_COOLDOWN <= u64::MAX,
        now <= later,
    ensures
        ({
            let waiting = controller.processed(reading, luma, Some(chosen), now).1;
            let (action, after) = waiting.processed(later_reading, later_luma, None, later);
            &&& action == if later < now + PENDING_COOLDOWN {
                Action::Wait
            } else {
                Action::Learn
            }
            &&& after.pending == Some(Entry { als: later_reading.value, luma, brightness: chosen })
        }),
{
}

/// Nothing is predicted while a choice of the user is pending.
pub proof fn law_pending_choices_suspend_predictions(
    controller: Controller,
    reading: Reading,
    luma: u8,
    user: Option<u64>,
    now: u64,
)
    requires
        controller.pending is Some || user is Some || controller.initial_brightness is Some,
    ensures
        !(controller.processed(reading, luma, user, now).0 is Predict),
{
}

/// What was learned is predicted again: at the condition of an observation that does not contradict
/// any other one, the surface has its value.
pub proof fn law_consistent_choices_are_predicted(
    controller: Controller,
    coordinate: spec_fn(u64) -> u64,
    index: int,
)
    requires
        controller.well_formed(),
        controller.model is Some,
        controller.fits(controller.model->0, coordinate),
        controller.luma_aware,
        0 <= index < controller.data.entries@.len(),
        controller.data.entries@[index].brightness < double::LIMIT,
        super::surface::consistent(
            controller.model->0.points(samples(controller.data.entries@, coordinate)),
            index,
        ),
    ensures
        ({
            let entry = controller.data.entries@[index];
            controller.value(controller.model->0, coordinate(entry.als), entry.luma)
                == entry.brightness
        }),
{
    super::surface::law_consistent_observations_are_exact(
        controller.model->0,
        samples(controller.data.entries@, coordinate),
        index,
    );
}

/// Predictions of a controller that ignores luma are the same at every luma.
pub proof fn law_ignored_luma_has_no_influence(
    controller: Controller,
    model: Model,
    coordinate: u64,
    luma: u8,
    other: u8,
)
    requires
        !controller.luma_aware,
    ensures
        controller.value(model, coordinate, luma) == controller.value(model, coordinate, other),
{
}

/// A prediction is never above the greatest nor below the least value that it goes by.
pub proof fn law_predictions_stay_within_what_was_learned(
    controller: Controller,
    list: Seq<Sample>,
    coordinate: u64,
    luma: u8,
    least: int,
    greatest: int,
)
    requires
        controller.model matches Some(model) && model.well_formed() && model.fitted(list),
        list.len() > 0,
        forall|i: int|
            0 <= i < list.len() ==> least <= (#[trigger] list[i]).brightness <= greatest < super::surface::PRECISE,
    ensures
        least <= controller.value(controller.model->0, coordinate, luma) <= greatest,
{
    let model = controller.model->0;
    let points = model.points(list);
    assert(list[0].brightness <= greatest);
    super::surface::law_predictions_stay_within_observations(
        model,
        list,
        coordinate,
        controller.spec_luma(luma),
    );
    super::monotonic::lemma_extremes(points);
    assert forall|i: int| 0 <= i < points.len() implies least <= (#[trigger] points[i]).value
        <= greatest by {
        assert(points[i].value == list[i].brightness);
    }
}

} // verus!
