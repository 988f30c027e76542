//! What a learning controller promises.

use vstd::prelude::*;

use crate::als::{Reading, Scale};
use crate::double;
use crate::predictor::data;
use crate::predictor::data::{Entry, Kind, Profile, StoredData, StoredEntry};
use crate::predictor::AlsDirection;

use super::adaptive;
use super::adaptive::{Action, Controller, LumaDirection, REPLACEMENT_DISTANCE};
use super::monotonic::Model;
use super::{MAX_DISTANCE, PENDING_COOLDOWN};

verus! {

/// A prediction is only ever asked for at the reading that was measured and the luma of the frame. It
/// is asked for whenever the reading is stable, nothing is pending, nothing was chosen and no wait is
/// under way; while one is under way there is none.
pub proof fn law_predictions_are_for_what_was_measured(
    controller: Controller,
    reading: Reading,
    luma: u8,
    user: Option<u64>,
    now: u64,
)
    ensures
        controller.processed(reading, luma, user, now).0 matches Action::Predict(als, at) ==> als
            == reading.value && at == luma,
        reading.stable && user is None && controller.initial_brightness is None
            && controller.pending is None && (controller.pending_cooldown.until matches Some(until)
            ==> until <= now) ==> controller.processed(reading, luma, user, now).0
            == Action::Predict(reading.value, luma),
        (controller.pending_cooldown.until matches Some(until) && now < until)
            ==> !(controller.processed(reading, luma, user, now).0 is Predict),
{
}

/// Another reading or another luma changes what is predicted for, and nothing else of a frame.
pub proof fn law_predictions_follow_the_inputs(
    controller: Controller,
    reading: Reading,
    other: Reading,
    luma: u8,
    other_luma: u8,
    now: u64,
)
    requires
        controller.processed(reading, luma, None, now).0 is Predict,
        other.stable,
    ensures
        controller.processed(other, other_luma, None, now).0 is Predict,
        controller.processed(other, other_luma, None, now).1 == controller.processed(
            reading,
            luma,
            None,
            now,
        ).1,
        controller.processed(reading, luma, None, now).0 == controller.processed(
            other,
            other_luma,
            None,
            now,
        ).0 <==> reading.value == other.value && luma == other_luma,
{
}

/// What the user chose, or else the value that was found at the start, is pending at the condition in
/// which it was chosen, and is left alone for one and a half seconds from then on. An unstable reading does not take
/// the place of one that is pending already.
pub proof fn law_choices_become_pending(
    controller: Controller,
    reading: Reading,
    luma: u8,
    user: Option<u64>,
    now: u64,
    value: u64,
)
    requires
        now + PENDING_COOLDOWN <= u64::MAX,
        user == Some(value) || user is None && controller.initial_brightness == Some(value),
    ensures
        ({
            let (action, after) = controller.processed(reading, luma, user, now);
            &&& action == Action::Wait
            &&& after.pending is Some
            &&& after.pending->0.brightness == value
            &&& after.pending->0.luma == luma
            &&& reading.stable || controller.pending is None ==> after.pending->0.als
                == reading.value
            &&& !reading.stable && controller.pending is Some ==> after.pending->0.als
                == controller.pending->0.als
            &&& after.pending_cooldown.until is Some
            &&& after.pending_cooldown.until->0 == now + 1_500_000_000
        }),
{
}

/// What is pending keeps its value and its luma and follows the stable readings. It is learned with
/// the first stable reading after the wait, and not before.
pub proof fn law_pending_choices_follow_stable_readings(
    controller: Controller,
    reading: Reading,
    luma: u8,
    now: u64,
)
    requires
        controller.pending is Some,
        controller.initial_brightness is None,
    ensures
        ({
            let (action, after) = controller.processed(reading, luma, None, now);
            let waits = controller.pending_cooldown.until matches Some(until) && now < until;
            &&& after.pending is Some
            &&& after.pending->0.brightness == controller.pending->0.brightness
            &&& after.pending->0.luma == controller.pending->0.luma
            &&& reading.stable ==> after.pending->0.als == reading.value
            &&& !reading.stable ==> after.pending->0.als == controller.pending->0.als
            &&& action == Action::Learn <==> reading.stable && !waits
            &&& action == Action::Wait <==> !reading.stable || waits
            &&& reading.stable && !waits ==> after.pending_cooldown.until is None
            &&& !reading.stable || waits ==> after.pending_cooldown.until
                == controller.pending_cooldown.until
        }),
{
}

/// Without a choice nothing becomes pending.
pub proof fn law_nothing_is_learned_without_a_choice(
    controller: Controller,
    reading: Reading,
    luma: u8,
    now: u64,
)
    requires
        controller.pending is None,
        controller.initial_brightness is None,
    ensures
        controller.processed(reading, luma, None, now).1.pending is None,
        controller.processed(reading, luma, None, now).0 != Action::Learn,
{
}

/// A frame touches nothing but what is pending and how long to wait, and uses up the value that was
/// found at the start.
pub proof fn law_frames_leave_what_was_learned(
    controller: Controller,
    reading: Reading,
    luma: u8,
    user: Option<u64>,
    now: u64,
)
    ensures
        ({
            let after = controller.processed(reading, luma, user, now).1;
            &&& after.initial_brightness is None
            &&& after.data == controller.data
            &&& after.model == controller.model
            &&& after.stateful == controller.stateful
            &&& after.learn_initial == controller.learn_initial
            &&& after.luma_aware == controller.luma_aware
            &&& after.last_als == controller.last_als
            &&& after.output_name == controller.output_name
            &&& after.scale == controller.scale
            &&& after.als_direction == controller.als_direction
            &&& after.luma_direction == controller.luma_direction
            &&& after.kind == controller.kind
        }),
{
}

/// A frame is judged by the latest reading that there is: one that came in meanwhile, else the last
/// known one, else the first one. The value that was found at the start is only learned by a starting
/// controller that is to learn it and that knows nothing yet.
pub proof fn law_frames_are_judged_by_the_latest_reading(
    controller: Controller,
    first: Option<(Reading, u64)>,
    latest: Option<Reading>,
    user: Option<u64>,
    luma: u8,
    now: u64,
)
    requires
        controller.last_als is None ==> first is Some,
    ensures
        ({
            let known = controller.started(first).informed(latest);
            let begins = controller.last_als is None && controller.learn_initial
                && controller.data.entries@.len() == 0;
            &&& known.last_als is Some
            &&& latest is Some ==> known.last_als == latest
            &&& latest is None && controller.last_als is Some ==> known.last_als
                == controller.last_als
            &&& latest is None && controller.last_als is None ==> known.last_als->0 == (first->0).0
            &&& begins ==> known.initial_brightness == Some((first->0).1)
            &&& !begins ==> known.initial_brightness == controller.initial_brightness
            &&& known == (Controller {
                last_als: known.last_als,
                initial_brightness: known.initial_brightness,
                ..controller
            })
            &&& known.processed(known.last_als->0, luma, user, now).0 matches Action::Predict(als, at)
                ==> at == luma && als == (if latest is Some {
                latest->0.value
            } else if controller.last_als is Some {
                controller.last_als->0.value
            } else {
                (first->0).0.value
            })
        }),
{
}

/// Discarding forgets what is pending and how long to wait, and nothing that was learned: with the
/// next stable reading a value is predicted.
pub proof fn law_discarding_forgets_choices_only(
    controller: Controller,
    last_als: Option<Reading>,
    reading: Reading,
    luma: u8,
    now: u64,
)
    requires
        reading.stable,
    ensures
        ({
            let after = controller.forgetful(last_als);
            &&& after.last_als == last_als
            &&& after.pending is None
            &&& after.initial_brightness is None
            &&& after.pending_cooldown.until is None
            &&& after == (Controller {
                last_als,
                pending: None,
                initial_brightness: None,
                pending_cooldown: after.pending_cooldown,
                ..controller
            })
            &&& after.processed(reading, luma, None, now).0 == Action::Predict(reading.value, luma)
        }),
{
}

spec fn kept_places(entries: Seq<Entry>, distances: Seq<u64>, entry: Entry) -> Set<int> {
    Set::new(
        |i: int|
            0 <= i < entries.len() && entries[i] == entry && distances[i] > REPLACEMENT_DISTANCE,
    )
}

proof fn lemma_distant(entries: Seq<Entry>, distances: Seq<u64>, entry: Entry)
    requires
        entries.len() == distances.len(),
    ensures
        kept_places(entries, distances, entry).finite(),
        adaptive::distant(entries, distances).to_multiset().count(entry) == kept_places(
            entries,
            distances,
            entry,
        ).len(),
    decreases entries.len(),
{
    let all = kept_places(entries, distances, entry);
    if entries.len() == 0 {
        assert(all =~= Set::empty());
        adaptive::distant(entries, distances).to_multiset_ensures();
        assert(!adaptive::distant(entries, distances).contains(entry));
    } else {
        let front = entries.drop_last();
        let nearer = distances.drop_last();
        let last = entries.len() - 1;
        lemma_distant(front, nearer, entry);
        let fewer = kept_places(front, nearer, entry);
        vstd::seq_lib::to_multiset_build(adaptive::distant(front, nearer), entries.last());
        if entries[last] == entry && distances[last] > REPLACEMENT_DISTANCE {
            assert(all =~= fewer.insert(last));
        } else {
            assert(all =~= fewer);
        }
    }
}

/// Learning replaces the near observations only. Of the earlier observations those remain, as often
/// as they were there, that are farther away than the distance of replacement, and no others; what
/// was pending is added; and the observations are ordered by reading, then by luma.
pub proof fn law_learning_replaces_near_observations_only(
    entries: Seq<Entry>,
    distances: Seq<u64>,
    pending: Entry,
    after: Seq<Entry>,
)
    requires
        entries.len() == distances.len(),
        adaptive::sorted(after),
        after.to_multiset() == adaptive::distant(entries, distances).push(pending).to_multiset(),
    ensures
        forall|entry: Entry| #[trigger]
            after.to_multiset().count(entry) == Set::new(
                |i: int|
                    0 <= i < entries.len() && entries[i] == entry && distances[i]
                        > REPLACEMENT_DISTANCE,
            ).len() + (if entry == pending {
                1int
            } else {
                0
            }),
        after.contains(pending),
        forall|i: int|
            0 <= i < entries.len() && distances[i] > REPLACEMENT_DISTANCE ==> after.contains(
                #[trigger] entries[i],
            ),
        forall|j: int|
            0 <= j < after.len() ==> #[trigger] after[j] == pending || exists|i: int|
                0 <= i < entries.len() && distances[i] > REPLACEMENT_DISTANCE && #[trigger] entries[i]
                    == after[j],
        after.len() <= entries.len() + 1,
        forall|i: int, j: int|
            0 <= i < j < after.len() ==> after[i].als < after[j].als || after[i].als == after[j].als
                && after[i].luma <= after[j].luma,
{
    let far = adaptive::distant(entries, distances);
    vstd::seq_lib::to_multiset_build(far, pending);
    after.to_multiset_ensures();
    far.push(pending).to_multiset_ensures();
    lemma_fewer(entries, distances);
    assert forall|i: int, j: int| 0 <= i < j < after.len() implies after[i].als < after[j].als
        || after[i].als == after[j].als && after[i].luma <= after[j].luma by {
        assert(adaptive::in_order(after[i], after[j]));
    }
    assert forall|entry: Entry| #[trigger]
        after.to_multiset().count(entry) == Set::new(
            |i: int|
                0 <= i < entries.len() && entries[i] == entry && distances[i]
                    > REPLACEMENT_DISTANCE,
        ).len() + (if entry == pending {
            1int
        } else {
            0
        }) by {
        lemma_distant(entries, distances, entry);
        assert(kept_places(entries, distances, entry) =~= Set::new(
            |i: int|
                0 <= i < entries.len() && entries[i] == entry && distances[i]
                    > REPLACEMENT_DISTANCE,
        ));
    }
    assert(after.to_multiset().count(pending) > 0);
    assert forall|i: int|
        0 <= i < entries.len() && distances[i] > REPLACEMENT_DISTANCE implies after.contains(
        #[trigger] entries[i],
    ) by {
        lemma_distant(entries, distances, entries[i]);
        let places = kept_places(entries, distances, entries[i]);
        assert(places.contains(i));
        assert(places.len() > 0) by {
            if places.len() == 0 {
                places.lemma_len0_is_empty();
            }
        }
        assert(after.to_multiset().count(entries[i]) > 0);
    }
    assert forall|j: int| 0 <= j < after.len() implies #[trigger] after[j] == pending || exists|i: int|
        0 <= i < entries.len() && distances[i] > REPLACEMENT_DISTANCE && #[trigger] entries[i]
            == after[j] by {
        let entry = after[j];
        assert(after.contains(entry));
        assert(after.to_multiset().count(entry) > 0);
        lemma_distant(entries, distances, entry);
        let places = kept_places(entries, distances, entry);
        if entry != pending {
            assert(places.len() > 0);
            let i = places.choose();
            if !places.contains(i) {
                assert(places =~= Set::empty());
            }
            assert(entries[i] == entry);
        }
    }
}

proof fn lemma_fewer(entries: Seq<Entry>, distances: Seq<u64>)
    requires
        entries.len() == distances.len(),
    ensures
        adaptive::distant(entries, distances).len() <= entries.len(),
    decreases entries.len(),
{
    if entries.len() > 0 {
        lemma_fewer(entries.drop_last(), distances.drop_last());
    }
}

/// The distance of replacement is a quarter, and the distance without influence is five.
pub proof fn law_distances_are_numbers()
    ensures
        4 * double::steps_of(REPLACEMENT_DISTANCE) == double::one(),
        double::steps_of(MAX_DISTANCE) == 5 * double::one(),
{
    vstd::arithmetic::power2::lemma2_to64();
    vstd::arithmetic::power2::lemma2_to64_rest();
    vstd::arithmetic::power2::lemma_pow2_adds(52, 1022);
    vstd::arithmetic::power2::lemma_pow2_adds(2, 1020);
    vstd::arithmetic::power2::lemma_pow2_adds(2, 1022);
    let p = vstd::arithmetic::power2::pow2(1020) as int;
    let q = vstd::arithmetic::power2::pow2(1024) as int;
    assert(double::one() == 0x40_0000_0000_0000 * p && q == 16 * p);
    assert(REPLACEMENT_DISTANCE / double::NORMAL == 1021 && REPLACEMENT_DISTANCE % double::NORMAL
        == 0);
    assert(MAX_DISTANCE / double::NORMAL == 1025 && MAX_DISTANCE % double::NORMAL
        == 0x4_0000_0000_0000);
    assert(double::steps_of(REPLACEMENT_DISTANCE) == 0x10_0000_0000_0000 * p);
    assert(double::steps_of(MAX_DISTANCE) == 0x14_0000_0000_0000 * q);
}

spec fn places_of(entries: Seq<Entry>, als: u64) -> Set<int> {
    Set::new(|i: int| 0 <= i < entries.len() && entries[i].als == als)
}

spec fn sum_of(entries: Seq<Entry>, als: u64) -> int {
    entries.map_values(
        |entry: Entry|
            if entry.als == als {
                entry.brightness as int
            } else {
                0int
            },
    ).fold_left(0int, |sum: int, value: int| sum + value)
}

proof fn lemma_sums(entries: Seq<Entry>, als: u64)
    ensures
        places_of(entries, als).finite(),
        adaptive::count(entries, als) == places_of(entries, als).len(),
        adaptive::total(entries, als) == sum_of(entries, als),
    decreases entries.len(),
{
    let all = places_of(entries, als);
    let values = entries.map_values(
        |entry: Entry|
            if entry.als == als {
                entry.brightness as int
            } else {
                0int
            },
    );
    if entries.len() == 0 {
        assert(all =~= Set::empty());
    } else {
        let front = entries.drop_last();
        lemma_sums(front, als);
        let fewer = places_of(front, als);
        if entries.last().als == als {
            assert(all =~= fewer.insert(entries.len() - 1));
        } else {
            assert(all =~= fewer);
        }
        assert(values.drop_last() =~= front.map_values(
            |entry: Entry|
                if entry.als == als {
                    entry.brightness as int
                } else {
                    0int
                },
        ));
    }
}

/// Without regard to luma there is one observation for every reading, in ascending order, and its
/// value is the average of the values at that reading, rounded to the nearest integer and halves up.
pub proof fn law_luma_is_averaged_out(entries: Seq<Entry>, projected: Seq<Entry>, at: int)
    requires
        adaptive::collapsed(entries, projected),
        0 <= at < projected.len(),
    ensures
        ({
            let als = projected[at].als;
            let number = Set::new(|i: int| 0 <= i < entries.len() && entries[i].als == als).len();
            let sum = entries.map_values(
                |entry: Entry|
                    if entry.als == als {
                        entry.brightness as int
                    } else {
                        0int
                    },
            ).fold_left(0int, |sum: int, value: int| sum + value);
            &&& number > 0
            &&& 2 * sum - number < 2 * (number * projected[at].brightness) <= 2 * sum + number
        }),
        projected[at].luma == 0,
        forall|i: int| 0 <= i < at ==> (#[trigger] projected[i]).als < projected[at].als,
        exists|i: int| 0 <= i < entries.len() && (#[trigger] entries[i]).als == projected[at].als,
        forall|i: int|
            0 <= i < entries.len() ==> exists|j: int|
                0 <= j < projected.len() && (#[trigger] projected[j]).als == (
                #[trigger] entries[i]).als,
{
    let als = projected[at].als;
    assert(adaptive::present(entries, als));
    lemma_sums(entries, als);
    assert(places_of(entries, als) =~= Set::new(
        |i: int| 0 <= i < entries.len() && entries[i].als == als,
    ));
    let i = choose|i: int| 0 <= i < entries.len() && (#[trigger] entries[i]).als == als;
    let number = places_of(entries, als).len() as int;
    assert(places_of(entries, als).contains(i));
    assert(number > 0) by {
        if number == 0 {
            places_of(entries, als).lemma_len0_is_empty();
        }
    }
    let sum = sum_of(entries, als);
    vstd::arithmetic::div_mod::lemma_fundamental_div_mod(sum + number / 2, number);
    let value = projected[at].brightness as int;
    assert(value == (sum + number / 2) / number);
    assert forall|k: int| 0 <= k < entries.len() implies exists|j: int|
        0 <= j < projected.len() && (#[trigger] projected[j]).als == (#[trigger] entries[k]).als by {
        assert(adaptive::present(projected, entries[k].als));
    }
}

/// A reading has the coordinate that was given with the observations that have it, and every
/// observation is fitted with its own luma and its own value.
pub proof fn law_observations_are_fitted_as_they_are(
    entries: Seq<Entry>,
    coordinates: Seq<u64>,
    list: Seq<Entry>,
    at: int,
    place: int,
)
    requires
        entries.len() == coordinates.len(),
        0 <= at < entries.len(),
        0 <= place < list.len(),
        list[place].als == entries[at].als,
        forall|i: int|
            0 <= i < entries.len() && (#[trigger] entries[i]).als == entries[at].als ==> coordinates[i]
                == coordinates[at],
    ensures
        ({
            let samples = adaptive::samples(list, adaptive::table(entries, coordinates));
            &&& samples.len() == list.len()
            &&& samples[place].als == coordinates[at]
            &&& samples[place].luma == list[place].luma
            &&& samples[place].brightness == list[place].brightness
        }),
{
    lemma_lookup(entries, coordinates, at);
}

proof fn lemma_lookup(entries: Seq<Entry>, coordinates: Seq<u64>, at: int)
    requires
        entries.len() == coordinates.len(),
        0 <= at < entries.len(),
        forall|i: int|
            0 <= i < entries.len() && (#[trigger] entries[i]).als == entries[at].als ==> coordinates[i]
                == coordinates[at],
    ensures
        adaptive::lookup(entries, coordinates, entries[at].als) == coordinates[at],
    decreases entries.len(),
{
    let last = entries.len() - 1;
    if entries[last].als != entries[at].als {
        let front = entries.drop_last();
        let fewer = coordinates.drop_last();
        assert forall|i: int|
            0 <= i < front.len() && (#[trigger] front[i]).als == front[at].als implies fewer[i]
            == fewer[at] by {
            assert(entries[i].als == entries[at].als);
        }
        lemma_lookup(front, fewer, at);
    }
}

/// A new controller saw nothing and waits for nothing. It regards luma, learns the value that it
/// finds, and takes it that values grow with ambient light and shrink with luma.
pub proof fn law_new_controllers_know_nothing(
    controller: Controller,
    stateful: bool,
    output_name: Seq<char>,
    scale: Scale,
    kind: Kind,
    reading: Reading,
    luma: u8,
    now: u64,
)
    requires
        controller.fresh(stateful, output_name, scale, kind),
        reading.stable,
    ensures
        controller.last_als is None,
        controller.pending is None,
        controller.initial_brightness is None,
        controller.pending_cooldown.until is None,
        controller.model is None,
        controller.luma_aware,
        controller.learn_initial,
        controller.stateful == stateful,
        controller.kind == kind && controller.data.kind == kind,
        controller.scale == scale && controller.data.scale == scale,
        controller.output_name@ == output_name && controller.data.output_name@ == output_name,
        controller.als_direction == AlsDirection::Increasing,
        controller.luma_direction == LumaDirection::Decreasing,
        controller.processed(reading, luma, None, now).0 == Action::Predict(reading.value, luma),
{
}

/// A controller that is to remember knows every stored observation at a reading; one that is not to,
/// or that finds nothing stored, knows none.
pub proof fn law_stored_observations_are_known(
    controller: Controller,
    stored: Option<StoredData>,
    profiles: Seq<Profile>,
    at: int,
)
    requires
        controller.loads(stored, profiles),
    ensures
        !controller.stateful || stored is None ==> controller.data.entries@.len() == 0,
        controller.stateful && stored is Some && 0 <= at < (stored->0).entries.of(
            controller.kind,
        ).len() && (stored->0).entries.of(controller.kind)[at].als is Value ==> ({
            let found = (stored->0).entries.of(controller.kind)[at];
            controller.data.entries@.contains(
                Entry {
                    als: found.als->Value_0,
                    luma: found.luma,
                    brightness: found.brightness,
                },
            )
        }),
        controller.stateful && stored is Some && 0 <= at < (stored->0).entries.of(
            controller.kind,
        ).len() && (stored->0).entries.of(controller.kind)[at].als is Profile ==> ({
            let found = (stored->0).entries.of(controller.kind)[at];
            let kept = data::legacy_view(controller.data.legacy_entries_v1);
            kept is Some && kept->0.contains(
                ((found.als->Profile_0)@, found.luma, found.brightness),
            )
        }),
        !controller.stateful || stored is None ==> controller.data.legacy_entries_v1 is None,
{
    if controller.stateful && stored is Some && 0 <= at < (stored->0).entries.of(
        controller.kind,
    ).len() && (stored->0).entries.of(controller.kind)[at].als is Profile {
        data::law_profile_entries_are_kept(stored->0, controller.kind, at);
    }
    if controller.stateful && stored is Some && 0 <= at < (stored->0).entries.of(
        controller.kind,
    ).len() && (stored->0).entries.of(controller.kind)[at].als is Value {
        lemma_migrated((stored->0).entries.of(controller.kind), profiles, at);
    }
}

proof fn lemma_migrated(
    stored: Seq<StoredEntry>,
    profiles: Seq<Profile>,
    at: int,
)
    requires
        0 <= at < stored.len(),
        stored[at].als is Value,
    ensures
        data::migrated_entries(stored, profiles).contains(
            Entry {
                als: stored[at].als->Value_0,
                luma: stored[at].luma,
                brightness: stored[at].brightness,
            },
        ),
    decreases stored.len(),
{
    let front = stored.drop_last();
    let all = data::migrated_entries(stored, profiles);
    let shorter = data::migrated_entries(front, profiles);
    let entry = Entry {
        als: stored[at].als->Value_0,
        luma: stored[at].luma,
        brightness: stored[at].brightness,
    };
    if at < front.len() {
        lemma_migrated(front, profiles, at);
        let i = shorter.index_of(entry);
        assert(all[i] == shorter[i]);
    } else {
        assert(stored.last() == stored[at]);
        assert(all.last() == entry);
    }
}

/// What was learned is predicted again: a frame at the condition of an observation that contradicts
/// none of the others asks for the prediction of which the result is the learned value.
pub proof fn law_learned_values_come_back(
    controller: Controller,
    coordinate: spec_fn(u64) -> u64,
    index: int,
    reading: Reading,
    now: u64,
)
    requires
        controller.well_formed(),
        controller.model is Some,
        controller.fits(controller.model->0, coordinate),
        controller.luma_aware,
        controller.pending is None,
        controller.initial_brightness is None,
        controller.pending_cooldown.until matches Some(until) ==> until <= now,
        0 <= index < controller.data.entries@.len(),
        controller.data.entries@[index].brightness < double::LIMIT,
        super::surface::consistent(
            controller.model->0.points(adaptive::samples(controller.data.entries@, coordinate)),
            index,
        ),
        reading.stable,
        reading.value == controller.data.entries@[index].als,
    ensures
        ({
            let entry = controller.data.entries@[index];
            controller.processed(reading, entry.luma, None, now).0 matches Action::Predict(als, luma)
                && controller.value(controller.model->0, coordinate(als), luma) == entry.brightness
        }),
{
    adaptive::law_consistent_choices_are_predicted(controller, coordinate, index);
}

/// A controller that regards luma predicts what the surface has at that luma, rounded to the nearest
/// integer; one that does not predicts what it has without light on the screen.
pub proof fn law_predictions_are_read_from_the_surface(
    controller: Controller,
    model: Model,
    coordinate: u64,
    luma: u8,
)
    ensures
        ({
            let height = model.predicted(
                coordinate,
                if controller.luma_aware {
                    luma
                } else {
                    0
                },
            );
            let value = controller.value(model, coordinate, luma);
            &&& value <= u64::MAX
            &&& value < u64::MAX ==> -double::one() <= 2 * (value * double::one() - height)
                <= double::one()
            &&& height < u64::MAX * double::one() ==> -double::one() <= 2 * (value * double::one()
                - height) <= double::one()
        }),
{
    let luma = if controller.luma_aware {
        luma
    } else {
        0
    };
    let height = model.predicted(coordinate, luma);
    crate::double_laws::lemma_round_bounds(height);
    crate::double_laws::lemma_whole(1);
    let o = double::one();
    let rounded = double::round(height);
    if rounded > u64::MAX && height < u64::MAX * o {
        assert(false) by (nonlinear_arith)
            requires
                rounded >= u64::MAX + 1,
                height < u64::MAX * o,
                2 * (rounded * o - height) <= o,
                o > 0,
        ;
    }
}

/// The surface that is there goes through what was learned, by the rules of the controller: through
/// every observation where luma counts, and through their averages where it does not.
pub proof fn law_the_surface_goes_through_what_was_learned(controller: Controller)
    requires
        controller.well_formed(),
        controller.model is Some,
    ensures
        controller.model->0.scale == controller.scale,
        controller.model->0.als_direction == controller.als_direction,
        controller.model->0.luma_direction == controller.luma_direction,
        controller.model->0.luma_aware == controller.luma_aware,
        controller.data.entries@.len() > 0,
        controller.luma_aware ==> exists|coordinate: spec_fn(u64) -> u64| #[trigger]
            controller.model->0.fitted(adaptive::samples(controller.data.entries@, coordinate)),
        !controller.luma_aware ==> exists|coordinate: spec_fn(u64) -> u64, list: Seq<Entry>|
            adaptive::collapsed(controller.data.entries@, list) && #[trigger] controller.model->0.fitted(
                adaptive::samples(list, coordinate),
            ),
{
    let model = controller.model->0;
    let coordinate = choose|coordinate: spec_fn(u64) -> u64| #[trigger]
        controller.fits(model, coordinate);
    let list = choose|list: Seq<Entry>| #[trigger]
        controller.observed(list) && list.len() > 0 && model.fitted(
            adaptive::samples(list, coordinate),
        );
    assert(model.fitted(adaptive::samples(list, coordinate)));
    if controller.luma_aware {
        assert(list == controller.data.entries@);
    } else {
        assert(adaptive::present(controller.data.entries@, list[0].als));
    }
}

} // verus!
