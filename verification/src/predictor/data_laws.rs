//! What loading and saving promise.

use vstd::prelude::*;

use super::data;
use super::data::{
    Data, Entry, Kind, LegacyEntryV1, Profile, StoredAls, StoredData, StoredEntries, StoredEntry,
    Threshold, Upper,
};

verus! {

/// A profile ranges from its own threshold to that of the next profile. Only the last one, which has
/// no next one, is as wide as the one before it, and one that is alone has no width.
pub proof fn law_profiles_range_to_the_next_threshold(list: Seq<Threshold>, at: int)
    requires
        0 <= at < list.len(),
    ensures
        data::spec_bounds(list, at).0 == list[at].value,
        at + 1 < list.len() ==> data::spec_bounds(list, at).1 == Upper::Next(list[at + 1].value),
        at + 1 == list.len() && at > 0 ==> data::spec_bounds(list, at).1 == Upper::Mirror(
            list[at - 1].value,
        ),
        list.len() == 1 ==> data::spec_bounds(list, at).1 == Upper::Same,
{
}

/// On a linear scale a profile stands for the middle between its own threshold and that of the next
/// profile, halves rounding up and at most a hundred percent; so its reading lies between the two.
pub proof fn law_profiles_stand_for_the_middle(list: Seq<Threshold>, at: int)
    requires
        0 <= at < list.len(),
        forall|i: int, j: int| 0 <= i < j < list.len() ==> list[i].value < list[j].value,
    ensures
        ({
            let lower = list[at].value;
            let middle = data::spec_linear_midpoint(data::spec_bounds(list, at));
            &&& 0 <= middle <= 100
            &&& at + 1 < list.len() ==> {
                let upper = list[at + 1].value;
                &&& lower <= 100 ==> lower <= middle
                &&& middle <= upper
                &&& lower + upper <= 200 ==> 0 <= 2 * middle - (lower + upper) <= 1
                &&& lower + upper > 200 ==> middle == 100
            }
            &&& at + 1 == list.len() && at > 0 ==> {
                let width = lower - list[at - 1].value;
                &&& lower <= 100 ==> lower <= middle
                &&& 2 * lower + width <= 200 ==> 0 <= 2 * (middle - lower) - width <= 1
                &&& 2 * lower + width > 200 ==> middle == 100
            }
            &&& list.len() == 1 ==> middle == (if lower <= 100 {
                lower as int
            } else {
                100
            })
        }),
{
    if at + 1 < list.len() {
        assert(list[at].value < list[at + 1].value);
    } else if at > 0 {
        assert(list[at - 1].value < list[at].value);
    }
}

/// Profiles in ascending order stand for readings in ascending order.
pub proof fn law_profiles_keep_their_order(list: Seq<Threshold>, at: int, later: int)
    requires
        0 <= at < later < list.len(),
        forall|i: int, j: int| 0 <= i < j < list.len() ==> list[i].value < list[j].value,
    ensures
        data::spec_linear_midpoint(data::spec_bounds(list, at)) <= data::spec_linear_midpoint(
            data::spec_bounds(list, later),
        ),
{
    law_profiles_stand_for_the_middle(list, at);
    law_profiles_stand_for_the_middle(list, later);
    assert(list[at].value < list[later].value);
    if at + 1 < later {
        assert(list[at + 1].value < list[later].value);
    }
}

/// An observation at a named profile migrates to the middle between the profile's threshold and the
/// next one, with its own luma and its own value.
pub proof fn law_observations_migrate_to_the_middle(
    list: Seq<Threshold>,
    profiles: Seq<Profile>,
    stored: StoredEntry,
    at: int,
)
    requires
        0 <= at,
        at + 1 < list.len(),
        forall|i: int, j: int| 0 <= i < j < list.len() ==> list[i].value < list[j].value,
        profiles.len() == list.len(),
        forall|i: int|
            0 <= i < list.len() ==> (#[trigger] profiles[i]).name@ == list[i].name@
                && profiles[i].als == data::spec_linear_midpoint(data::spec_bounds(list, i)),
        stored.als matches StoredAls::Profile(name) && name@ == list[at].name@ && name@ != "none"@,
        forall|i: int| 0 <= i < at ==> (#[trigger] list[i]).name@ != list[at].name@,
    ensures
        stored.entry(profiles) matches Some(entry) && {
            let ends = list[at].value + list[at + 1].value;
            &&& entry.luma == stored.luma
            &&& entry.brightness == stored.brightness
            &&& ends <= 200 ==> 0 <= 2 * entry.als - ends <= 1
            &&& ends > 200 ==> entry.als == 100
            &&& entry.als <= list[at + 1].value
        },
{
    law_profiles_stand_for_the_middle(list, at);
    assert(profiles[at].name@ == list[at].name@);
    assert forall|i: int| 0 <= i < at implies (#[trigger] profiles[i]).name@ != list[at].name@ by {
        assert(list[i].name@ != list[at].name@);
    }
    lemma_place(profiles, list[at].name@, at);
}

proof fn lemma_place(profiles: Seq<Profile>, name: Seq<char>, at: int)
    requires
        0 <= at <= profiles.len(),
        forall|i: int| 0 <= i < at ==> (#[trigger] profiles[i]).name@ != name,
        at == profiles.len() || profiles[at].name@ == name,
    ensures
        data::place(profiles, name) == at,
    decreases profiles.len(),
{
    if at > 0 {
        let rest = profiles.drop_first();
        assert(profiles[0].name@ != name);
        assert forall|i: int| 0 <= i < at - 1 implies (#[trigger] rest[i]).name@ != name by {
            assert(rest[i] == profiles[i + 1]);
        }
        if at < profiles.len() {
            assert(rest[at - 1] == profiles[at]);
        }
        lemma_place(rest, name, at - 1);
    }
}

/// A stored observation keeps its luma and its value. One at a reading keeps that too; one at a named
/// profile gets the reading of the first profile of that name, or none at all for the profile that
/// stands for no light; and one whose profile is unknown is dropped.
pub proof fn law_stored_observations_keep_their_values(
    stored: StoredEntry,
    profiles: Seq<Profile>,
    at: int,
)
    requires
        0 <= at <= profiles.len(),
        stored.als matches StoredAls::Profile(name) ==> {
            &&& forall|i: int| 0 <= i < at ==> (#[trigger] profiles[i]).name@ != name@
            &&& at < profiles.len() ==> profiles[at].name@ == name@
        },
    ensures
        stored.entry(profiles) matches Some(entry) ==> entry.luma == stored.luma
            && entry.brightness == stored.brightness,
        stored.als matches StoredAls::Value(value) ==> {
            &&& stored.entry(profiles) matches Some(entry) && entry.als == value
            &&& stored.legacy() is None
        },
        stored.als matches StoredAls::Profile(name) ==> {
            &&& stored.legacy() == Some((name@, stored.luma, stored.brightness))
            &&& name@ == "none"@ ==> (stored.entry(profiles) matches Some(entry) && entry.als == 0)
            &&& name@ != "none"@ && at < profiles.len() ==> (stored.entry(
                profiles,
            ) matches Some(entry) && entry.als == profiles[at].als)
            &&& name@ != "none"@ && at == profiles.len() ==> stored.entry(profiles) is None
        },
{
    if let StoredAls::Profile(name) = stored.als {
        lemma_place(profiles, name@, at);
    }
}

/// Observations are loaded one by one and in order: those of two lists are those of the first and then
/// those of the second, an observation with a reading is loaded as it is, and one without is left out.
pub proof fn law_observations_are_loaded_in_order(
    first: Seq<StoredEntry>,
    second: Seq<StoredEntry>,
    stored: StoredEntry,
    profiles: Seq<Profile>,
)
    ensures
        data::migrated_entries(first + second, profiles) == data::migrated_entries(first, profiles)
            + data::migrated_entries(second, profiles),
        stored.entry(profiles) matches Some(entry) ==> data::migrated_entries(
            seq![stored],
            profiles,
        ) == seq![entry],
        stored.entry(profiles) is None ==> data::migrated_entries(seq![stored], profiles).len() == 0,
        data::profile_entries(first + second) == data::profile_entries(first)
            + data::profile_entries(second),
        stored.legacy() matches Some(legacy) ==> data::profile_entries(seq![stored]) == seq![legacy],
        stored.legacy() is None ==> data::profile_entries(seq![stored]).len() == 0,
    decreases second.len(),
{
    let one = seq![stored];
    assert(one.drop_last() =~= Seq::<StoredEntry>::empty());
    assert(data::migrated_entries(one.drop_last(), profiles) =~= Seq::<Entry>::empty());
    assert(data::profile_entries(one.drop_last()) =~= Seq::<(Seq<char>, u8, u64)>::empty());
    assert(one.last() == stored);
    if let Some(entry) = stored.entry(profiles) {
        assert(data::migrated_entries(one, profiles) =~= seq![entry]);
    }
    if let Some(legacy) = stored.legacy() {
        assert(data::profile_entries(one) =~= seq![legacy]);
    }
    if second.len() == 0 {
        assert(first + second =~= first);
        assert(data::migrated_entries(first, profiles) + data::migrated_entries(second, profiles)
            =~= data::migrated_entries(first, profiles));
        assert(data::profile_entries(first) + data::profile_entries(second)
            =~= data::profile_entries(first));
    } else {
        let front = second.drop_last();
        law_observations_are_loaded_in_order(first, front, stored, profiles);
        assert((first + second).drop_last() =~= first + front);
        assert((first + second).last() == second.last());
        assert(data::migrated_entries(first + second, profiles) =~= data::migrated_entries(
            first,
            profiles,
        ) + data::migrated_entries(second, profiles));
        assert(data::profile_entries(first + second) =~= data::profile_entries(first)
            + data::profile_entries(second));
    }
}

/// The forms that were kept stay where they are, and later ones come after them. None are kept where
/// there never were any.
pub proof fn law_kept_forms_stay(
    kept: Option<Seq<(Seq<char>, u8, u64)>>,
    more: Seq<(Seq<char>, u8, u64)>,
)
    ensures
        data::appended(kept, more) is None <==> kept is None && more.len() == 0,
        kept is Some ==> data::appended(kept, more)->0 == kept->0 + more,
        kept is None && more.len() > 0 ==> data::appended(kept, more)->0 == more,
{
}

/// Every kind has its own observations. Data that knows no kinds is of brightness alone.
pub proof fn law_kinds_are_kept_apart(stored: StoredEntries, kind: Kind)
    ensures
        stored matches StoredEntries::Grouped(groups) ==> {
            &&& kind == Kind::Brightness ==> stored.of(kind) == groups.brightness@
            &&& kind == Kind::Dim ==> stored.of(kind) == groups.dim@
            &&& kind == Kind::Temperature ==> stored.of(kind) == groups.temperature@
        },
        stored matches StoredEntries::Legacy(entries) ==> {
            &&& kind == Kind::Brightness ==> stored.of(kind) == entries@
            &&& kind != Kind::Brightness ==> stored.of(kind).len() == 0
        },
{
}

/// What is written of data alone is all of its own kind.
pub proof fn law_data_is_of_its_own_kind(owned: Data, kind: Kind)
    ensures
        kind == owned.kind ==> owned.of(kind) == owned.entries@,
        kind != owned.kind ==> owned.of(kind).len() == 0,
{
}

/// Data is written again exactly if it knew no kinds or held an observation at a named profile.
pub proof fn law_data_is_written_again_in_a_new_form(stored: StoredData, kind: Kind)
    ensures
        stored.migrates(kind) <==> stored.entries is Legacy || exists|i: int|
            0 <= i < stored.entries.of(kind).len() && (#[trigger] stored.entries.of(
                kind,
            )[i]).als is Profile,
{
    lemma_profiles(stored.entries.of(kind));
}

proof fn lemma_profiles(stored: Seq<StoredEntry>)
    ensures
        data::profile_entries(stored).len() > 0 <==> exists|i: int|
            0 <= i < stored.len() && (#[trigger] stored[i]).als is Profile,
    decreases stored.len(),
{
    if stored.len() > 0 {
        let front = stored.drop_last();
        lemma_profiles(front);
        if exists|i: int| 0 <= i < front.len() && (#[trigger] front[i]).als is Profile {
            let i = choose|i: int| 0 <= i < front.len() && (#[trigger] front[i]).als is Profile;
            assert(stored[i].als is Profile);
        }
        if exists|i: int| 0 <= i < stored.len() && (#[trigger] stored[i]).als is Profile {
            let i = choose|i: int| 0 <= i < stored.len() && (#[trigger] stored[i]).als is Profile;
            if i < front.len() {
                assert(front[i].als is Profile);
            }
        }
        if stored.last().als is Profile {
            assert(stored[stored.len() - 1].als is Profile);
        }
    }
}

/// Sorted thresholds are those of the map, each with its name, and ascend.
pub proof fn law_thresholds_are_sorted(list: Seq<Threshold>, thresholds: Map<u64, String>, value: u64)
    requires
        data::ascending(list, thresholds),
    ensures
        forall|i: int, j: int| 0 <= i < j < list.len() ==> list[i].value < list[j].value,
        thresholds.contains_key(value) <==> exists|i: int|
            0 <= i < list.len() && (#[trigger] list[i]).value == value,
        forall|i: int|
            0 <= i < list.len() && (#[trigger] list[i]).value == value ==> thresholds.contains_key(
                value,
            ) && list[i].name@ == thresholds[value]@,
{
    if thresholds.contains_key(value) {
        assert(data::holds(list, value));
    }
    assert forall|i: int| 0 <= i < list.len() && (#[trigger] list[i]).value == value implies thresholds.contains_key(
        value,
    ) && list[i].name@ == thresholds[value]@ by {
        assert(data::listed(thresholds, list[i]));
    }
}

/// A form that is kept holds the name of the profile, the luma and the value, in that order.
pub proof fn law_kept_forms_are_complete(kept: Vec<LegacyEntryV1>, at: int)
    requires
        0 <= at < kept@.len(),
    ensures
        data::legacy_view(None) is None,
        data::legacy_view(Some(kept)) is Some,
        (data::legacy_view(Some(kept))->0).len() == kept@.len(),
        (data::legacy_view(Some(kept))->0)[at] == (kept@[at].lux@, kept@[at].luma, kept@[at].brightness),
{
}

/// Observations take the place of those of their own kind, and those of the other kinds stay.
pub proof fn law_merging_replaces_one_kind(data: Data, groups: Seq<Data>)
    requires
        groups.len() == 3,
    ensures
        data.merged(groups, data.kind) == data.entries@,
        data.kind != Kind::Brightness ==> data.merged(groups, Kind::Brightness)
            == groups[0].entries@,
        data.kind != Kind::Dim ==> data.merged(groups, Kind::Dim) == groups[1].entries@,
        data.kind != Kind::Temperature ==> data.merged(groups, Kind::Temperature)
            == groups[2].entries@,
{
}

} // verus!
