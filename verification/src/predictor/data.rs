//! Learned data of one output and how it is stored.

use std::collections::HashMap;

use vstd::prelude::*;

use crate::als::Scale;
use crate::text;

verus! {

/// What is learned.
#[derive(Clone, Copy, Debug, PartialEq, Eq, Structural)]
pub enum Kind {
    Brightness,
    Dim,
    Temperature,
}

impl Kind {
    pub fn name(self) -> (name: &'static str)
        ensures
            name@ == (match self {
                Kind::Brightness => "brightness"@,
                Kind::Dim => "dim"@,
                Kind::Temperature => "temperature"@,
            }),
    {
        match self {
            Kind::Brightness => "brightness",
            Kind::Dim => "dim",
            Kind::Temperature => "temperature",
        }
    }

    pub fn unit(self) -> (unit: &'static str)
        ensures
            unit@ == (match self {
                Kind::Brightness => ""@,
                Kind::Dim => "%"@,
                Kind::Temperature => "K"@,
            }),
    {
        match self {
            Kind::Brightness => "",
            Kind::Dim => "%",
            Kind::Temperature => "K",
        }
    }
}

/// One learned observation: the value preferred at an ambient light and a screen luma.
#[derive(Clone, Copy, Debug, PartialEq, Eq, Hash, Structural)]
pub struct Entry {
    pub als: u64,
    pub luma: u8,
    pub brightness: u64,
}

impl Entry {
    pub fn new(als: u64, luma: u8, brightness: u64) -> (entry: Self)
        ensures
            entry.als == als,
            entry.luma == luma,
            entry.brightness == brightness,
    {
        Self { als, luma, brightness }
    }
}

/// An observation as it was first stored, at a named profile of ambient light.
#[derive(Debug, PartialEq, Eq)]
pub struct LegacyEntryV1 {
    pub lux: String,
    pub luma: u8,
    pub brightness: u64,
}

impl View for LegacyEntryV1 {
    type V = (Seq<char>, u8, u64);

    open spec fn view(&self) -> (Seq<char>, u8, u64) {
        (self.lux@, self.luma, self.brightness)
    }
}

/// The ambient light of a stored observation: a reading, or the name of a profile.
#[derive(Debug, PartialEq, Eq)]
pub enum StoredAls {
    Value(u64),
    Profile(String),
}

/// A stored observation.
#[derive(Debug, PartialEq, Eq)]
pub struct StoredEntry {
    pub als: StoredAls,
    pub luma: u8,
    pub brightness: u64,
}

/// The stored observations of each kind.
#[derive(Debug, PartialEq, Eq)]
pub struct StoredEntryGroups {
    pub brightness: Vec<StoredEntry>,
    pub dim: Vec<StoredEntry>,
    pub temperature: Vec<StoredEntry>,
}

/// Stored observations, of brightness alone or of all kinds.
#[derive(Debug, PartialEq, Eq)]
pub enum StoredEntries {
    Legacy(Vec<StoredEntry>),
    Grouped(StoredEntryGroups),
}

/// What was read from a file.
#[derive(Debug, PartialEq, Eq)]
pub struct StoredData {
    pub output_name: String,
    pub entries: StoredEntries,
    pub legacy_entries_v1: Option<Vec<LegacyEntryV1>>,
}

/// The observations of each kind, as they are written.
#[derive(Debug, PartialEq, Eq)]
pub struct SavedEntryGroups {
    pub brightness: Vec<Entry>,
    pub dim: Vec<Entry>,
    pub temperature: Vec<Entry>,
}

/// What is written to a file.
#[derive(Debug, PartialEq, Eq)]
pub struct SavedData {
    pub output_name: String,
    pub entries: SavedEntryGroups,
    pub legacy_entries_v1: Option<Vec<LegacyEntryV1>>,
}

/// The reading from which on a profile of ambient light holds.
#[derive(Debug, PartialEq, Eq)]
pub struct Threshold {
    pub value: u64,
    pub name: String,
}

/// The reading that stands for a profile of ambient light.
#[derive(Debug, PartialEq, Eq)]
pub struct Profile {
    pub name: String,
    pub als: u64,
}

/// Where a profile's range ends.
#[derive(Clone, Copy, Debug, PartialEq, Eq, Structural)]
pub enum Upper {
    /// Where the next profile begins.
    Next(u64),
    /// As far above its beginning as the previous profile begins below it.
    Mirror(u64),
    /// Where it begins.
    Same,
}

/// The profile that stands for no ambient light at all.
pub const NO_PROFILE: &'static str = "none";

/// Whether a threshold is one of a map.
pub open spec fn listed(thresholds: Map<u64, String>, threshold: Threshold) -> bool {
    thresholds.contains_key(threshold.value) && thresholds[threshold.value]@ == threshold.name@
}

/// Whether a list has a threshold of this value.
pub open spec fn holds(list: Seq<Threshold>, value: u64) -> bool {
    exists|i: int| 0 <= i < list.len() && (#[trigger] list[i]).value == value
}

/// Whether a list holds a map's thresholds in ascending order.
pub open spec fn ascending(list: Seq<Threshold>, thresholds: Map<u64, String>) -> bool {
    &&& forall|i: int, j: int| 0 <= i < j < list.len() ==> list[i].value < list[j].value
    &&& forall|i: int| 0 <= i < list.len() ==> listed(thresholds, #[trigger] list[i])
    &&& forall|value: u64| #[trigger] thresholds.contains_key(value) ==> holds(list, value)
}

proof fn lemma_insert(list: Seq<Threshold>, at: int, threshold: Threshold)
    requires
        forall|i: int, j: int| 0 <= i < j < list.len() ==> list[i].value < list[j].value,
        0 <= at <= list.len(),
        forall|i: int| 0 <= i < at ==> (#[trigger] list[i]).value < threshold.value,
        forall|i: int| at <= i < list.len() ==> threshold.value < (#[trigger] list[i]).value,
    ensures
        ({
            let longer = list.insert(at, threshold);
            forall|i: int, j: int| 0 <= i < j < longer.len() ==> longer[i].value < longer[j].value
        }),
{
    let longer = list.insert(at, threshold);
    assert forall|i: int, j: int| 0 <= i < j < longer.len() implies longer[i].value
        < longer[j].value by {
        let a = if i < at {
            i
        } else {
            i - 1
        };
        let b = if j < at {
            j
        } else {
            j - 1
        };
        if i != at {
            assert(longer[i] == list[a]);
        }
        if j != at {
            assert(longer[j] == list[b]);
        }
    }
}

/// The keys of a map in any order.
fn keys(thresholds: &HashMap<u64, String>) -> (keys: Vec<u64>)
    ensures
        keys@.no_duplicates(),
        forall|value: u64| keys@.contains(value) <==> thresholds@.contains_key(value),
{
    broadcast use vstd::std_specs::hash::group_hash_axioms;

    let mut keys: Vec<u64> = Vec::new();
    let ghost all = vstd::std_specs::iter::IteratorSpec::remaining(
        &vstd::std_specs::hash::spec_keys_iter(thresholds),
    );
    for key in iter: thresholds.keys()
        invariant
            iter.seq() == all,
            keys@.len() == iter.index(),
            forall|i: int| 0 <= i < keys@.len() ==> #[trigger] keys@[i] == *all[i],
    {
        keys.push(*key);
    }
    proof {
        assert(keys@ =~= all.unref());
        assert forall|value: u64| keys@.contains(value) <==> thresholds@.contains_key(value) by {
            assert(all.unref().to_set().contains(value) <==> keys@.contains(value));
        }
        assert forall|i: int, j: int| 0 <= i < j < keys@.len() implies keys@[i] != keys@[j] by {
            assert(all[i] != all[j]);
        }
    }
    keys
}

/// The thresholds in ascending order.
pub fn sort_thresholds(thresholds: &HashMap<u64, String>) -> (list: Vec<Threshold>)
    ensures
        ascending(list@, thresholds@),
{
    broadcast use vstd::std_specs::hash::group_hash_axioms;

    let keys = keys(thresholds);
    let mut list: Vec<Threshold> = Vec::new();
    let mut k: usize = 0;
    while k < keys.len()
        invariant
            k <= keys.len(),
            keys@.no_duplicates(),
            forall|value: u64| keys@.contains(value) <==> thresholds@.contains_key(value),
            forall|i: int, j: int| 0 <= i < j < list.len() ==> list[i].value < list[j].value,
            forall|i: int| 0 <= i < list.len() ==> listed(thresholds@, #[trigger] list[i]),
            forall|i: int|
                0 <= i < list.len() ==> keys@.take(k as int).contains((#[trigger] list[i]).value),
            forall|j: int| 0 <= j < k ==> holds(list@, #[trigger] keys@[j]),
        decreases keys.len() - k,
    {
        let value: u64 = keys[k];
        let mut at: usize = 0;
        while at < list.len() && list[at].value < value
            invariant
                at <= list.len(),
                forall|i: int| 0 <= i < at ==> (#[trigger] list[i]).value < value,
            decreases list.len() - at,
        {
            at += 1;
        }
        let ghost before = list@;
        assert(keys@.contains(value));
        let name = match thresholds.get(&value) {
            Some(name) => name.clone(),
            None => String::new(),
        };
        let threshold = Threshold { value, name };
        proof {
            assert forall|i: int| at <= i < before.len() implies value < (
            #[trigger] before[i]).value by {
                assert(before[at as int].value >= value);
                if before[i].value == value {
                    let j = keys@.take(k as int).index_of(value);
                    assert(keys@[j] == keys@[k as int]);
                }
            }
            lemma_insert(before, at as int, threshold);
        }
        list.insert(at, threshold);
        proof {
            let shorter = keys@.take(k as int);
            let longer = keys@.take(k + 1);
            assert(longer[k as int] == value);
            assert forall|i: int| 0 <= i < list@.len() implies longer.contains(
                (#[trigger] list@[i]).value,
            ) && listed(thresholds@, list@[i]) by {
                if i != at {
                    let old_i = if i < at {
                        i
                    } else {
                        i - 1
                    };
                    assert(list@[i] == before[old_i]);
                    let j = shorter.index_of(list@[i].value);
                    assert(longer[j] == list@[i].value);
                }
            }
            assert forall|j: int| 0 <= j < k + 1 implies holds(list@, #[trigger] keys@[j]) by {
                if j == k {
                    assert(list@[at as int].value == keys@[j]);
                } else {
                    assert(holds(before, keys@[j]));
                    let i = choose|i: int|
                        0 <= i < before.len() && (#[trigger] before[i]).value == keys@[j];
                    let new_i = if i < at {
                        i
                    } else {
                        i + 1
                    };
                    assert(list@[new_i] == before[i]);
                }
            }
        }
        k += 1;
    }
    proof {
        assert forall|value: u64| #[trigger] thresholds@.contains_key(value) implies holds(
            list@,
            value,
        ) by {
            assert(keys@.contains(value));
            let j = keys@.index_of(value);
            assert(keys@[j] == value);
        }
    }
    list
}

/// The bounds of the profile at a place of the ascending thresholds.
pub open spec fn spec_bounds(list: Seq<Threshold>, at: int) -> (u64, Upper) {
    (
        list[at].value,
        if at + 1 < list.len() {
            Upper::Next(list[at + 1].value)
        } else if at > 0 {
            Upper::Mirror(list[at - 1].value)
        } else {
            Upper::Same
        },
    )
}

/// The bounds of the profile at a place of the ascending thresholds.
pub fn bounds(list: &Vec<Threshold>, at: usize) -> (bounds: (u64, Upper))
    requires
        at < list.len(),
    ensures
        bounds == spec_bounds(list@, at as int),
        bounds.0 == list@[at as int].value,
        at + 1 < list@.len() ==> bounds.1 == Upper::Next(list@[at + 1].value),
{
    let upper = if at < list.len() - 1 {
        Upper::Next(list[at + 1].value)
    } else if at > 0 {
        Upper::Mirror(list[at - 1].value)
    } else {
        Upper::Same
    };
    (list[at].value, upper)
}

/// Where a profile's range ends on a linear scale.
pub open spec fn linear_upper(bounds: (u64, Upper)) -> int {
    match bounds.1 {
        Upper::Next(next) => next as int,
        Upper::Mirror(previous) => 2 * bounds.0 - previous,
        Upper::Same => bounds.0 as int,
    }
}

/// The middle of a profile's range on a linear scale, halves rounding up, within the scale.
pub open spec fn spec_linear_midpoint(bounds: (u64, Upper)) -> int {
    let middle = (bounds.0 + linear_upper(bounds) + 1) / 2;
    if middle > 100 {
        100
    } else {
        middle
    }
}

/// The middle of a profile's range on a linear scale. A percentage is at most 100.
pub fn linear_midpoint(bounds: (u64, Upper)) -> (als: u64)
    requires
        bounds.1 matches Upper::Mirror(previous) ==> previous <= bounds.0,
    ensures
        als == spec_linear_midpoint(bounds),
        als <= 100,
{
    let lower: u128 = bounds.0 as u128;
    let upper: u128 = match bounds.1 {
        Upper::Next(next) => next as u128,
        Upper::Mirror(previous) => 2 * lower - previous as u128,
        Upper::Same => lower,
    };
    let middle: u128 = (lower + upper + 1) / 2;
    if middle > 100 {
        100
    } else {
        middle as u64
    }
}

/// The profiles on a linear scale, each with the middle of its range.
pub fn linear_profiles(list: &Vec<Threshold>) -> (profiles: Vec<Profile>)
    requires
        forall|i: int, j: int| 0 <= i < j < list.len() ==> list[i].value < list[j].value,
    ensures
        profiles@.len() == list@.len(),
        forall|i: int|
            0 <= i < list@.len() ==> (#[trigger] profiles@[i]).name@ == list@[i].name@
                && profiles@[i].als == spec_linear_midpoint(spec_bounds(list@, i)),
{
    let mut profiles: Vec<Profile> = Vec::new();
    let mut at: usize = 0;
    while at < list.len()
        invariant
            at <= list.len(),
            forall|i: int, j: int| 0 <= i < j < list.len() ==> list[i].value < list[j].value,
            profiles@.len() == at,
            forall|i: int|
                0 <= i < at ==> (#[trigger] profiles@[i]).name@ == list@[i].name@
                    && profiles@[i].als == spec_linear_midpoint(spec_bounds(list@, i)),
        decreases list.len() - at,
    {
        let als: u64 = linear_midpoint(bounds(list, at));
        profiles.push(Profile { name: list[at].name.clone(), als });
        at += 1;
    }
    profiles
}

/// The place of the first profile of a name, or the number of profiles if there is none.
pub open spec fn place(profiles: Seq<Profile>, name: Seq<char>) -> int
    decreases profiles.len(),
{
    if profiles.len() == 0 || profiles.first().name@ == name {
        0
    } else {
        1 + place(profiles.drop_first(), name)
    }
}

/// The reading that a profile name stands for.
pub open spec fn profile_als(profiles: Seq<Profile>, name: Seq<char>) -> Option<u64> {
    let at = place(profiles, name);
    if name == NO_PROFILE@ {
        Some(0)
    } else if at < profiles.len() {
        Some(profiles[at].als)
    } else {
        None
    }
}

proof fn lemma_place(profiles: Seq<Profile>, name: Seq<char>, at: int)
    requires
        0 <= at <= profiles.len(),
        forall|i: int| 0 <= i < at ==> (#[trigger] profiles[i]).name@ != name,
        at == profiles.len() || profiles[at].name@ == name,
    ensures
        place(profiles, name) == at,
    decreases profiles.len(),
{
    if at > 0 {
        let rest = profiles.drop_first();
        assert(profiles[0].name@ != name);
        assert forall|i: int| 0 <= i < at - 1 implies (#[trigger] rest[i]).name@ != name by {
            assert(rest[i] == profiles[i + 1]);
        }
        if at < profiles.len() {
            assert(rest[at - 1] == profiles[at]);
        }
        lemma_place(rest, name, at - 1);
    }
}

fn find_profile(profiles: &Vec<Profile>, name: &str) -> (als: Option<u64>)
    ensures
        als == profile_als(profiles@, name@),
{
    if text::equal(name, NO_PROFILE) {
        return Some(0);
    }
    let mut at: usize = 0;
    while at < profiles.len()
        invariant
            at <= profiles.len(),
            name@ != NO_PROFILE@,
            forall|i: int| 0 <= i < at ==> (#[trigger] profiles[i]).name@ != name@,
        decreases profiles.len() - at,
    {
        if text::equal(profiles[at].name.as_str(), name) {
            proof {
                lemma_place(profiles@, name@, at as int);
            }
            return Some(profiles[at].als);
        }
        at += 1;
    }
    proof {
        lemma_place(profiles@, name@, at as int);
    }
    None
}

impl StoredEntry {
    /// The observation, unless its profile is unknown.
    pub open spec fn entry(&self, profiles: Seq<Profile>) -> Option<Entry> {
        let als = match self.als {
            StoredAls::Value(value) => Some(value),
            StoredAls::Profile(name) => profile_als(profiles, name@),
        };
        match als {
            Some(als) => Some(Entry { als, luma: self.luma, brightness: self.brightness }),
            None => None,
        }
    }

    /// The observation at a named profile, if it is one.
    pub open spec fn legacy(&self) -> Option<(Seq<char>, u8, u64)> {
        match self.als {
            StoredAls::Value(_) => None,
            StoredAls::Profile(name) => Some((name@, self.luma, self.brightness)),
        }
    }

    /// The observation at a reading of ambient light, and the form at a profile to be kept.
    pub fn migrate(&self, profiles: &Vec<Profile>) -> (migrated: (Option<Entry>, Option<LegacyEntryV1>))
        ensures
            migrated.0 == self.entry(profiles@),
            match self.legacy() {
                Some(legacy) => migrated.1 matches Some(kept) && kept@ == legacy,
                None => migrated.1 is None,
            },
    {
        match &self.als {
            StoredAls::Value(value) => (
                Some(Entry::new(*value, self.luma, self.brightness)),
                None,
            ),
            StoredAls::Profile(name) => {
                let legacy = LegacyEntryV1 {
                    lux: name.clone(),
                    luma: self.luma,
                    brightness: self.brightness,
                };
                let entry = match find_profile(profiles, name.as_str()) {
                    Some(als) => Some(Entry::new(als, self.luma, self.brightness)),
                    None => None,
                };
                (entry, Some(legacy))
            },
        }
    }
}

/// The observations whose profiles are known.
pub open spec fn migrated_entries(stored: Seq<StoredEntry>, profiles: Seq<Profile>) -> Seq<Entry>
    decreases stored.len(),
{
    if stored.len() == 0 {
        Seq::empty()
    } else {
        let front = migrated_entries(stored.drop_last(), profiles);
        match stored.last().entry(profiles) {
            Some(entry) => front.push(entry),
            None => front,
        }
    }
}

/// The observations at named profiles.
pub open spec fn profile_entries(stored: Seq<StoredEntry>) -> Seq<(Seq<char>, u8, u64)>
    decreases stored.len(),
{
    if stored.len() == 0 {
        Seq::empty()
    } else {
        let front = profile_entries(stored.drop_last());
        match stored.last().legacy() {
            Some(legacy) => front.push(legacy),
            None => front,
        }
    }
}

pub open spec fn legacy_views(entries: Seq<LegacyEntryV1>) -> Seq<(Seq<char>, u8, u64)> {
    entries.map_values(|entry: LegacyEntryV1| entry@)
}

/// The kept forms, if any are kept.
pub open spec fn legacy_view(entries: Option<Vec<LegacyEntryV1>>) -> Option<Seq<(Seq<char>, u8, u64)>> {
    match entries {
        Some(entries) => Some(legacy_views(entries@)),
        None => None,
    }
}

/// The kept forms with more of them.
pub open spec fn appended(
    kept: Option<Seq<(Seq<char>, u8, u64)>>,
    more: Seq<(Seq<char>, u8, u64)>,
) -> Option<Seq<(Seq<char>, u8, u64)>> {
    match kept {
        Some(kept) => Some(kept + more),
        None => if more.len() > 0 {
            Some(more)
        } else {
            None
        },
    }
}

impl StoredEntries {
    /// The observations of a kind. Data that knows no kinds is of brightness.
    pub open spec fn of(&self, kind: Kind) -> Seq<StoredEntry> {
        match *self {
            StoredEntries::Legacy(entries) => if kind == Kind::Brightness {
                entries@
            } else {
                Seq::empty()
            },
            StoredEntries::Grouped(groups) => match kind {
                Kind::Brightness => groups.brightness@,
                Kind::Dim => groups.dim@,
                Kind::Temperature => groups.temperature@,
            },
        }
    }
}

impl StoredEntries {
    /// The observations of brightness.
    pub fn into_entries(self) -> (entries: Vec<StoredEntry>)
        ensures
            entries@ == self.of(Kind::Brightness),
    {
        match self {
            StoredEntries::Legacy(entries) => entries,
            StoredEntries::Grouped(groups) => groups.brightness,
        }
    }
}

impl StoredData {
    /// Whether reading the data changes its form.
    pub open spec fn migrates(&self, kind: Kind) -> bool {
        self.entries is Legacy || profile_entries(self.entries.of(kind)).len() > 0
    }
}

/// What was learned of one kind for one output.
#[derive(Debug)]
pub struct Data {
    pub output_name: String,
    pub entries: Vec<Entry>,
    pub legacy_entries_v1: Option<Vec<LegacyEntryV1>>,
    pub kind: Kind,
    pub thresholds: HashMap<u64, String>,
    pub scale: Scale,
}

fn clone_entries(entries: &Vec<Entry>) -> (copy: Vec<Entry>)
    ensures
        copy@ == entries@,
{
    let mut copy: Vec<Entry> = Vec::new();
    let mut i: usize = 0;
    while i < entries.len()
        invariant
            i <= entries.len(),
            copy@ == entries@.take(i as int),
        decreases entries.len() - i,
    {
        copy.push(entries[i]);
        i += 1;
        assert(copy@ =~= entries@.take(i as int));
    }
    assert(entries@.take(i as int) =~= entries@);
    copy
}

fn clone_legacy(entries: &Option<Vec<LegacyEntryV1>>) -> (copy: Option<Vec<LegacyEntryV1>>)
    ensures
        legacy_view(copy) == legacy_view(*entries),
{
    match entries {
        Some(entries) => {
            let mut copy: Vec<LegacyEntryV1> = Vec::new();
            let mut i: usize = 0;
            while i < entries.len()
                invariant
                    i <= entries.len(),
                    copy@.len() == i,
                    forall|j: int| 0 <= j < i ==> (#[trigger] copy@[j])@ == entries@[j]@,
                decreases entries.len() - i,
            {
                let entry = &entries[i];
                copy.push(
                    LegacyEntryV1 {
                        lux: entry.lux.clone(),
                        luma: entry.luma,
                        brightness: entry.brightness,
                    },
                );
                i += 1;
            }
            assert(legacy_views(copy@) =~= legacy_views(entries@));
            Some(copy)
        },
        None => None,
    }
}

impl Data {
    pub fn new_kind(
        output_name: &str,
        kind: Kind,
        scale: Scale,
        thresholds: &HashMap<u64, String>,
    ) -> (data: Self)
        ensures
            data.output_name@ == output_name@,
            data.entries@.len() == 0,
            data.legacy_entries_v1 is None,
            data.kind == kind,
            data.thresholds@ == thresholds@,
            data.scale == scale,
    {
        Data {
            output_name: output_name.to_owned(),
            entries: Vec::new(),
            legacy_entries_v1: None,
            kind,
            thresholds: thresholds.clone(),
            scale,
        }
    }

    /// Takes over the stored observations of a kind. The second result says whether their form
    /// changed: they knew no kinds, or were at named profiles, whose forms are kept apart.
    pub fn from_stored(
        output_name: &str,
        kind: Kind,
        stored: StoredData,
        thresholds: &HashMap<u64, String>,
        profiles: &Vec<Profile>,
        scale: Scale,
    ) -> (loaded: (Self, bool))
        ensures
            loaded.0.output_name@ == output_name@,
            loaded.0.kind == kind,
            loaded.0.thresholds@ == thresholds@,
            loaded.0.scale == scale,
            loaded.0.entries@ == migrated_entries(stored.entries.of(kind), profiles@),
            legacy_view(loaded.0.legacy_entries_v1) == appended(
                legacy_view(stored.legacy_entries_v1),
                profile_entries(stored.entries.of(kind)),
            ),
            loaded.1 == stored.migrates(kind),
    {
        let ghost old_entries = stored.entries;
        let ghost kept = legacy_view(stored.legacy_entries_v1);
        let mut migrated = false;
        let mut legacy_entries_v1 = stored.legacy_entries_v1;
        let stored_entries: Vec<StoredEntry> = match stored.entries {
            StoredEntries::Legacy(entries) => {
                migrated = true;
                match kind {
                    Kind::Brightness => entries,
                    _ => Vec::new(),
                }
            },
            StoredEntries::Grouped(groups) => match kind {
                Kind::Brightness => groups.brightness,
                Kind::Dim => groups.dim,
                Kind::Temperature => groups.temperature,
            },
        };
        let ghost all = old_entries.of(kind);
        assert(stored_entries@ =~= all);
        let mut entries: Vec<Entry> = Vec::new();
        let mut i: usize = 0;
        assert(all.take(0) =~= Seq::empty());
        while i < stored_entries.len()
            invariant
                i <= stored_entries.len(),
                stored_entries@ == all,
                all == old_entries.of(kind),
                entries@ == migrated_entries(all.take(i as int), profiles@),
                legacy_view(legacy_entries_v1) == appended(
                    kept,
                    profile_entries(all.take(i as int)),
                ),
                migrated == (old_entries is Legacy || profile_entries(all.take(i as int)).len() > 0),
            decreases stored_entries.len() - i,
        {
            let (entry, legacy) = stored_entries[i].migrate(profiles);
            let ghost before = profile_entries(all.take(i as int));
            proof {
                let next = all.take(i + 1);
                assert(next.drop_last() =~= all.take(i as int));
                assert(next.last() == all[i as int]);
            }
            if let Some(legacy) = legacy {
                migrated = true;
                let ghost more = legacy@;
                let ghost known = legacy_view(legacy_entries_v1);
                let mut list: Vec<LegacyEntryV1> = match legacy_entries_v1 {
                    Some(list) => list,
                    None => Vec::new(),
                };
                let ghost first = list@;
                list.push(legacy);
                proof {
                    assert(legacy_views(list@) =~= legacy_views(first).push(more));
                    assert(appended(kept, before.push(more)) == Some(legacy_views(list@))) by {
                        match kept {
                            Some(some) => {
                                assert(some + before.push(more) =~= (some + before).push(more));
                            },
                            None => {
                                if before.len() == 0 {
                                    assert(legacy_views(first) =~= Seq::empty());
                                    assert(before.push(more) =~= legacy_views(list@));
                                }
                            },
                        }
                    }
                }
                legacy_entries_v1 = Some(list);
            }
            if let Some(entry) = entry {
                entries.push(entry);
            }
            i += 1;
        }
        assert(all.take(i as int) =~= all);
        (
            Data {
                output_name: output_name.to_owned(),
                entries,
                legacy_entries_v1,
                kind,
                thresholds: thresholds.clone(),
                scale,
            },
            migrated,
        )
    }

    /// What is known of a kind once the output's file was read, or could not be. The second result
    /// says whether to write it back.
    pub fn load_kind(
        output_name: &str,
        kind: Kind,
        stored: Option<StoredData>,
        thresholds: &HashMap<u64, String>,
        profiles: &Vec<Profile>,
        scale: Scale,
    ) -> (loaded: (Self, bool))
        ensures
            loaded.0.output_name@ == output_name@,
            loaded.0.kind == kind,
            loaded.0.thresholds@ == thresholds@,
            loaded.0.scale == scale,
            match stored {
                Some(stored) => {
                    &&& loaded.0.entries@ == migrated_entries(stored.entries.of(kind), profiles@)
                    &&& legacy_view(loaded.0.legacy_entries_v1) == appended(
                        legacy_view(stored.legacy_entries_v1),
                        profile_entries(stored.entries.of(kind)),
                    )
                    &&& loaded.1 == stored.migrates(kind)
                },
                None => {
                    &&& loaded.0.entries@.len() == 0
                    &&& loaded.0.legacy_entries_v1 is None
                    &&& !loaded.1
                },
            },
    {
        match stored {
            Some(stored) => Data::from_stored(output_name, kind, stored, thresholds, profiles, scale),
            None => (Data::new_kind(output_name, kind, scale, thresholds), false),
        }
    }

    /// The observations of a kind, where these are of their own kind.
    pub open spec fn of(&self, kind: Kind) -> Seq<Entry> {
        if self.kind == kind {
            self.entries@
        } else {
            Seq::empty()
        }
    }

    /// What is written of these observations alone.
    pub fn saved(&self) -> (saved: SavedData)
        ensures
            saved.output_name@ == self.output_name@,
            saved.entries.brightness@ == self.of(Kind::Brightness),
            saved.entries.dim@ == self.of(Kind::Dim),
            saved.entries.temperature@ == self.of(Kind::Temperature),
            legacy_view(saved.legacy_entries_v1) == legacy_view(self.legacy_entries_v1),
    {
        let mut entries = SavedEntryGroups {
            brightness: Vec::new(),
            dim: Vec::new(),
            temperature: Vec::new(),
        };
        match self.kind {
            Kind::Brightness => entries.brightness = clone_entries(&self.entries),
            Kind::Dim => entries.dim = clone_entries(&self.entries),
            Kind::Temperature => entries.temperature = clone_entries(&self.entries),
        }
        SavedData {
            output_name: self.output_name.clone(),
            entries,
            legacy_entries_v1: clone_legacy(&self.legacy_entries_v1),
        }
    }

    /// The observations of a kind once these replaced those of their own kind.
    pub open spec fn merged(&self, groups: Seq<Data>, kind: Kind) -> Seq<Entry> {
        if self.kind == kind {
            self.entries@
        } else {
            match kind {
                Kind::Brightness => groups[0].entries@,
                Kind::Dim => groups[1].entries@,
                Kind::Temperature => groups[2].entries@,
            }
        }
    }

    /// What is written where the file holds the observations of brightness, dim and temperature: these
    /// observations replace those of their own kind.
    pub fn merge(&self, groups: &[Data; 3]) -> (saved: SavedData)
        ensures
            saved.output_name@ == self.output_name@,
            saved.entries.brightness@ == self.merged(groups@, Kind::Brightness),
            saved.entries.dim@ == self.merged(groups@, Kind::Dim),
            saved.entries.temperature@ == self.merged(groups@, Kind::Temperature),
            legacy_view(saved.legacy_entries_v1) == (if self.kind == Kind::Brightness {
                legacy_view(self.legacy_entries_v1)
            } else {
                legacy_view(groups@[0].legacy_entries_v1)
            }),
    {
        let brightness = match self.kind {
            Kind::Brightness => clone_entries(&self.entries),
            _ => clone_entries(&groups[0].entries),
        };
        let dim = match self.kind {
            Kind::Dim => clone_entries(&self.entries),
            _ => clone_entries(&groups[1].entries),
        };
        let temperature = match self.kind {
            Kind::Temperature => clone_entries(&self.entries),
            _ => clone_entries(&groups[2].entries),
        };
        let legacy_entries_v1 = match self.kind {
            Kind::Brightness => clone_legacy(&self.legacy_entries_v1),
            _ => clone_legacy(&groups[0].legacy_entries_v1),
        };
        SavedData {
            output_name: self.output_name.clone(),
            entries: SavedEntryGroups { brightness, dim, temperature },
            legacy_entries_v1,
        }
    }
}

/// The name of the file that holds what was learned for an output.
pub fn file_name(output_name: &str) -> (name: String)
    ensures
        name@ == output_name@ + ".yaml"@,
{
    let mut name = output_name.to_owned();
    name.append(".yaml");
    name
}

/// The name of the file that a process writes before it takes the place of another one, which may
/// have no proper name.
pub fn temporary_name(file_name: Option<&str>, process: u32) -> (name: String)
    ensures
        name@ == "."@ + (match file_name {
            Some(file_name) => file_name@,
            None => "state"@,
        }) + "."@ + text::decimal(process as int) + ".tmp"@,
{
    let mut name = ".".to_owned();
    match file_name {
        Some(file_name) => name.append(file_name),
        None => name.append("state"),
    }
    name.append(".");
    name.append(text::to_decimal(process).as_str());
    name.append(".tmp");
    name
}

/// Whether stored observations are written ones: each at its reading.
pub open spec fn rereads(stored: Seq<StoredEntry>, written: Seq<Entry>) -> bool {
    &&& stored.len() == written.len()
    &&& forall|i: int|
        0 <= i < stored.len() ==> (#[trigger] stored[i]).als == StoredAls::Value(written[i].als)
            && stored[i].luma == written[i].luma && stored[i].brightness == written[i].brightness
}

/// Whether reading back what was written gave this.
pub open spec fn reread(stored: StoredData, saved: SavedData) -> bool {
    &&& stored.entries is Grouped
    &&& rereads(stored.entries.of(Kind::Brightness), saved.entries.brightness@)
    &&& rereads(stored.entries.of(Kind::Dim), saved.entries.dim@)
    &&& rereads(stored.entries.of(Kind::Temperature), saved.entries.temperature@)
    &&& legacy_view(stored.legacy_entries_v1) == legacy_view(saved.legacy_entries_v1)
}

proof fn lemma_rereads(stored: Seq<StoredEntry>, written: Seq<Entry>, profiles: Seq<Profile>)
    requires
        rereads(stored, written),
    ensures
        migrated_entries(stored, profiles) == written,
        profile_entries(stored).len() == 0,
    decreases stored.len(),
{
    if stored.len() > 0 {
        let front = stored.drop_last();
        let fewer = written.drop_last();
        assert forall|i: int| 0 <= i < front.len() implies (#[trigger] front[i]).als
            == StoredAls::Value(fewer[i].als) && front[i].luma == fewer[i].luma
            && front[i].brightness == fewer[i].brightness by {
            assert(front[i] == stored[i]);
        }
        lemma_rereads(front, fewer, profiles);
        assert(stored.last() == stored[stored.len() - 1]);
        assert(written =~= fewer.push(written.last()));
    } else {
        assert(written =~= Seq::empty());
    }
}

/// What was written of data is read back as it was, with the forms that were kept, and needs no
/// second migration.
pub proof fn law_saved_data_is_read_back(
    data: Data,
    saved: SavedData,
    stored: StoredData,
    profiles: Seq<Profile>,
)
    requires
        saved.entries.brightness@ == data.of(Kind::Brightness),
        saved.entries.dim@ == data.of(Kind::Dim),
        saved.entries.temperature@ == data.of(Kind::Temperature),
        legacy_view(saved.legacy_entries_v1) == legacy_view(data.legacy_entries_v1),
        reread(stored, saved),
    ensures
        migrated_entries(stored.entries.of(data.kind), profiles) == data.entries@,
        appended(
            legacy_view(stored.legacy_entries_v1),
            profile_entries(stored.entries.of(data.kind)),
        ) == legacy_view(data.legacy_entries_v1),
        !stored.migrates(data.kind),
{
    let of_kind = stored.entries.of(data.kind);
    lemma_rereads(of_kind, data.entries@, profiles);
    assert(profile_entries(of_kind) =~= Seq::empty());
    match legacy_view(stored.legacy_entries_v1) {
        Some(kept) => {
            assert(kept + profile_entries(of_kind) =~= kept);
        },
        None => {},
    }
}

/// Writing the observations of one kind leaves those of the other kinds as they were, and reading
/// any kind back gives what was written of it.
pub proof fn law_updating_one_kind_preserves_the_others(
    data: Data,
    groups: Seq<Data>,
    saved: SavedData,
    stored: StoredData,
    profiles: Seq<Profile>,
    kind: Kind,
)
    requires
        groups.len() == 3,
        saved.entries.brightness@ == data.merged(groups, Kind::Brightness),
        saved.entries.dim@ == data.merged(groups, Kind::Dim),
        saved.entries.temperature@ == data.merged(groups, Kind::Temperature),
        reread(stored, saved),
    ensures
        migrated_entries(stored.entries.of(kind), profiles) == (if kind == data.kind {
            data.entries@
        } else {
            match kind {
                Kind::Brightness => groups[0].entries@,
                Kind::Dim => groups[1].entries@,
                Kind::Temperature => groups[2].entries@,
            }
        }),
        !stored.migrates(kind),
{
    lemma_rereads(stored.entries.of(kind), data.merged(groups, kind), profiles);
}

proof fn lemma_profile_entries(stored: Seq<StoredEntry>, at: int)
    requires
        0 <= at < stored.len(),
        stored[at].legacy() is Some,
    ensures
        profile_entries(stored).contains(stored[at].legacy()->0),
    decreases stored.len(),
{
    let front = stored.drop_last();
    let shorter = profile_entries(front);
    if at < front.len() {
        assert(front[at] == stored[at]);
        lemma_profile_entries(front, at);
        let i = shorter.index_of(stored[at].legacy()->0);
        assert(profile_entries(stored)[i] == shorter[i]);
    } else {
        assert(profile_entries(stored).last() == stored[at].legacy()->0);
    }
}

/// No stored observation at a named profile is lost: its form is kept, whether its profile is known
/// or not.
pub proof fn law_profile_entries_are_kept(stored: StoredData, kind: Kind, at: int)
    requires
        0 <= at < stored.entries.of(kind).len(),
        stored.entries.of(kind)[at].legacy() is Some,
    ensures
        ({
            let kept = appended(
                legacy_view(stored.legacy_entries_v1),
                profile_entries(stored.entries.of(kind)),
            );
            kept is Some && kept->0.contains(stored.entries.of(kind)[at].legacy()->0)
        }),
        stored.migrates(kind),
{
    let all = stored.entries.of(kind);
    lemma_profile_entries(all, at);
    let more = profile_entries(all);
    let i = more.index_of(all[at].legacy()->0);
    match legacy_view(stored.legacy_entries_v1) {
        Some(kept) => {
            assert((kept + more)[kept.len() + i] == more[i]);
        },
        None => {},
    }
}

} // verus!
