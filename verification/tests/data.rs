use serde_yaml::{Mapping, Value};
use std::collections::HashMap;
use wluma::als::Scale;
use wluma::predictor::data::{
    bounds, file_name, linear_midpoint, linear_profiles, sort_thresholds, Data, Entry, Kind, LegacyEntryV1,
    temporary_name, Profile, SavedData, StoredAls, StoredData, StoredEntries, StoredEntry,
    StoredEntryGroups, Upper,
};

fn number(value: &Value) -> u64 {
    value.as_u64().unwrap()
}

fn field<'a>(value: &'a Value, names: &[&str]) -> &'a Value {
    names.iter().find_map(|name| value.get(*name)).unwrap()
}

fn stored_entries(value: Option<&Value>) -> Vec<StoredEntry> {
    let Some(Value::Sequence(entries)) = value else {
        return Vec::new();
    };
    entries
        .iter()
        .map(|entry| StoredEntry {
            als: match field(entry, &["als", "lux"]) {
                Value::String(profile) => StoredAls::Profile(profile.clone()),
                value => StoredAls::Value(number(value)),
            },
            luma: number(field(entry, &["luma"])) as u8,
            brightness: number(field(entry, &["brightness", "value"])),
        })
        .collect()
}

fn read(yaml: &str) -> StoredData {
    let value: Value = serde_yaml::from_str(yaml).unwrap();
    let entries = value.get("entries").unwrap();
    StoredData {
        output_name: value
            .get("output_name")
            .and_then(Value::as_str)
            .unwrap()
            .to_string(),
        entries: if entries.is_sequence() {
            StoredEntries::Legacy(stored_entries(Some(entries)))
        } else {
            StoredEntries::Grouped(StoredEntryGroups {
                brightness: stored_entries(entries.get("brightness")),
                dim: stored_entries(entries.get("dim")),
                temperature: stored_entries(entries.get("temperature")),
            })
        },
        legacy_entries_v1: value.get("legacy_entries_v1").map(|entries| {
            entries
                .as_sequence()
                .unwrap()
                .iter()
                .map(|entry| LegacyEntryV1 {
                    lux: field(entry, &["lux"]).as_str().unwrap().to_string(),
                    luma: number(field(entry, &["luma"])) as u8,
                    brightness: number(field(entry, &["brightness"])),
                })
                .collect()
        }),
    }
}

fn mapping(fields: Vec<(&str, Value)>) -> Value {
    let mut mapping = Mapping::new();
    for (name, value) in fields {
        mapping.insert(Value::from(name), value);
    }
    Value::Mapping(mapping)
}

fn written_entries(entries: &[Entry]) -> Value {
    Value::Sequence(
        entries
            .iter()
            .map(|entry| {
                mapping(vec![
                    ("als", Value::from(entry.als)),
                    ("luma", Value::from(entry.luma as u64)),
                    ("value", Value::from(entry.brightness)),
                ])
            })
            .collect(),
    )
}

fn write(saved: &SavedData) -> String {
    let mut fields = vec![
        ("output_name", Value::from(saved.output_name.as_str())),
        (
            "entries",
            mapping(vec![
                ("brightness", written_entries(&saved.entries.brightness)),
                ("dim", written_entries(&saved.entries.dim)),
                ("temperature", written_entries(&saved.entries.temperature)),
            ]),
        ),
    ];
    if let Some(entries) = &saved.legacy_entries_v1 {
        fields.push((
            "legacy_entries_v1",
            Value::Sequence(
                entries
                    .iter()
                    .map(|entry| {
                        mapping(vec![
                            ("lux", Value::from(entry.lux.as_str())),
                            ("luma", Value::from(entry.luma as u64)),
                            ("brightness", Value::from(entry.brightness)),
                        ])
                    })
                    .collect(),
            ),
        ));
    }
    serde_yaml::to_string(&mapping(fields)).unwrap()
}

fn linear(thresholds: &HashMap<u64, String>) -> Vec<Profile> {
    linear_profiles(&sort_thresholds(thresholds))
}

fn first(stored: StoredData) -> StoredEntry {
    stored.entries.into_entries().into_iter().next().unwrap()
}

#[test]
fn migrates_profile_to_bucket_midpoint() {
    let stored = read(
        "output_name: panel\nentries:\n  - lux: dark\n    luma: 20\n    brightness: 30\n",
    );
    let thresholds = [(10, "dark".to_string()), (20, "dark".to_string())]
        .into_iter()
        .collect();
    let (entry, legacy) = first(stored).migrate(&linear(&thresholds));
    assert_eq!(Some(Entry::new(15, 20, 30)), entry);
    assert_eq!(
        Some(LegacyEntryV1 {
            lux: "dark".to_string(),
            luma: 20,
            brightness: 30,
        }),
        legacy
    );
}

#[test]
fn accepts_numeric_als() {
    let stored =
        read("output_name: panel\nentries:\n  - als: 42\n    luma: 20\n    brightness: 30\n");
    let (entry, legacy) = first(stored).migrate(&linear(&HashMap::new()));
    assert_eq!(Some(Entry::new(42, 20, 30)), entry);
    assert_eq!(None, legacy);
}

#[test]
fn drops_unknown_profiles_as_migrated() {
    let stored = read(
        "output_name: panel\nentries:\n  - lux: unknown\n    luma: 20\n    brightness: 30\n",
    );
    let (entry, legacy) = first(stored).migrate(&linear(&HashMap::new()));
    assert_eq!(None, entry);
    assert_eq!(
        Some(LegacyEntryV1 {
            lux: "unknown".to_string(),
            luma: 20,
            brightness: 30,
        }),
        legacy
    );
}

#[test]
fn keeps_linear_migration_in_native_domain() {
    let stored = read(
        "output_name: panel\nentries:\n  - lux: bright\n    luma: 20\n    brightness: 30\n",
    );
    let thresholds = [(80, "bright".to_string()), (20, "dim".to_string())]
        .into_iter()
        .collect();
    let (entry, _) = first(stored).migrate(&linear(&thresholds));
    assert_eq!(Some(Entry::new(100, 20, 30)), entry);
}

#[test]
fn preserves_legacy_entries_across_reloads() {
    let stored = read(
        "output_name: panel\nentries:\n  - lux: dark\n    luma: 20\n    brightness: 30\n",
    );
    let thresholds = [(10, "dark".to_string()), (20, "bright".to_string())]
        .into_iter()
        .collect();
    let profiles = linear(&thresholds);

    let (migrated, was_migrated) = Data::from_stored(
        "panel",
        Kind::Brightness,
        stored,
        &thresholds,
        &profiles,
        Scale::Linear,
    );
    assert!(was_migrated);
    assert_eq!(vec![Entry::new(15, 20, 30)], migrated.entries);

    let stored = read(&write(&migrated.saved()));
    let (reloaded, was_migrated) = Data::from_stored(
        "panel",
        Kind::Brightness,
        stored,
        &thresholds,
        &profiles,
        Scale::Linear,
    );
    assert!(!was_migrated);
    assert_eq!(migrated.output_name, reloaded.output_name);
    assert_eq!(migrated.entries, reloaded.entries);
    assert_eq!(migrated.legacy_entries_v1, reloaded.legacy_entries_v1);
    assert_eq!(migrated.kind, reloaded.kind);
    assert_eq!(migrated.thresholds, reloaded.thresholds);
    assert_eq!(migrated.scale, reloaded.scale);
}

#[test]
fn groups_values_by_kind() {
    let mut data = Data::new_kind("panel", Kind::Temperature, Scale::Linear, &HashMap::new());
    data.entries.push(Entry::new(10, 20, 4500));
    let yaml = write(&data.saved());
    assert!(yaml.contains("brightness: []"));
    assert!(yaml.contains("dim: []"));
    assert!(yaml.contains("temperature:"));
    assert!(yaml.contains("value: 4500"));
}

#[test]
fn updating_one_kind_preserves_the_other_kinds() {
    let thresholds = HashMap::new();
    let mut groups = [Kind::Brightness, Kind::Dim, Kind::Temperature]
        .map(|kind| Data::new_kind("panel", kind, Scale::Linear, &thresholds));
    groups[Kind::Brightness as usize].entries = vec![Entry::new(10, 20, 30)];
    groups[Kind::Dim as usize].entries = vec![Entry::new(10, 20, 40)];
    groups[Kind::Temperature as usize].entries = vec![Entry::new(10, 0, 4500)];
    let mut update = Data::new_kind("panel", Kind::Dim, Scale::Linear, &thresholds);
    update.entries = vec![Entry::new(20, 30, 50)];

    let yaml = write(&update.merge(&groups));
    let stored = read(&yaml);
    let StoredEntries::Grouped(groups) = stored.entries else {
        unreachable!()
    };

    assert_eq!(groups.brightness.len(), 1);
    assert_eq!(groups.brightness[0].brightness, 30);
    assert_eq!(groups.dim.len(), 1);
    assert_eq!(groups.dim[0].brightness, 50);
    assert_eq!(groups.temperature.len(), 1);
    assert_eq!(groups.temperature[0].brightness, 4500);
}

#[test]
fn omits_legacy_field_for_new_data() {
    let data = Data::new_kind("panel", Kind::Brightness, Scale::Linear, &HashMap::new());
    let yaml = write(&data.saved());
    assert!(!yaml.contains("legacy_entries_v1"));
}

#[test]
fn kinds_have_names_and_units() {
    let all = [Kind::Brightness, Kind::Dim, Kind::Temperature];
    assert_eq!(all.map(Kind::name), ["brightness", "dim", "temperature"]);
    assert_eq!(all.map(Kind::unit), ["", "%", "K"]);
}

#[test]
fn thresholds_are_sorted() {
    let thresholds = [
        (80, "bright".to_string()),
        (0, "night".to_string()),
        (20, "dim".to_string()),
    ]
    .into_iter()
    .collect();
    let list = sort_thresholds(&thresholds);
    let values: Vec<_> = list
        .iter()
        .map(|threshold| (threshold.value, threshold.name.as_str()))
        .collect();
    assert_eq!(values, vec![(0, "night"), (20, "dim"), (80, "bright")]);
    assert_eq!(bounds(&list, 0), (0, Upper::Next(20)));
    assert_eq!(bounds(&list, 2), (80, Upper::Mirror(20)));
    assert_eq!(linear_midpoint((0, Upper::Next(20))), 10);
    assert_eq!(linear_midpoint((0, Upper::Next(21))), 11);
    assert_eq!(linear_midpoint((7, Upper::Same)), 7);
    assert_eq!(linear_midpoint((50, Upper::Mirror(40))), 55);
    assert_eq!(linear_midpoint((u64::MAX, Upper::Mirror(0))), 100);
}

#[test]
fn the_profile_none_stands_for_darkness() {
    let entry = StoredEntry {
        als: StoredAls::Profile("none".to_string()),
        luma: 1,
        brightness: 2,
    };
    let (migrated, legacy) = entry.migrate(&vec![]);
    assert_eq!(migrated, Some(Entry::new(0, 1, 2)));
    assert_eq!(legacy.unwrap().lux, "none");
}

#[test]
fn data_without_kinds_is_of_brightness() {
    let yaml = "output_name: panel\nentries:\n  - als: 1\n    luma: 2\n    brightness: 3\n";
    let load = |kind| {
        Data::load_kind(
            "panel",
            kind,
            Some(read(yaml)),
            &HashMap::new(),
            &vec![],
            Scale::Lux,
        )
    };
    let (brightness, migrated) = load(Kind::Brightness);
    assert_eq!(brightness.entries, vec![Entry::new(1, 2, 3)]);
    assert_eq!(brightness.legacy_entries_v1, None);
    assert!(migrated);
    let (dim, migrated) = load(Kind::Dim);
    assert!(dim.entries.is_empty());
    assert!(migrated);
    let (nothing, migrated) = Data::load_kind(
        "panel",
        Kind::Dim,
        None,
        &HashMap::new(),
        &vec![],
        Scale::Lux,
    );
    assert!(nothing.entries.is_empty());
    assert!(!migrated);
}

#[test]
fn kept_entries_are_extended_and_survive_other_kinds() {
    let yaml = "output_name: panel\nentries:\n  brightness:\n  - als: dark\n    luma: 2\n    value: 3\n  dim:\n  - als: 5\n    luma: 6\n    value: 7\nlegacy_entries_v1:\n- lux: old\n  luma: 1\n  brightness: 1\n";
    let load = |kind| {
        Data::from_stored(
            "panel",
            kind,
            read(yaml),
            &HashMap::new(),
            &vec![],
            Scale::Lux,
        )
    };
    let (brightness, migrated) = load(Kind::Brightness);
    assert!(migrated);
    assert!(brightness.entries.is_empty());
    let kept: Vec<_> = brightness
        .legacy_entries_v1
        .as_ref()
        .unwrap()
        .iter()
        .map(|entry| entry.lux.as_str())
        .collect();
    assert_eq!(kept, vec!["old", "dark"]);

    let (dim, migrated) = load(Kind::Dim);
    assert!(!migrated);
    assert_eq!(dim.entries, vec![Entry::new(5, 6, 7)]);
    let (temperature, _) = load(Kind::Temperature);
    let (update, _) = load(Kind::Dim);
    let saved = update.merge(&[brightness, dim, temperature]);
    assert_eq!(saved.legacy_entries_v1.unwrap().len(), 2);
    assert_eq!(saved.entries.dim, vec![Entry::new(5, 6, 7)]);
}

#[test]
fn files_are_named_after_outputs() {
    assert_eq!(file_name("eDP-1"), "eDP-1.yaml");
    assert_eq!(
        temporary_name(Some("eDP-1.yaml"), 4321),
        ".eDP-1.yaml.4321.tmp"
    );
    assert_eq!(temporary_name(None, 7), ".state.7.tmp");
}

#[test]
fn entries_of_brightness_come_first() {
    let grouped = read(
        "output_name: panel\nentries:\n  brightness:\n  - als: 1\n    luma: 2\n    value: 3\n  dim: []\n",
    );
    assert_eq!(grouped.entries.into_entries()[0].als, StoredAls::Value(1));
}
