use std::collections::HashMap;
use wluma::als::{Reading, Scale};
use wluma::predictor::controller::adaptive::{
    collapse_luma, Action, Controller, LumaDirection, REPLACEMENT_DISTANCE,
};
use wluma::predictor::controller::monotonic::linear_coordinate;
use wluma::predictor::controller::{
    self, influence, Cooldown, Influence, Inner, Turn, MAX_DISTANCE, PENDING_COOLDOWN,
};
use wluma::predictor::data::{Entry, Kind, StoredAls, StoredData, StoredEntries, StoredEntry};
use wluma::predictor::AlsDirection;

const ALS_DARK: u64 = 10;
const ALS_DIM: u64 = 20;
const ALS_BRIGHT: u64 = 30;

fn stable(value: u64) -> Reading {
    Reading {
        value,
        stable: true,
    }
}

fn unstable(value: u64) -> Reading {
    Reading {
        value,
        stable: false,
    }
}

fn setup() -> Controller {
    let (controller, save) = Controller::new(
        false,
        "Dell 1",
        Scale::Linear,
        &HashMap::new(),
        None,
        &vec![],
    );
    assert!(!save);
    controller
}

fn distances(controller: &Controller) -> Vec<u64> {
    let pending = controller.pending.unwrap();
    controller
        .data
        .entries
        .iter()
        .map(|entry| {
            let als = (pending.als as f64 - entry.als as f64) / 20.0;
            let luma = (pending.luma as f64 - entry.luma as f64) / 20.0;
            let distance = if controller.luma_aware {
                als.hypot(luma)
            } else {
                als.abs()
            };
            distance.to_bits()
        })
        .collect()
}

fn learn(controller: &mut Controller) -> bool {
    let distances = distances(controller);
    controller.learn(&distances)
}

fn act(controller: &mut Controller, action: Action) -> Option<u64> {
    match action {
        Action::Wait => None,
        Action::Learn => {
            learn(controller);
            None
        }
        Action::Predict(als, luma) => controller.predict_linear(als, luma),
    }
}

fn process(
    controller: &mut Controller,
    reading: Reading,
    luma: u8,
    user: Option<u64>,
    now: u64,
) -> Option<u64> {
    let action = controller.process_reading(reading, luma, user, now);
    act(controller, action)
}

fn start(controller: &mut Controller, luma: u8) -> Option<u64> {
    let action = controller.adjust(Some((stable(ALS_BRIGHT), 0)), None, None, luma, 0);
    act(controller, action)
}

#[test]
fn can_ignore_initial_value() {
    let mut controller = setup().without_initial_value();
    let prediction = start(&mut controller, 20);

    assert!(controller.data.entries.is_empty());
    assert!(controller.pending.is_none());
    assert!(prediction.is_none());
}

#[test]
fn learns_the_initial_value() {
    let mut controller = setup();
    assert!(controller.is_starting());
    start(&mut controller, 20);
    assert!(!controller.is_starting());
    assert_eq!(controller.pending, Some(Entry::new(ALS_BRIGHT, 20, 0)));
    process(&mut controller, stable(ALS_DIM), 50, None, PENDING_COOLDOWN);
    assert_eq!(controller.data.entries, vec![Entry::new(ALS_DIM, 20, 0)]);
}

#[test]
fn discards_brightness_changes_that_cannot_be_matched_to_a_frame() {
    let mut controller = setup();
    start(&mut controller, 20);
    assert!(controller.pending.is_some());

    controller.discard_stale_inputs(Some(stable(ALS_DARK)));

    assert!(controller.pending.is_none());
    assert_eq!(controller.last_als, Some(stable(ALS_DARK)));
    controller.discard_stale_inputs(None);
    assert_eq!(controller.last_als, Some(stable(ALS_DARK)));
}

#[test]
fn a_starting_controller_keeps_its_inputs() {
    let mut controller = setup();
    controller.discard_stale_inputs(Some(stable(ALS_DARK)));
    assert!(controller.is_starting());
    controller.discard_inputs(Some(stable(ALS_DARK)), None);
    assert_eq!(controller.last_als, Some(stable(ALS_DARK)));
    controller.discard_inputs(None, Some(stable(ALS_DIM)));
    assert_eq!(controller.last_als, Some(stable(ALS_DIM)));
}

#[test]
fn can_ignore_luma_without_discarding_it() {
    let mut controller = setup();
    controller.data.entries =
        vec![Entry::new(ALS_DIM, 10, 4000), Entry::new(ALS_DIM, 90, 5000)];
    controller = controller.without_initial_value().without_luma();

    assert_eq!(
        vec![Entry::new(ALS_DIM, 10, 4000), Entry::new(ALS_DIM, 90, 5000)],
        controller.data.entries
    );
    assert_eq!(start(&mut controller, 10), Some(4500));
    assert_eq!(
        process(&mut controller, stable(ALS_DIM), 90, None, 0),
        Some(4500)
    );

    process(&mut controller, stable(ALS_DIM), 70, Some(4600), 0);
    process(&mut controller, stable(ALS_DIM), 20, None, PENDING_COOLDOWN);
    assert_eq!(vec![Entry::new(ALS_DIM, 70, 4600)], controller.data.entries);
}

#[test]
fn test_process_first_user_change() {
    let mut controller = setup();

    process(&mut controller, stable(ALS_DIM), 66, Some(33), 7);

    assert_eq!(Some(Entry::new(ALS_DIM, 66, 33)), controller.pending);
    assert!(controller.pending_cooldown.is_active(7));
}

#[test]
fn test_process_several_continuous_user_changes() {
    let mut controller = setup();

    process(&mut controller, stable(ALS_DIM), 66, Some(33), 0);
    process(&mut controller, stable(ALS_BRIGHT), 36, Some(34), 1);
    process(&mut controller, stable(ALS_DARK), 16, Some(36), 2);

    assert_eq!(Some(Entry::new(ALS_DARK, 16, 36)), controller.pending);
    assert!(controller.pending_cooldown.is_active(1 + PENDING_COOLDOWN));
    assert!(!controller.pending_cooldown.is_active(2 + PENDING_COOLDOWN));
}

#[test]
fn test_process_learns_user_change_after_cooldown() {
    let mut controller = setup();

    process(&mut controller, stable(ALS_DIM), 66, Some(33), 0);
    process(&mut controller, stable(ALS_BRIGHT), 64, Some(33), 0);
    process(&mut controller, stable(ALS_DARK), 62, Some(35), 0);

    process(&mut controller, stable(ALS_BRIGHT), 60, None, 1);
    assert!(controller.pending_cooldown.is_active(1));
    assert_eq!(Some(Entry::new(ALS_BRIGHT, 62, 35)), controller.pending);

    process(&mut controller, stable(ALS_DARK), 61, None, PENDING_COOLDOWN);

    assert_eq!(None, controller.pending);
    assert!(!controller.pending_cooldown.is_active(PENDING_COOLDOWN));
    assert_eq!(vec![Entry::new(ALS_DARK, 62, 35)], controller.data.entries);
}

#[test]
fn unstable_als_prevents_prediction() {
    let mut controller = setup();
    controller.data.entries = vec![Entry::new(ALS_DIM, 20, 30)];

    assert_eq!(
        process(&mut controller, unstable(ALS_DIM), 20, None, 0),
        None
    );
    assert_eq!(
        process(&mut controller, stable(ALS_DIM), 20, None, 0),
        Some(30)
    );
}

#[test]
fn unstable_als_delays_learning_after_cooldown() {
    let mut controller = setup();
    process(&mut controller, stable(ALS_DIM), 20, Some(33), 0);
    process(&mut controller, unstable(ALS_DIM), 20, None, 1);
    process(&mut controller, unstable(ALS_DIM), 20, None, PENDING_COOLDOWN);
    assert!(controller.pending.is_some());
    assert!(controller.data.entries.is_empty());

    process(&mut controller, stable(ALS_BRIGHT), 20, None, PENDING_COOLDOWN);

    assert_eq!(None, controller.pending);
    assert_eq!(
        vec![Entry::new(ALS_BRIGHT, 20, 33)],
        controller.data.entries
    );
}

#[test]
fn an_unstable_reading_keeps_the_pending_one() {
    let mut controller = setup();
    process(&mut controller, unstable(ALS_DIM), 20, Some(33), 0);
    assert_eq!(controller.pending, Some(Entry::new(ALS_DIM, 20, 33)));
    process(&mut controller, unstable(ALS_BRIGHT), 25, Some(34), 0);
    assert_eq!(controller.pending, Some(Entry::new(ALS_DIM, 25, 34)));
}

#[test]
fn learning_replaces_only_observations_of_the_same_conditions() {
    let mut controller = setup();
    controller.data.entries = vec![
        Entry::new(21, 20, 31),
        Entry::new(10, 30, 31),
        Entry::new(30, 10, 29),
    ];
    controller.pending = Some(Entry::new(ALS_DIM, 20, 30));

    assert!(!learn(&mut controller));

    assert_eq!(
        vec![
            Entry::new(10, 30, 31),
            Entry::new(20, 20, 30),
            Entry::new(30, 10, 29),
        ],
        controller.data.entries
    );
}

#[test]
fn the_replacement_distance_is_a_quarter() {
    assert_eq!(REPLACEMENT_DISTANCE, 0.25_f64.to_bits());
    let mut controller = setup();
    controller.data.entries = vec![Entry::new(15, 0, 1), Entry::new(14, 0, 2)];
    controller.pending = Some(Entry::new(20, 0, 3));
    learn(&mut controller);
    assert_eq!(
        controller.data.entries,
        vec![Entry::new(14, 0, 2), Entry::new(20, 0, 3)]
    );
}

#[test]
fn test_predict_no_data_points() {
    let mut controller = setup();
    assert_eq!(controller.predict_linear(ALS_DIM, 20), None);
    assert_eq!(controller.predict(linear_coordinate(ALS_DIM), 20), None);
}

#[test]
fn one_observation_is_used_across_the_domain() {
    let mut controller = setup();
    controller.data.entries = vec![Entry::new(100, 100, 42)];

    assert_eq!(controller.predict_linear(ALS_DIM, 20), Some(42));
}

#[test]
fn reported_non_monotonic_case_is_monotonic() {
    let (mut controller, _) =
        Controller::new(false, "Dell 1", Scale::Lux, &HashMap::new(), None, &vec![]);
    controller.data.entries = vec![
        Entry::new(0, 14, 10),
        Entry::new(1, 61, 10),
        Entry::new(503, 0, 100),
        Entry::new(1264, 18, 100),
    ];
    let coordinate = |als: u64| (als as f64 + 1.0).log10().to_bits();
    let coordinates: Vec<u64> = controller
        .data
        .entries
        .iter()
        .map(|entry| coordinate(entry.als))
        .collect();
    controller.prepare(&coordinates);
    let darker = controller.predict(coordinate(0), 20).unwrap();
    let whiter = controller.predict(coordinate(0), 47).unwrap();

    assert!(whiter <= darker, "{whiter} > {darker}");
}

#[test]
fn predictions_follow_what_is_learned() {
    let mut controller = setup();
    controller.data.entries = vec![Entry::new(ALS_DIM, 20, 30)];
    assert_eq!(controller.predict_linear(ALS_DIM, 20), Some(30));
    controller.pending = Some(Entry::new(ALS_DIM, 20, 70));
    learn(&mut controller);
    assert_eq!(controller.predict_linear(ALS_DIM, 20), Some(70));
}

#[test]
fn directions_decide_how_values_grow() {
    let controller = setup()
        .with_als_direction(AlsDirection::Decreasing)
        .with_luma_direction(LumaDirection::Increasing);
    let mut controller = controller;
    controller.data.entries = vec![Entry::new(20, 20, 80), Entry::new(80, 20, 20)];
    assert_eq!(controller.predict_linear(50, 20), Some(50));
    assert_eq!(controller.predict_linear(0, 20), Some(80));
    assert_eq!(controller.predict_linear(100, 20), Some(20));
}

#[test]
fn stateful_controllers_load_and_save() {
    let stored = StoredData {
        output_name: "Dell 1".to_string(),
        entries: StoredEntries::Legacy(vec![StoredEntry {
            als: StoredAls::Value(3),
            luma: 4,
            brightness: 5,
        }]),
        legacy_entries_v1: None,
    };
    let (mut controller, save) = Controller::new_kind(
        true,
        "Dell 1",
        Scale::Linear,
        &HashMap::new(),
        Kind::Brightness,
        Some(stored),
        &vec![],
    );
    assert!(save);
    assert_eq!(controller.data.entries, vec![Entry::new(3, 4, 5)]);
    controller.pending = Some(Entry::new(50, 50, 50));
    assert!(learn(&mut controller));
}

#[test]
fn averages_values_without_regard_to_luma() {
    let entries = vec![
        Entry::new(20, 10, 3),
        Entry::new(5, 1, 9),
        Entry::new(20, 90, 4),
        Entry::new(5, 2, 10),
        Entry::new(5, 3, u64::MAX),
        Entry::new(7, 3, u64::MAX),
        Entry::new(7, 4, u64::MAX),
    ];
    assert_eq!(
        collapse_luma(&entries),
        vec![
            Entry::new(5, 0, 6148914691236517211),
            Entry::new(7, 0, u64::MAX),
            Entry::new(20, 0, 4),
        ]
    );
    assert!(collapse_luma(&vec![]).is_empty());
}

#[test]
fn cooldowns_end() {
    let mut cooldown = Cooldown::default();
    assert!(!cooldown.is_active(0));
    cooldown.reset(5, 10);
    assert!(cooldown.is_active(14));
    assert!(!cooldown.is_active(15));
    cooldown.clear();
    assert!(!cooldown.is_active(0));
}

#[test]
fn paused_and_disabled_controllers_take_no_turn() {
    let controller = controller::Controller::adaptive()
        .with_status(false)
        .with_additional(vec![
            controller::Controller::adaptive(),
            controller::Controller::adaptive().with_enabled(false),
            controller::Controller::adaptive().with_status(true),
            controller::Controller::manual().with_enabled(false),
            controller::Controller::manual().with_enabled(true),
        ]);
    let adjustment = controller.adjust().unwrap();
    assert!(adjustment.report);
    assert_eq!(
        adjustment.additional,
        vec![
            Turn::Adjust,
            Turn::Discard,
            Turn::Skip,
            Turn::Skip,
            Turn::Adjust
        ]
    );
    assert!(controller::Controller::adaptive()
        .with_status(true)
        .adjust()
        .is_none());
    assert!(controller::Controller::manual()
        .with_enabled(false)
        .adjust()
        .is_none());
    assert_eq!(controller::Controller::manual().inner, Inner::Manual);
}

#[test]
fn near_observations_have_influence() {
    assert_eq!(MAX_DISTANCE, 5.0_f64.to_bits());
    let bits = |distances: &[f64]| {
        distances
            .iter()
            .map(|distance| distance.to_bits())
            .collect::<Vec<_>>()
    };
    assert_eq!(influence(&bits(&[])), Influence::Nothing);
    assert_eq!(influence(&bits(&[5.1, f64::MAX])), Influence::Nothing);
    assert_eq!(
        influence(&bits(&[5.1, 5.0, 1e-300, 4.9])),
        Influence::Weighted(vec![1, 2, 3])
    );
    assert_eq!(influence(&bits(&[1.0, 0.0, 0.0])), Influence::Exact(1));
}

#[test]
fn predictions_stay_within_what_was_learned() {
    let mut controller = setup();
    controller.data.entries = vec![Entry::new(10, 80, 35), Entry::new(60, 20, 71)];
    for als in [0, 10, 33, 60, 100, 5000] {
        for luma in [0, 20, 50, 80, 255] {
            let value = controller.predict_linear(als, luma).unwrap();
            assert!((35..=71).contains(&value));
        }
    }
}

#[test]
fn pending_choices_suspend_predictions() {
    let mut controller = setup();
    controller.data.entries = vec![Entry::new(ALS_DIM, 20, 30)];
    assert_eq!(
        controller.process_reading(stable(ALS_DIM), 20, Some(40), 0),
        Action::Wait
    );
    assert_eq!(
        controller.process_reading(stable(ALS_DIM), 20, None, PENDING_COOLDOWN - 1),
        Action::Wait
    );
    assert_eq!(
        controller.process_reading(stable(ALS_DIM), 20, None, PENDING_COOLDOWN),
        Action::Learn
    );
    learn(&mut controller);
    assert_eq!(
        controller.process_reading(stable(ALS_DIM), 20, None, PENDING_COOLDOWN),
        Action::Predict(ALS_DIM, 20)
    );
}
