use wluma::als::Scale;
use wluma::predictor::controller::adaptive::LumaDirection;
use wluma::predictor::controller::monotonic::{linear_coordinate, Model, Sample};
use wluma::predictor::data::Entry;
use wluma::predictor::AlsDirection;

fn lux_coordinate(als: u64) -> u64 {
    (als as f64 + 1.0).log10().to_bits()
}

fn coordinate(scale: Scale, als: u64) -> u64 {
    match scale {
        Scale::Linear => linear_coordinate(als),
        Scale::Lux => lux_coordinate(als),
    }
}

fn fit(
    entries: &[Entry],
    scale: Scale,
    als_direction: AlsDirection,
    luma_direction: LumaDirection,
    luma_aware: bool,
) -> Option<Model> {
    let samples: Vec<Sample> = entries
        .iter()
        .map(|entry| Sample {
            als: coordinate(scale, entry.als),
            luma: entry.luma,
            brightness: entry.brightness,
        })
        .collect();
    Model::fit(&samples, scale, als_direction, luma_direction, luma_aware)
}

fn model(entries: &[Entry]) -> Model {
    fit(
        entries,
        Scale::Linear,
        AlsDirection::Increasing,
        LumaDirection::Increasing,
        true,
    )
    .unwrap()
}

fn predict(model: &Model, als: u64, luma: u8) -> f64 {
    f64::from_bits(model.predict(coordinate(model.scale, als), luma).to_bits())
}

#[test]
fn consistent_observations_are_exact_anchors() {
    let entries = vec![
        Entry::new(10, 10, 20),
        Entry::new(50, 30, 50),
        Entry::new(90, 80, 90),
    ];
    let model = model(&entries);

    for entry in entries {
        assert_eq!(
            entry.brightness as f64,
            predict(&model, entry.als, entry.luma)
        );
    }
}

#[test]
fn incomparable_observations_remain_exact() {
    let entries = vec![Entry::new(20, 80, 70), Entry::new(80, 20, 30)];
    let model = model(&entries);

    for entry in entries {
        assert_eq!(
            entry.brightness as f64,
            predict(&model, entry.als, entry.luma)
        );
    }
}

#[test]
fn sparse_observations_are_interpolated() {
    let model = model(&[Entry::new(0, 0, 20), Entry::new(100, 100, 80)]);

    assert_eq!(20.0, predict(&model, 0, 0));
    assert_eq!(50.0, predict(&model, 50, 50));
    assert_eq!(80.0, predict(&model, 100, 100));
}

#[test]
fn one_observation_is_constant_across_the_domain() {
    let model = model(&[Entry::new(50, 50, 42)]);

    assert_eq!(42.0, predict(&model, 0, 0));
    assert_eq!(42.0, predict(&model, 100, 100));
}

#[test]
fn contradictory_observations_are_retained_as_a_monotonic_compromise() {
    let model = model(&[Entry::new(20, 20, 80), Entry::new(80, 80, 20)]);

    assert_eq!(50.0, predict(&model, 20, 20));
    assert_eq!(50.0, predict(&model, 80, 80));
}

#[test]
fn prediction_is_globally_monotonic_in_every_direction() {
    let entries = vec![
        Entry::new(0, 14, 10),
        Entry::new(1, 61, 10),
        Entry::new(50, 40, 60),
        Entry::new(90, 18, 100),
    ];

    for als_direction in [AlsDirection::Increasing, AlsDirection::Decreasing] {
        for luma_direction in [LumaDirection::Increasing, LumaDirection::Decreasing] {
            let model =
                fit(&entries, Scale::Linear, als_direction, luma_direction, true).unwrap();
            for luma in 0..=100 {
                let predictions = (0..=100)
                    .map(|als| predict(&model, als, luma))
                    .collect::<Vec<_>>();
                assert!(predictions.windows(2).all(|pair| match als_direction {
                    AlsDirection::Increasing => pair[0] <= pair[1] + f64::EPSILON,
                    AlsDirection::Decreasing => pair[0] + f64::EPSILON >= pair[1],
                }));
            }
            for als in 0..=100 {
                let predictions = (0..=100)
                    .map(|luma| predict(&model, als, luma))
                    .collect::<Vec<_>>();
                assert!(predictions.windows(2).all(|pair| match luma_direction {
                    LumaDirection::Increasing => pair[0] <= pair[1] + f64::EPSILON,
                    LumaDirection::Decreasing => pair[0] + f64::EPSILON >= pair[1],
                }));
            }
        }
    }
}

#[test]
fn lux_observations_beyond_the_normal_domain_remain_exact() {
    let entries = vec![Entry::new(100, 20, 20), Entry::new(2_000_000, 20, 80)];
    let model = fit(
        &entries,
        Scale::Lux,
        AlsDirection::Increasing,
        LumaDirection::Increasing,
        true,
    )
    .unwrap();

    assert_eq!(80.0, predict(&model, 2_000_000, 20));
}

#[test]
fn ignoring_luma_reproduces_als_observations() {
    let entries = vec![Entry::new(20, 10, 20), Entry::new(80, 90, 80)];
    let model = fit(
        &entries,
        Scale::Linear,
        AlsDirection::Increasing,
        LumaDirection::Decreasing,
        false,
    )
    .unwrap();

    assert_eq!(20.0, predict(&model, 20, 0));
    assert_eq!(20.0, predict(&model, 20, 100));
    assert_eq!(80.0, predict(&model, 80, 50));
}

#[test]
fn nothing_is_fitted_to_nothing() {
    assert!(fit(
        &[],
        Scale::Linear,
        AlsDirection::Increasing,
        LumaDirection::Increasing,
        true
    )
    .is_none());
}

#[test]
fn lux_readings_are_interpolated_by_their_ratio() {
    let entries = vec![Entry::new(9, 0, 10), Entry::new(999, 0, 30)];
    let model = fit(
        &entries,
        Scale::Lux,
        AlsDirection::Increasing,
        LumaDirection::Increasing,
        true,
    )
    .unwrap();
    assert!((predict(&model, 99, 0) - 20.0).abs() < 1e-9);
    assert_eq!(model.predict(lux_coordinate(99), 0).rounded(), 20);
}

#[test]
fn predictions_round_halves_up() {
    let model = model(&[Entry::new(0, 0, 1), Entry::new(100, 0, 2)]);
    assert_eq!(model.predict(linear_coordinate(50), 0).rounded(), 2);
    assert_eq!(model.predict(linear_coordinate(49), 0).rounded(), 1);
}

#[test]
fn predictions_stay_within_what_was_observed() {
    let entries = vec![
        Entry::new(3, 90, 55),
        Entry::new(40, 10, 17),
        Entry::new(70, 60, 93),
    ];
    let model = model(&entries);
    for als in 0..=110 {
        for luma in 0..=110 {
            let value = predict(&model, als, luma);
            assert!((17.0..=93.0).contains(&value));
        }
    }
}

#[test]
fn lux_predictions_are_monotonic_in_both_directions() {
    let entries = [
        Entry::new(3, 0, 40),
        Entry::new(90, 0, 10),
        Entry::new(2000, 0, 70),
        Entry::new(50_000, 0, 65),
    ];
    for direction in [AlsDirection::Increasing, AlsDirection::Decreasing] {
        let model = fit(
            &entries,
            Scale::Lux,
            direction,
            LumaDirection::Increasing,
            true,
        )
        .unwrap();
        let mut previous = model.predict(lux_coordinate(0), 10).rounded();
        for als in (1..70_000).step_by(37) {
            let next = model.predict(lux_coordinate(als), 10).rounded();
            match direction {
                AlsDirection::Increasing => assert!(next >= previous),
                AlsDirection::Decreasing => assert!(next <= previous),
            }
            previous = next;
        }
    }
}

#[test]
fn order_and_repetition_do_not_matter() {
    let entries = [
        Entry::new(10, 10, 20),
        Entry::new(50, 30, 70),
        Entry::new(90, 80, 60),
        Entry::new(10, 60, 5),
    ];
    let shuffled = [
        Entry::new(90, 80, 60),
        Entry::new(10, 10, 20),
        Entry::new(10, 60, 5),
        Entry::new(90, 80, 60),
        Entry::new(50, 30, 70),
        Entry::new(10, 10, 20),
    ];
    let first = model(&entries);
    let second = model(&shuffled);
    assert_eq!(first.als_knots, second.als_knots);
    assert_eq!(first.luma_knots, second.luma_knots);
    assert_eq!(first.lower, second.lower);
    assert_eq!(first.upper, second.upper);
    for als in 0..=100 {
        for luma in 0..=100 {
            assert_eq!(predict(&first, als, luma), predict(&second, als, luma));
        }
    }
}

#[test]
fn linear_coordinates_are_those_of_double_precision() {
    for als in (0..=200).chain([1 << 53, (1 << 53) + 1, u64::MAX]) {
        assert_eq!(linear_coordinate(als), (als as f64 / 20.0).to_bits());
    }
}

/// The surface in floating point, with envelopes by the observations themselves.
fn float_predict(
    entries: &[Entry],
    scale: Scale,
    als_direction: AlsDirection,
    luma_direction: LumaDirection,
    luma_aware: bool,
    als: u64,
    luma: u8,
) -> f64 {
    let als_place = |als: u64| f64::from_bits(coordinate(scale, als));
    let domain = match scale {
        Scale::Lux => 6.0,
        Scale::Linear => 5.0,
    };
    let als_max = entries.iter().map(|entry| als_place(entry.als)).fold(domain, f64::max);
    let orient = |coordinate: f64, maximum: f64, decreasing: bool| {
        if decreasing {
            maximum - coordinate
        } else {
            coordinate
        }
    };
    let x_of = |als: u64| {
        orient(
            als_place(als).clamp(0.0, als_max),
            als_max,
            als_direction == AlsDirection::Decreasing,
        )
    };
    let y_of = |luma: u8| {
        if luma_aware {
            orient(
                (luma as f64 / 20.0).clamp(0.0, 5.0),
                5.0,
                luma_direction == LumaDirection::Decreasing,
            )
        } else {
            0.0
        }
    };
    let sorted = |mut knots: Vec<f64>| {
        knots.sort_unstable_by(f64::total_cmp);
        knots.dedup_by(|left, right| *left == *right);
        knots
    };
    let columns = sorted(entries.iter().map(|entry| x_of(entry.als)).chain([0.0, als_max]).collect());
    let rows = if luma_aware {
        sorted(entries.iter().map(|entry| y_of(entry.luma)).chain([0.0, 5.0]).collect())
    } else {
        vec![0.0]
    };
    let minimum = entries.iter().map(|entry| entry.brightness as f64).fold(f64::MAX, f64::min);
    let maximum = entries.iter().map(|entry| entry.brightness as f64).fold(0.0, f64::max);
    let value = |x: f64, y: f64| {
        let mut lower = minimum;
        let mut upper = maximum;
        for entry in entries {
            let (column, row) = (x_of(entry.als), y_of(entry.luma));
            if column <= x && row <= y {
                lower = lower.max(entry.brightness as f64);
            }
            if column >= x && row >= y {
                upper = upper.min(entry.brightness as f64);
            }
        }
        (lower + upper) / 2.0
    };
    let interval = |knots: &[f64], coordinate: f64| {
        let upper = knots.partition_point(|knot| *knot < coordinate);
        if knots[upper] == coordinate {
            return (knots[upper], knots[upper], 0.0);
        }
        let (start, end) = (knots[upper - 1], knots[upper]);
        (start, end, (coordinate - start) / (end - start))
    };
    let lerp = |left: f64, right: f64, share: f64| left + (right - left) * share;
    let (x0, x1, across) = interval(&columns, x_of(als));
    let (y0, y1, along) = interval(&rows, y_of(luma));
    let bottom = lerp(value(x0, y0), value(x1, y0), across);
    let top = lerp(value(x0, y1), value(x1, y1), across);
    lerp(bottom, top, along)
}

#[test]
fn surfaces_are_those_of_double_precision() {
    let lists = [
        vec![Entry::new(0, 0, 0), Entry::new(100, 0, 50)],
        vec![Entry::new(0, 0, 0), Entry::new(0, 100, 50)],
        vec![
            Entry::new(0, 14, 10),
            Entry::new(1, 61, 10),
            Entry::new(50, 40, 60),
            Entry::new(90, 18, 100),
        ],
        vec![
            Entry::new(7, 90, 4500),
            Entry::new(33, 33, 6500),
            Entry::new(20, 3, 25000),
            Entry::new(61, 77, 1000),
            Entry::new(150, 120, 3333),
        ],
        vec![
            Entry::new(3, 50, u64::MAX),
            Entry::new(1 << 60, 10, (1 << 53) + 1),
            Entry::new((1 << 60) + 1, 90, 1),
        ],
    ];
    for entries in &lists {
        for scale in [Scale::Linear, Scale::Lux] {
            for als_direction in [AlsDirection::Increasing, AlsDirection::Decreasing] {
                for luma_direction in [LumaDirection::Increasing, LumaDirection::Decreasing] {
                    for luma_aware in [true, false] {
                        let model =
                            fit(entries, scale, als_direction, luma_direction, luma_aware).unwrap();
                        for als in (0..=110).step_by(3).chain([29, 1 << 59, 1 << 60, u64::MAX]) {
                            for luma in (0..=110).step_by(3).chain([29, 255]) {
                                assert_eq!(
                                    predict(&model, als, luma),
                                    float_predict(
                                        entries,
                                        scale,
                                        als_direction,
                                        luma_direction,
                                        luma_aware,
                                        als,
                                        luma
                                    )
                                );
                            }
                        }
                    }
                }
            }
        }
    }
    assert_eq!(model(&lists[0]).predict(linear_coordinate(29), 0).rounded(), 14);
}

#[test]
fn agreeing_observations_are_predicted_everywhere() {
    for value in [0, 42, 65_536, (1 << 53) + 1, u64::MAX] {
        let model = model(&[Entry::new(10, 80, value), Entry::new(90, 20, value)]);
        for als in 0..=100 {
            for luma in 0..=100 {
                assert_eq!(predict(&model, als, luma), value as f64);
            }
        }
    }
}

#[test]
fn great_values_are_monotonic_up_to_rounding() {
    let entries = [
        Entry::new(10, 14, 3_000_000_001),
        Entry::new(30, 61, 4_000_000_003),
        Entry::new(70, 40, 9_000_000_007),
    ];
    let model = model(&entries);
    for luma in 0..=100 {
        for als in 0..100 {
            let tolerance = 9_000_000_007.0 * f64::EPSILON * 64.0;
            assert!(predict(&model, als, luma) <= predict(&model, als + 1, luma) + tolerance);
            assert!(predict(&model, luma as u64, als as u8)
                <= predict(&model, luma as u64, als as u8 + 1) + tolerance);
        }
    }
}
