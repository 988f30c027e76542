use wluma::double::{Double, ONE_BITS};
use wluma::gamma::ramp::{
    apply, estimate, linear, neutralize, WhitePoints, MAX_TEMPERATURE, MIN_TEMPERATURE,
    NEUTRAL_TEMPERATURE,
};

fn raw_temperature(kelvin: f64) -> [f64; 3] {
    let value = kelvin / 100.0;
    let red = if value <= 66.0 {
        255.0
    } else {
        329.698727446 * (value - 60.0).powf(-0.1332047592)
    };
    let green = if value <= 66.0 {
        99.4708025861 * value.ln() - 161.1195681661
    } else {
        288.1221695283 * (value - 60.0).powf(-0.0755148492)
    };
    let blue = if value >= 66.0 {
        255.0
    } else if value <= 19.0 {
        0.0
    } else {
        138.5177312231 * (value - 10.0).ln() - 305.0447927307
    };
    [red, green, blue].map(|channel| channel.clamp(0.0, 255.0))
}

fn points() -> WhitePoints {
    let neutral = raw_temperature(NEUTRAL_TEMPERATURE as f64);
    let gains = (MIN_TEMPERATURE..=MAX_TEMPERATURE)
        .map(|temperature| {
            let raw = raw_temperature(temperature as f64);
            std::array::from_fn(|channel| {
                (raw[channel] / neutral[channel]).min(1.0).to_bits()
            })
        })
        .collect();
    WhitePoints::new(gains).unwrap()
}

fn numbers(gains: [Double; 3]) -> [f64; 3] {
    gains.map(|gain| f64::from_bits(gain.to_bits()))
}

#[test]
fn neutral_temperature_has_equal_gains() {
    assert_eq!(numbers(points().gains(0, NEUTRAL_TEMPERATURE)), [1.0, 1.0, 1.0]);
}

#[test]
fn dim_reduces_all_channels() {
    assert_eq!(
        numbers(points().gains(25, NEUTRAL_TEMPERATURE)),
        [0.75, 0.75, 0.75]
    );
}

#[test]
fn warm_temperature_reduces_blue_most() {
    let gains = numbers(points().gains(0, 4500));
    assert_eq!(gains[0], 1.0);
    assert!(gains[1] < gains[0]);
    assert!(gains[2] < gains[1]);
}

#[test]
fn neutralizes_existing_channel_gains() {
    let base = [vec![0, 100, 200], vec![0, 50, 100], vec![0, 25, 50]];
    let neutral = neutralize(&base);

    assert_eq!(neutral[0], vec![0, 32768, 65535]);
    assert_eq!(neutral[1], neutral[0]);
    assert_eq!(neutral[2], neutral[0]);
}

#[test]
fn estimates_generated_controls() {
    let points = points();
    let existing = linear(&points, 256, 20, 4500);

    assert_eq!(estimate(&points, &existing), (20, 4500));
}

#[test]
fn applying_to_neutralized_lut_does_not_compound_temperature() {
    let points = points();
    let existing = linear(&points, 256, 0, 4500);
    let reapplied = apply(&points, &neutralize(&existing), 0, 4500);

    for channel in 0..3 {
        for (actual, expected) in reapplied[channel].iter().zip(&existing[channel]) {
            assert!(actual.abs_diff(*expected) <= 1);
        }
    }
}

#[test]
fn gains_do_not_compound_at_any_dim() {
    let points = points();
    for (dim, temperature) in [(0, 1000), (37, 2345), (63, 25000), (99, 6500), (100, 4000)] {
        for size in [0, 1, 2, 3, 17, 256] {
            let existing = linear(&points, size, dim, temperature);
            let reapplied = apply(&points, &neutralize(&existing), dim, temperature);
            for channel in 0..3 {
                assert_eq!(existing[channel].len(), size);
                for (actual, expected) in reapplied[channel].iter().zip(&existing[channel]) {
                    assert!(actual.abs_diff(*expected) <= 1);
                }
            }
        }
    }
}

#[test]
fn neutral_controls_keep_a_table() {
    let base = [vec![0, 7, 65535], vec![3, 2, 1], vec![]];
    assert_eq!(apply(&points(), &base, 0, NEUTRAL_TEMPERATURE), base);
}

#[test]
fn full_dim_is_dark() {
    let base = [vec![0, 7, 65535], vec![3, 2, 1], vec![9]];
    let dark = [vec![0, 0, 0], vec![0, 0, 0], vec![0]];
    assert_eq!(apply(&points(), &base, 100, 4500), dark);
    assert_eq!(apply(&points(), &base, 1000, 4500), dark);
}

#[test]
fn more_dim_is_never_brighter() {
    let points = points();
    let base = [vec![65535], vec![40000], vec![1]];
    let mut previous = apply(&points, &base, 0, 4500);
    for dim in 1..=100 {
        let next = apply(&points, &base, dim, 4500);
        for channel in 0..3 {
            assert!(next[channel][0] <= previous[channel][0]);
        }
        previous = next;
    }
}

#[test]
fn ramps_rise_evenly() {
    let ramp = linear(&points(), 5, 50, NEUTRAL_TEMPERATURE);
    assert_eq!(ramp[0], vec![0, 8192, 16384, 24576, 32768]);
    assert_eq!(linear(&points(), 1, 0, NEUTRAL_TEMPERATURE)[0], vec![0]);
    assert_eq!(
        linear(&points(), 2, 0, 500),
        linear(&points(), 2, 0, MIN_TEMPERATURE)
    );
    assert_eq!(
        linear(&points(), 2, 0, 99999),
        linear(&points(), 2, 0, MAX_TEMPERATURE)
    );
}

#[test]
fn a_dark_channel_borrows_the_reference() {
    let base = [vec![0, 100, 200], vec![0, 0, 0], vec![0, 100, 400]];
    let neutral = neutralize(&base);
    assert_eq!(neutral[0], vec![0, 32768, 65535]);
    assert_eq!(neutral[1], vec![0, 16384, 65535]);
    assert_eq!(neutral[2], vec![0, 16384, 65535]);

    let dark = [vec![0, 0, 0], vec![0, 0, 0], vec![0, 0, 0]];
    assert_eq!(
        neutralize(&dark),
        linear(&points(), 3, 0, NEUTRAL_TEMPERATURE)
    );
    assert_eq!(estimate(&points(), &dark), (100, NEUTRAL_TEMPERATURE));
}

#[test]
fn white_points_cover_every_temperature() {
    assert!(WhitePoints::new(vec![[ONE_BITS; 3]; 24001]).is_some());
    assert!(WhitePoints::new(vec![[ONE_BITS; 3]; 24000]).is_none());
    let mut gains = vec![[ONE_BITS; 3]; 24001];
    gains[3][2] = ONE_BITS + 1;
    assert!(WhitePoints::new(gains).is_none());
    let mut gains = vec![[ONE_BITS; 3]; 24001];
    gains[5500][0] = ONE_BITS - 1;
    assert!(WhitePoints::new(gains).is_none());
    let mut gains = vec![[ONE_BITS; 3]; 24001];
    gains[7] = [ONE_BITS, 0, 0];
    assert!(WhitePoints::new(gains).is_some());
    let mut gains = vec![[ONE_BITS; 3]; 24001];
    gains[7] = [ONE_BITS - 1, 0, 0x3fe0_0000_0000_0000];
    assert!(WhitePoints::new(gains).is_none());
}

#[test]
fn neutralizing_twice_changes_nothing() {
    for base in [
        [vec![0, 100, 200], vec![0, 50, 100], vec![0, 0, 0]],
        [vec![9, 3, 1], vec![0, 65535, 2], vec![7, 7, 7]],
        [vec![0, 0], vec![0, 0], vec![0, 0]],
        [vec![0], vec![0], vec![0]],
        [vec![], vec![], vec![]],
    ] {
        let once = neutralize(&base);
        assert_eq!(neutralize(&once), once);
        if base[0].len() >= 2 {
            for channel in &once {
                assert_eq!(channel.iter().max(), Some(&65535));
            }
        }
    }
}

#[test]
fn generated_dimming_is_estimated() {
    let points = points();
    for dim in [0, 1, 33, 50, 99, 100, 101, u64::MAX] {
        for temperature in [0, 3000, 6600, 6601, 9000, u64::MAX] {
            let existing = linear(&points, 64, dim, temperature);
            assert_eq!(estimate(&points, &existing).0, dim.min(100));
        }
    }
    assert_eq!(
        estimate(&points, &linear(&points, 64, 100, 3000)),
        (100, NEUTRAL_TEMPERATURE)
    );
    assert_eq!(
        estimate(&points, &[vec![], vec![], vec![]]),
        (100, NEUTRAL_TEMPERATURE)
    );
}

/// The gains in floating point.
fn float_gains(dim: u64, temperature: u64) -> [f64; 3] {
    let temperature = temperature.clamp(MIN_TEMPERATURE, MAX_TEMPERATURE) as f64;
    let neutral = raw_temperature(NEUTRAL_TEMPERATURE as f64);
    let temperature = raw_temperature(temperature);
    let intensity = (100_u64.saturating_sub(dim.min(100))) as f64 / 100.0;
    std::array::from_fn(|channel| (temperature[channel] / neutral[channel]).min(1.0) * intensity)
}

#[test]
fn tables_are_those_of_double_precision() {
    let points = points();
    let base: [Vec<u16>; 3] = std::array::from_fn(|_| (0..=2000).chain(65000..=65535).collect());
    for dim in (0..=100).step_by(7).chain([71, 43]) {
        for temperature in [1000, 1905, 3456, 6500, 6601, 12345] {
            let gains = float_gains(dim, temperature);
            assert_eq!(numbers(points.gains(dim, temperature)), gains);
            let applied = apply(&points, &base, dim, temperature);
            let even = linear(&points, 100, dim, temperature);
            for channel in 0..3 {
                for (value, actual) in base[channel].iter().zip(&applied[channel]) {
                    assert_eq!(*actual, (*value as f64 * gains[channel]).round() as u16);
                }
                for (index, actual) in even[channel].iter().enumerate() {
                    let input = index as f64 / 99_f64;
                    let expected = (input * gains[channel] * u16::MAX as f64).round() as u16;
                    assert_eq!(*actual, expected);
                }
            }
        }
    }
    assert_eq!(apply(&points, &[vec![50], vec![], vec![]], 71, 6500)[0], [14]);
}

#[test]
fn neutral_tables_are_those_of_double_precision() {
    for peak in [1_u16, 7, 200, 4097, 30000, 65534, 65535] {
        let curve: Vec<u16> = (0..=peak).step_by(1 + peak as usize / 300).chain([peak]).collect();
        let neutral = neutralize(&[curve.clone(), curve.clone(), vec![]]);
        for (value, actual) in curve.iter().zip(&neutral[0]) {
            let expected = (*value as f64 / peak as f64 * u16::MAX as f64).round() as u16;
            assert_eq!(*actual, expected);
        }
    }
}

#[test]
fn estimates_are_those_of_double_precision() {
    let points = points();
    for peaks in [[65535_u16, 60000, 50000], [100, 90, 30], [1, 0, 65535], [40000, 40000, 40000]] {
        let observed = peaks.map(|value| value as f64 / *peaks.iter().max().unwrap() as f64);
        let error = |temperature: u64| {
            float_gains(0, temperature)
                .into_iter()
                .zip(observed)
                .map(|(expected, actual)| (expected - actual).powi(2))
                .sum::<f64>()
        };
        let temperature = (MIN_TEMPERATURE..=MAX_TEMPERATURE)
            .min_by(|left, right| error(*left).total_cmp(&error(*right)))
            .unwrap();
        let peak = *peaks.iter().max().unwrap() as f64;
        let dim = (100.0 * (1.0 - peak / u16::MAX as f64)).round().clamp(0.0, 100.0) as u64;
        let base = peaks.map(|value| vec![0, value]);
        assert_eq!(estimate(&points, &base), (dim, temperature));
    }
}
