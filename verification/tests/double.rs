use wluma::double::Double;

fn numbers() -> Vec<f64> {
    let mut numbers = vec![
        0.0,
        1.0,
        0.29,
        50.0,
        100.0,
        65535.0,
        1e-9,
        3.0,
        0.1,
        0.3,
        1.0 / 3.0,
        2_f64.powi(53),
        2_f64.powi(53) - 1.0,
        2_f64.powi(64),
        f64::MIN_POSITIVE,
        f64::from_bits(1),
        f64::from_bits(0xf_ffff_ffff_ffff),
        1e-300,
        1e-160,
    ];
    // A linear congruential sequence of bits below those of 2^40.
    let mut bits: u64 = 12345;
    for _ in 0..60 {
        bits = bits.wrapping_mul(6364136223846793005).wrapping_add(1442695040888963407);
        numbers.push(f64::from_bits(0x3a00_0000_0000_0000 + bits % 0x0860_0000_0000_0000));
    }
    numbers
}

fn double(value: f64) -> Double {
    Double::from_bits(value.to_bits()).unwrap()
}

fn float(value: Double) -> f64 {
    f64::from_bits(value.to_bits())
}

#[test]
fn bits_are_read_back() {
    for number in numbers() {
        assert_eq!(float(double(number)), number);
    }
    assert!(Double::from_bits(f64::INFINITY.to_bits()).is_none());
    assert!(Double::from_bits(f64::NAN.to_bits()).is_none());
    assert!(Double::from_bits((-1.0_f64).to_bits()).is_none());
}

#[test]
fn arithmetic_is_that_of_double_precision() {
    for left in numbers() {
        for right in numbers() {
            let (a, b) = (double(left), double(right));
            assert_eq!(float(a.plus(b)), left + right);
            assert_eq!(float(a.apart(b)), (left - right).abs());
            assert_eq!(float(a.times(b)), left * right);
            assert_eq!(a.at_least(b), left >= right);
            if right > 0.0 && (left / right).is_finite() {
                assert_eq!(float(a.over(b)), left / right);
            }
        }
    }
}

#[test]
fn integers_are_converted_both_ways() {
    for value in [
        0,
        1,
        2,
        100,
        65535,
        (1 << 53) - 1,
        1 << 53,
        (1 << 53) + 1,
        (1 << 53) + 3,
        (1 << 60) + 12345,
        u64::MAX - 1024,
        u64::MAX,
    ] {
        assert_eq!(float(Double::of(value)), value as f64);
        assert_eq!(Double::of(value).rounded(), value as f64 as u64);
    }
    for number in numbers() {
        assert_eq!(double(number).rounded(), number.round() as u64);
    }
    for half in [0.5, 1.5, 2.5, 14.5, 0.49999999999999994, 4503599627370495.5] {
        assert_eq!(double(half).rounded(), half.round() as u64);
    }
}
