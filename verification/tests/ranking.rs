use veil_core::entropy::ranking::{rank_samples, sample_is_nan, sample_precedes};
use veil_core::EstimatorError;

fn bits_of(values: &[f64]) -> Vec<u64> {
    values.iter().map(|v| v.to_bits()).collect()
}

fn ranked(values: &[f64]) -> Vec<f64> {
    match rank_samples(&bits_of(values)) {
        Ok(bits) => bits.iter().map(|&b| f64::from_bits(b)).collect(),
        Err(_) => panic!("samples without a NaN were refused"),
    }
}

fn ks_statistic(values: &[f64]) -> f64 {
    let sorted = ranked(values);
    let mut statistic = 0.0;
    for (i, &value) in sorted.iter().enumerate() {
        let empirical = (i as f64 + 1.0) / sorted.len() as f64;
        let diff = (empirical - value).abs();
        if diff > statistic {
            statistic = diff;
        }
    }
    statistic
}

fn some_values() -> Vec<f64> {
    vec![
        f64::NEG_INFINITY,
        f64::MIN,
        -1.0e10,
        -2.5,
        -1.0,
        -f64::MIN_POSITIVE,
        -5e-324,
        -0.0,
        0.0,
        5e-324,
        f64::MIN_POSITIVE,
        0.001,
        0.5,
        1.0,
        1.0000000000000002,
        3.0,
        1.0e10,
        f64::MAX,
        f64::INFINITY,
    ]
}

#[test]
fn nan_is_recognised() {
    assert!(sample_is_nan(f64::NAN.to_bits()));
    assert!(sample_is_nan((-f64::NAN).to_bits()));
    assert!(sample_is_nan(0x7ff0_0000_0000_0001));
    assert!(sample_is_nan(0xffff_ffff_ffff_ffff));
    for v in some_values() {
        assert!(!sample_is_nan(v.to_bits()), "{}", v);
    }
}

#[test]
fn order_of_samples_is_the_order_of_numbers() {
    let values = some_values();
    for (i, a) in values.iter().enumerate() {
        for (j, b) in values.iter().enumerate() {
            assert_eq!(sample_precedes(a.to_bits(), b.to_bits()), i <= j, "{} {}", a, b);
            if a < b {
                assert!(sample_precedes(a.to_bits(), b.to_bits()));
                assert!(!sample_precedes(b.to_bits(), a.to_bits()));
            }
        }
    }
}

#[test]
fn ranking_sorts() {
    assert_eq!(ranked(&[0.3, 0.1, 0.2]), vec![0.1, 0.2, 0.3]);
    assert_eq!(ranked(&[2.0, -1.0, 0.5, -3.5, 0.5]), vec![-3.5, -1.0, 0.5, 0.5, 2.0]);
    assert_eq!(ranked(&[]), Vec::<f64>::new());
    assert_eq!(ranked(&[4.25]), vec![4.25]);
    let mut shuffled = some_values();
    shuffled.reverse();
    shuffled.swap(3, 11);
    shuffled.swap(0, 7);
    assert_eq!(bits_of(&ranked(&shuffled)), bits_of(&some_values()));
}

#[test]
fn ranking_agrees_with_the_std_sort() {
    let mut values: Vec<f64> = Vec::new();
    let mut x: u64 = 0x9e37_79b9_7f4a_7c15;
    for _ in 0..500 {
        x ^= x << 13;
        x ^= x >> 7;
        x ^= x << 17;
        values.push(((x >> 11) as f64 / (1u64 << 53) as f64) * 200.0 - 100.0);
    }
    let mut expected = values.clone();
    expected.sort_by(|a, b| a.partial_cmp(b).unwrap());
    assert_eq!(ranked(&values), expected);
}

#[test]
fn ranking_refuses_nan() {
    let with_nan = [0.5, f64::NAN, 0.25];
    assert_eq!(rank_samples(&bits_of(&with_nan)), Err(EstimatorError::InvalidInput));
    assert_eq!(rank_samples(&[f64::NAN.to_bits()]), Err(EstimatorError::InvalidInput));
    assert_eq!(rank_samples(&[0, (-f64::NAN).to_bits()]), Err(EstimatorError::InvalidInput));
}

#[test]
fn ranking_leaves_the_input_untouched() {
    let bits = bits_of(&[0.9, 0.1, 0.5]);
    let copy = bits.clone();
    let _ = rank_samples(&bits);
    assert_eq!(bits, copy);
}

#[test]
fn ks_statistic_of_uniform_samples_is_zero() {
    for n in 1..50usize {
        let values: Vec<f64> = (1..=n).map(|i| i as f64 / n as f64).collect();
        assert_eq!(ks_statistic(&values), 0.0);
    }
}

#[test]
fn ks_statistic_ignores_the_order_of_the_samples() {
    let values = [0.12, 0.87, 0.45, 0.33, 0.91, 0.05, 0.64];
    let expected = ks_statistic(&values);
    let mut permuted = values;
    for round in 0..20 {
        permuted.rotate_left(round % 7);
        permuted.swap(round % 7, (round * 3 + 1) % 7);
        assert_eq!(ks_statistic(&permuted), expected);
        assert_eq!(ranked(&permuted), ranked(&values));
    }
}

#[test]
fn ks_statistic_of_known_samples() {
    assert_eq!(ks_statistic(&[]), 0.0);
    assert_eq!(ks_statistic(&[0.5]), 0.5);
    assert_eq!(ks_statistic(&[0.75, 0.25]), 0.25);
    assert_eq!(ks_statistic(&[0.0, 0.0, 0.0, 0.0]), 1.0);
}
