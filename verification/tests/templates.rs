use veil_core::entropy::templates::{
    approximate_entropy_terms, count_template_matches, sample_entropy_ratio, Proximity, Ratio,
};
use veil_core::EstimatorError;

fn table_of(samples: &[f64], near: impl Fn(f64, f64) -> bool) -> Proximity {
    let rows: Vec<Vec<bool>> = samples
        .iter()
        .map(|&a| samples.iter().map(|&b| near(a, b)).collect())
        .collect();
    match Proximity::from_rows(rows) {
        Ok(table) => table,
        Err(_) => panic!("a square table was refused"),
    }
}

fn within_fixed_tolerance(a: f64, b: f64) -> bool {
    !((a - b).abs() > 0.001)
}

fn closer_than(r: f64) -> impl Fn(f64, f64) -> bool {
    move |a, b| r > 0.0 && !((a - b).abs() >= r)
}

fn alternating() -> Vec<f64> {
    vec![1.0, 2.0, 1.0, 2.0, 1.0, 2.0, 1.0, 2.0, 1.0, 2.0]
}

fn scattered() -> Vec<f64> {
    vec![0.1, 0.5, 0.2, 0.9, 0.4, 0.7, 0.3, 0.8, 0.6, 1.0]
}

#[test]
fn table_must_be_square() {
    let ragged = vec![vec![true, false], vec![true]];
    assert!(matches!(Proximity::from_rows(ragged), Err(EstimatorError::InvalidInput)));
    let wide = vec![vec![true, false, true]];
    assert!(matches!(Proximity::from_rows(wide), Err(EstimatorError::InvalidInput)));
    let tall = vec![vec![], vec![]];
    assert!(matches!(Proximity::from_rows(tall), Err(EstimatorError::InvalidInput)));
    assert!(Proximity::from_rows(Vec::new()).is_ok());
    assert!(Proximity::from_rows(vec![vec![false]]).is_ok());
}

#[test]
fn table_answers_what_it_was_told() {
    let rows = vec![
        vec![false, true, false],
        vec![false, false, true],
        vec![true, false, false],
    ];
    let table = match Proximity::from_rows(rows.clone()) {
        Ok(table) => table,
        Err(_) => panic!("a square table was refused"),
    };
    assert_eq!(table.len(), 3);
    for a in 0..3 {
        for b in 0..3 {
            assert_eq!(table.is_near(a, b), rows[a][b]);
        }
    }
    assert!(!table.is_near(3, 0));
    assert!(!table.is_near(0, 3));
    assert!(!table.is_near(usize::MAX, usize::MAX));
}

#[test]
fn match_counts_of_an_alternating_signal() {
    let table = table_of(&alternating(), within_fixed_tolerance);
    assert_eq!(count_template_matches(&table, 0), 55);
    assert_eq!(count_template_matches(&table, 1), 20);
    assert_eq!(count_template_matches(&table, 2), 16);
    assert_eq!(count_template_matches(&table, 3), 12);
    assert_eq!(count_template_matches(&table, 9), 0);
    assert_eq!(count_template_matches(&table, 10), 0);
    assert_eq!(count_template_matches(&table, 11), 0);
    assert_eq!(count_template_matches(&table, usize::MAX), 0);
}

#[test]
fn match_counts_of_a_scattered_signal() {
    let samples = scattered();
    let table = table_of(&samples, closer_than(0.25));
    assert_eq!(count_template_matches(&table, 1), 17);
    assert_eq!(count_template_matches(&table, 2), 6);
    assert_eq!(count_template_matches(&table, 3), 4);
    let table = table_of(&samples, closer_than(0.35));
    assert_eq!(count_template_matches(&table, 1), 24);
    assert_eq!(count_template_matches(&table, 2), 11);
    assert_eq!(count_template_matches(&table, 3), 8);
    let table = table_of(&samples, within_fixed_tolerance);
    assert_eq!(count_template_matches(&table, 1), 0);
}

#[test]
fn match_counts_of_tiny_signals() {
    let empty = table_of(&[], within_fixed_tolerance);
    assert_eq!(count_template_matches(&empty, 0), 0);
    assert_eq!(count_template_matches(&empty, 1), 0);
    let one = table_of(&[4.0], within_fixed_tolerance);
    assert_eq!(count_template_matches(&one, 0), 1);
    assert_eq!(count_template_matches(&one, 1), 0);
    let two = table_of(&[4.0, 4.0], within_fixed_tolerance);
    assert_eq!(count_template_matches(&two, 0), 3);
    assert_eq!(count_template_matches(&two, 1), 1);
    assert_eq!(count_template_matches(&two, 2), 0);
}

#[test]
fn longer_templates_never_match_more() {
    for r in [0.15, 0.25, 0.35, 0.6] {
        let table = table_of(&scattered(), closer_than(r));
        for len in 0..11 {
            assert!(count_template_matches(&table, len + 1) <= count_template_matches(&table, len));
        }
    }
}

#[test]
fn approximate_entropy_terms_of_an_alternating_signal() {
    let table = table_of(&alternating(), within_fixed_tolerance);
    let (shorter, longer) = match approximate_entropy_terms(&table, 2) {
        Ok(terms) => terms,
        Err(_) => panic!("a signal of ten samples was refused"),
    };
    assert_eq!(shorter, Ratio { numerator: 17, denominator: 9 });
    assert_eq!(longer, Ratio { numerator: 13, denominator: 8 });
    let c_short = shorter.numerator as f64 / shorter.denominator as f64;
    let c_long = longer.numerator as f64 / longer.denominator as f64;
    let entropy = (c_short / c_long).ln();
    assert!(entropy.is_finite());
    assert!((entropy - 0.15048095093829578).abs() < 1e-12);
}

#[test]
fn approximate_entropy_needs_more_samples_than_the_template_has() {
    let table = table_of(&alternating(), within_fixed_tolerance);
    assert!(approximate_entropy_terms(&table, 9).is_ok());
    assert_eq!(approximate_entropy_terms(&table, 10), Err(EstimatorError::InvalidInput));
    assert_eq!(approximate_entropy_terms(&table, 11), Err(EstimatorError::InvalidInput));
    assert_eq!(approximate_entropy_terms(&table, usize::MAX), Err(EstimatorError::InvalidInput));
    let empty = table_of(&[], within_fixed_tolerance);
    assert_eq!(approximate_entropy_terms(&empty, 0), Err(EstimatorError::InvalidInput));
}

#[test]
fn approximate_entropy_terms_at_the_longest_template() {
    let table = table_of(&alternating(), within_fixed_tolerance);
    let terms = approximate_entropy_terms(&table, 9);
    assert_eq!(
        terms,
        Ok((Ratio { numerator: 1, denominator: 2 }, Ratio { numerator: 1, denominator: 1 }))
    );
}

#[test]
fn sample_entropy_ratio_of_an_alternating_signal() {
    let table = table_of(&alternating(), closer_than(0.5));
    let ratio = match sample_entropy_ratio(&table, 2) {
        Ok(ratio) => ratio,
        Err(_) => panic!("matching templates were not found"),
    };
    assert_eq!(ratio, Ratio { numerator: 12, denominator: 16 });
    let entropy = -(ratio.numerator as f64 / ratio.denominator as f64).ln();
    assert!(entropy.is_finite());
    assert!((entropy - 0.2876820724517809).abs() < 1e-12);
}

#[test]
fn sample_entropy_is_undefined_without_matches() {
    let table = table_of(&scattered(), closer_than(0.0));
    assert_eq!(sample_entropy_ratio(&table, 2), Err(EstimatorError::Undefined));
    let table = table_of(&scattered(), closer_than(0.15));
    assert_eq!(sample_entropy_ratio(&table, 3), Err(EstimatorError::Undefined));
    let table = table_of(&alternating(), closer_than(0.5));
    assert_eq!(sample_entropy_ratio(&table, 9), Err(EstimatorError::Undefined));
    assert_eq!(sample_entropy_ratio(&table, 10), Err(EstimatorError::Undefined));
    assert_eq!(sample_entropy_ratio(&table, usize::MAX), Err(EstimatorError::Undefined));
}

#[test]
fn sample_entropy_ratio_may_be_zero() {
    let table = table_of(&scattered(), closer_than(0.15));
    assert_eq!(sample_entropy_ratio(&table, 2), Ok(Ratio { numerator: 0, denominator: 2 }));
}

#[test]
fn sample_entropy_ratio_is_at_most_one() {
    for r in [0.15, 0.25, 0.35, 0.6, 2.0] {
        let table = table_of(&scattered(), closer_than(r));
        for m in 0..10 {
            if let Ok(ratio) = sample_entropy_ratio(&table, m) {
                assert!(ratio.denominator > 0);
                assert!(ratio.numerator <= ratio.denominator);
            }
        }
    }
}
