use ddsketch::DDSketch;
use ddsketch::Error;
use ddsketch::IndexMapping;
use ddsketch::QuantileBucket;

/// The bucket growth ratio reached for a target relative accuracy.
fn gamma_of_accuracy(accuracy: f64) -> f64 {
    (1.0 + accuracy) / (1.0 - accuracy)
}

fn log_mapping(gamma: f64) -> IndexMapping {
    IndexMapping::with_gamma_offset_bits(gamma.to_bits(), 0.0f64.to_bits())
}

/// The bucket index of a positive value under the logarithmic mapping
/// with index offset zero.
fn log_index(gamma: f64, value: f64) -> i32 {
    let multiplier = 1.0 / gamma.ln();
    let index = value.ln() * multiplier;
    if index >= 0.0 {
        index as i32
    } else {
        (index - 1.0) as i32
    }
}

/// The representative value of a bucket under that mapping.
fn log_value(gamma: f64, index: i32) -> f64 {
    let multiplier = 1.0 / gamma.ln();
    let relative_accuracy = (gamma - 1.0) / (gamma + 1.0);
    (index as f64 / multiplier).exp() * (1.0 + relative_accuracy)
}

fn accept(sketch: &mut DDSketch, gamma: f64, value: f64) {
    if value > 0.0 {
        sketch.accept_positive_index(log_index(gamma, value));
    } else if value < 0.0 {
        sketch.accept_negative_index(log_index(gamma, -value));
    } else {
        sketch.accept_zero();
    }
}

fn value_at_quantile(sketch: &DDSketch, gamma: f64, q: f64) -> f64 {
    let rank = (q * ((sketch.get_count() - 1) as f64)) as u64;
    match sketch.quantile_bucket(rank).unwrap() {
        QuantileBucket::Negative(i) => -log_value(gamma, i),
        QuantileBucket::Zero => 0.0,
        QuantileBucket::Positive(i) => log_value(gamma, i),
    }
}

#[test]
fn test_sketch_quantile_3() {
    let gamma = gamma_of_accuracy(0.02);
    let mut sketch = DDSketch::new(log_mapping(gamma), 100).unwrap();
    accept(&mut sketch, gamma, 1.0);
    accept(&mut sketch, gamma, 2.0);
    accept(&mut sketch, gamma, 3.0);
    accept(&mut sketch, gamma, 4.0);
    accept(&mut sketch, gamma, 5.0);

    assert!((f64::abs(value_at_quantile(&sketch, gamma, 0.0) - 1.0) / 1.0) < 0.021);
    assert!((f64::abs(value_at_quantile(&sketch, gamma, 0.5) - 3.0) / 3.0) < 0.021);
    assert!((f64::abs(value_at_quantile(&sketch, gamma, 1.0) - 5.0) / 5.0) < 0.021);

    let encoded = sketch.encode().unwrap();
    let mut sketch = DDSketch::new(log_mapping(gamma), 100).unwrap();
    sketch.decode_and_merge_with(&encoded).unwrap();
    assert!((f64::abs(value_at_quantile(&sketch, gamma, 0.0) - 1.0) / 1.0) < 0.021);
    assert!((f64::abs(value_at_quantile(&sketch, gamma, 0.5) - 3.0) / 3.0) < 0.021);
    assert!((f64::abs(value_at_quantile(&sketch, gamma, 1.0) - 5.0) / 5.0) < 0.021);

    let encoded = sketch.encode_clickhouse().unwrap();
    let mut sketch = DDSketch::new(log_mapping(gamma), 100).unwrap();
    sketch.decode_clickhouse_and_merge_with(&encoded).unwrap();
    assert!((f64::abs(value_at_quantile(&sketch, gamma, 0.0) - 1.0) / 1.0) < 0.021);
    assert!((f64::abs(value_at_quantile(&sketch, gamma, 0.5) - 3.0) / 3.0) < 0.021);
    assert!((f64::abs(value_at_quantile(&sketch, gamma, 1.0) - 5.0) / 5.0) < 0.021);
}

#[test]
fn test_sketch_decode_3() {
    let input = vec![
        2, 42, 120, 57, 5, 47, 167, 240, 63, 0, 0, 0, 0, 0, 0, 0, 0, 13, 50, 130, 1, 2, 136, 32, 0,
        3, 0, 0, 0, 3, 0, 2, 0, 0, 3, 3, 2, 2, 3, 3, 2, 0, 0, 0, 0, 2, 0, 2, 2, 2, 4, 4, 132, 64,
        0, 4, 2, 0, 2, 2, 3, 132, 64, 4, 132, 64, 4, 2, 2, 0, 6, 4, 6, 132, 64, 2, 6,
    ];
    let gamma = gamma_of_accuracy(2e-2);
    let mut sketch = DDSketch::new(log_mapping(gamma), 50).unwrap();
    sketch.decode_and_merge_with(&input).unwrap();
    assert_eq!(sketch.get_count(), 100);

    let encoded = sketch.encode().unwrap();
    let mut sketch = DDSketch::new(log_mapping(gamma_of_accuracy(0.02)), 100).unwrap();
    sketch.decode_and_merge_with(&encoded).unwrap();
    assert_eq!(sketch.get_count(), 100);

    let encoded = sketch.encode_clickhouse().unwrap();
    let mut sketch = DDSketch::new(log_mapping(gamma_of_accuracy(0.02)), 100).unwrap();
    sketch.decode_clickhouse_and_merge_with(&encoded).unwrap();
    assert_eq!(sketch.get_count(), 100);
}

#[test]
fn test_merge_is_order_insensitive_on_aggregates() {
    let gamma = gamma_of_accuracy(0.01);
    let values_a = [1.0, 7.5, 0.0, -3.25, 100.0];
    let values_b = [2.0, 2.0, -50.0, 0.25];

    let mut a1 = DDSketch::new(log_mapping(gamma), 64).unwrap();
    let mut b1 = DDSketch::new(log_mapping(gamma), 64).unwrap();
    for v in values_a {
        accept(&mut a1, gamma, v);
    }
    for v in values_b {
        accept(&mut b1, gamma, v);
    }
    let mut ab = DDSketch::new(log_mapping(gamma), 64).unwrap();
    ab.merge_with(&a1).unwrap();
    ab.merge_with(&b1).unwrap();
    let mut ba = DDSketch::new(log_mapping(gamma), 64).unwrap();
    ba.merge_with(&b1).unwrap();
    ba.merge_with(&a1).unwrap();

    let mut union = DDSketch::new(log_mapping(gamma), 64).unwrap();
    for v in values_a.iter().chain(values_b.iter()) {
        accept(&mut union, gamma, *v);
    }

    assert_eq!(ab.get_count(), ba.get_count());
    assert_eq!(ab.get_count(), union.get_count());
    assert_eq!(ab.get_zero_count(), ba.get_zero_count());
    // The quantile estimates of the two merge orders agree bucket for
    // bucket.
    for rank in 0..ab.get_count() {
        assert_eq!(ab.quantile_bucket(rank).unwrap(), ba.quantile_bucket(rank).unwrap());
        assert_eq!(ab.quantile_bucket(rank).unwrap(), union.quantile_bucket(rank).unwrap());
    }
}

#[test]
fn test_merge_rejects_different_mappings() {
    let mut a = DDSketch::new(log_mapping(gamma_of_accuracy(0.02)), 16).unwrap();
    let b = DDSketch::new(log_mapping(gamma_of_accuracy(0.01)), 16).unwrap();
    assert!(matches!(a.merge_with(&b), Err(Error::InvalidArgument(_))));
}

#[test]
fn test_decode_unknown_feature_flag_is_invalid() {
    let gamma = gamma_of_accuracy(0.02);
    let mut sketch = DDSketch::new(log_mapping(gamma), 16).unwrap();
    // SketchFeatures type with sub-marker 9: no such feature.
    let bytes = vec![36u8];
    assert!(matches!(
        sketch.decode_and_merge_with(&bytes),
        Err(Error::InvalidArgument(_))
    ));
}

#[test]
fn test_decode_truncated_stream_is_io_error() {
    let gamma = gamma_of_accuracy(0.02);
    let mut sketch = DDSketch::new(log_mapping(gamma), 16).unwrap();
    // An index-mapping flag with only one byte of gamma after it.
    let bytes = vec![2u8, 42];
    assert!(matches!(sketch.decode_and_merge_with(&bytes), Err(Error::IoError(_))));
}

#[test]
fn test_decode_mismatched_mapping_is_invalid() {
    let gamma = gamma_of_accuracy(0.02);
    let sketch = DDSketch::new(log_mapping(gamma), 16).unwrap();
    let encoded = sketch.encode().unwrap();
    let mut other = DDSketch::new(log_mapping(gamma_of_accuracy(0.01)), 16).unwrap();
    assert!(matches!(
        other.decode_and_merge_with(&encoded),
        Err(Error::InvalidArgument(_))
    ));
}

#[test]
fn test_quantile_rank_beyond_mass_is_invalid() {
    let gamma = gamma_of_accuracy(0.02);
    let mut sketch = DDSketch::new(log_mapping(gamma), 16).unwrap();
    accept(&mut sketch, gamma, 1.0);
    assert!(matches!(sketch.quantile_bucket(1), Err(Error::InvalidArgument(_))));
    assert!(sketch.quantile_bucket(0).is_ok());
}

#[test]
fn test_sketch_routes_by_sign() {
    let gamma = gamma_of_accuracy(0.02);
    let mut sketch = DDSketch::new(log_mapping(gamma), 32).unwrap();
    accept(&mut sketch, gamma, -2.0);
    accept(&mut sketch, gamma, 0.0);
    accept(&mut sketch, gamma, 2.0);
    assert_eq!(3, sketch.get_count());
    assert_eq!(1, sketch.get_zero_count());
    assert!(matches!(sketch.quantile_bucket(0).unwrap(), QuantileBucket::Negative(_)));
    assert!(matches!(sketch.quantile_bucket(1).unwrap(), QuantileBucket::Zero));
    assert!(matches!(sketch.quantile_bucket(2).unwrap(), QuantileBucket::Positive(_)));
}

#[test]
fn test_decode_index_deltas_mode() {
    let gamma = gamma_of_accuracy(0.02);
    let mut sketch = DDSketch::new(log_mapping(gamma), 16).unwrap();
    // A positive store tagged IndexDeltas: two occurrences, weight one
    // each, at buckets 1 and 2.
    let bytes = vec![9u8, 2, 2, 2];
    sketch.decode_and_merge_with(&bytes).unwrap();
    assert_eq!(2, sketch.get_count());
    assert!(matches!(sketch.quantile_bucket(0).unwrap(), QuantileBucket::Positive(1)));
    assert!(matches!(sketch.quantile_bucket(1).unwrap(), QuantileBucket::Positive(2)));
}

#[test]
fn test_decode_contiguous_counts_honors_index_step() {
    let gamma = gamma_of_accuracy(0.02);
    let mut sketch = DDSketch::new(log_mapping(gamma), 16).unwrap();
    // A positive store tagged ContiguousCounts: three bins from bucket 10
    // with an index step of two, counts 1, 2, 3.
    let bytes = vec![13u8, 3, 20, 4, 2, 3, 4];
    sketch.decode_and_merge_with(&bytes).unwrap();
    assert_eq!(6, sketch.get_count());
    assert!(matches!(sketch.quantile_bucket(0).unwrap(), QuantileBucket::Positive(10)));
    assert!(matches!(sketch.quantile_bucket(1).unwrap(), QuantileBucket::Positive(12)));
    assert!(matches!(sketch.quantile_bucket(3).unwrap(), QuantileBucket::Positive(14)));
}
