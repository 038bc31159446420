use percentiletracker::{PercentileTracker, TrackerError, MAX_BUCKET_SIZE};
use rand::{Rng, SeedableRng};
use rand_chacha::ChaCha8Rng;
use std::fmt::Debug;

/// The value at the tracked rank of a sorted slice.
fn calculate_percentile<T: Clone>(values: &[T], percentile: usize) -> T {
    let index = (values.len() * percentile) / 100;
    values[index].clone()
}

/// Inserts the values one by one and compares the tracker with a sorted copy
/// after every insertion.
fn insert_and_verify<T>(values: &[T], percentile: usize)
where
    T: Clone + Ord + Debug + PartialEq,
{
    let mut tracker = PercentileTracker::new(percentile).unwrap();
    let mut test_values = Vec::new();
    for value in values {
        tracker.insert(value.clone());
        test_values.push(value.clone());
        test_values.sort_unstable();
        let expected = calculate_percentile(&test_values, percentile);
        assert_eq!(
            tracker.get_percentile(),
            Ok(expected),
            "Failed at insertion {:?}",
            value
        );
    }
}

/// Inserts all the values and compares the tracker with a sorted copy once, at
/// the end.
fn insert_all_and_verify<T>(values: &[T], percentile: usize)
where
    T: Clone + Ord + Debug + PartialEq,
{
    let mut tracker = PercentileTracker::new(percentile).unwrap();
    let mut test_values = Vec::new();
    for value in values {
        tracker.insert(value.clone());
        test_values.push(value.clone());
    }
    test_values.sort_unstable();
    let expected = calculate_percentile(&test_values, percentile);
    assert_eq!(
        tracker.get_percentile(),
        Ok(expected),
        "Failed to insert all values"
    );
}

fn seeded_values() -> Vec<i64> {
    let mut rng = ChaCha8Rng::seed_from_u64(42);
    let mut v = Vec::new();
    for _ in 0..(MAX_BUCKET_SIZE * 4) {
        v.push(rng.random::<i64>());
    }
    v
}

#[test]
fn test_explicit_case() {
    let values = [
        -37, -37, -5, -48, -15, 42, -3, -43, 7, 14, -41, 6, 29, -28, -8, -25, -21, 31, -3, -23,
    ];
    let expected = [
        -37, -37, -5, -5, -5, 42, 42, 42, 42, 42, 14, 14, 29, 29, 29, 29, 29, 31, 31, 31,
    ];
    let mut tracker = PercentileTracker::<i64>::new(90).unwrap();
    for (i, value) in values.iter().enumerate() {
        tracker.insert(*value);
        let percentile = tracker.get_percentile().unwrap();
        assert_eq!(
            percentile, expected[i],
            "Failed at insertion {}: {}",
            i, value
        );
    }
}

#[test]
fn test_empty_tracker() {
    insert_and_verify(&[42], 90);
}

#[test]
fn test_small_dataset() {
    insert_and_verify(&[1, 2, 3, 4, 5, 6, 7, 8, 9, 10], 90);
}

#[test]
fn test_reverse_order() {
    insert_and_verify(&[10, 9, 8, 7, 6, 5, 4, 3, 2, 1], 90);
}

#[test]
fn test_random_values() {
    insert_and_verify(&[42, 17, 99, 7, 23, 56, 31, 84, 12, 63, 5, 27, 91], 90);
}

#[test]
fn test_duplicate_values() {
    insert_and_verify(&[5, 5, 10, 10, 15, 15, 20, 20, 25, 25], 90);
}

#[test]
fn test_negative_values() {
    insert_and_verify(&[-10, -5, 0, 5, 10, -15, -20, 15, 20, -25], 90);
}

#[test]
fn test_edge_cases() {
    insert_and_verify(
        &[i64::MIN, i64::MAX, 0, 42, -42, i64::MIN + 1, i64::MAX - 1],
        90,
    );
}

#[test]
fn test_large_dataset() {
    let values = seeded_values();
    for percentile in [1, 10, 20, 30, 40, 50, 60, 70, 80, 90, 95, 99] {
        insert_and_verify(&values, percentile);
    }
}

#[test]
fn test_different_percentile() {
    let values = [1, 3, 5, 7, 9, 2, 4, 6, 8, 10];
    let mut tracker = PercentileTracker::new(50).unwrap();
    let mut test_values = Vec::new();
    for value in values {
        tracker.insert(value);
        test_values.push(value);
        test_values.sort_unstable();
        let expected = calculate_percentile(&test_values, 50);
        assert_eq!(
            tracker.get_percentile(),
            Ok(expected),
            "Failed at insertion {}",
            value
        );
    }
}

#[test]
fn test_large_dataset_all_values() {
    let values = seeded_values();
    for percentile in [1, 10, 20, 30, 40, 50, 60, 70, 80, 90, 95, 99] {
        insert_all_and_verify(&values, percentile);
    }
}

#[test]
fn test_different_numeric_types() {
    insert_and_verify(&[1u32, 5, 10, 15, 20, 25, 30, 35, 40, 45, 50], 90);
}

#[test]
fn median_of_one_to_ten_is_six() {
    let mut tracker = PercentileTracker::new(50).unwrap();
    for value in [1, 3, 5, 7, 9, 2, 4, 6, 8, 10] {
        tracker.insert(value);
    }
    assert_eq!(50 * 10 / 100, 5);
    assert_eq!(tracker.get_percentile(), Ok(6));
    assert_eq!(tracker.total_count(), 10);
    assert_eq!(tracker.percentile(), 50);
}

#[test]
fn percentile_outside_one_to_ninety_nine_is_rejected() {
    assert_eq!(
        PercentileTracker::<i64>::new(0).err(),
        Some(TrackerError::InvalidPercentile(0))
    );
    assert_eq!(
        PercentileTracker::<i64>::new(100).err(),
        Some(TrackerError::InvalidPercentile(100))
    );
    assert_eq!(
        PercentileTracker::<i64>::new(usize::MAX).err(),
        Some(TrackerError::InvalidPercentile(usize::MAX))
    );
    assert!(PercentileTracker::<i64>::new(1).is_ok());
    assert!(PercentileTracker::<i64>::new(99).is_ok());
}

#[test]
fn query_before_any_insertion_fails() {
    let mut tracker = PercentileTracker::<i64>::new(90).unwrap();
    assert_eq!(tracker.get_percentile(), Err(TrackerError::Empty));
    assert_eq!(tracker.total_count(), 0);
    assert_eq!(tracker.bucket_count(), 0);
    assert!(!tracker.needs_rebalance());
    assert!(tracker.verify_bucket_offset());
    tracker.insert(7);
    assert_eq!(tracker.get_percentile(), Ok(7));
}

#[test]
fn first_insertion_leaves_the_pointer_settled() {
    let mut tracker = PercentileTracker::<i64>::new(90).unwrap();
    tracker.insert(42);
    assert!(!tracker.needs_rebalance());
    assert_eq!(tracker.bucket_count(), 1);
    assert_eq!(tracker.buckets()[0].len(), 1);
    assert_eq!(*tracker.buckets()[0].min(), 42);
    tracker.insert(43);
    assert!(tracker.needs_rebalance());
    assert_eq!(tracker.get_percentile(), Ok(43));
    assert!(!tracker.needs_rebalance());
}

#[test]
fn descending_values_force_splits() {
    let mut tracker = PercentileTracker::<i64>::new(90).unwrap();
    let mut all = Vec::new();
    for value in (0..300).rev() {
        tracker.insert(value);
        all.push(value);
    }
    all.sort_unstable();
    assert_eq!(tracker.get_percentile(), Ok(all[90 * 300 / 100]));
    assert_eq!(tracker.get_percentile(), Ok(270));
    assert!(tracker.bucket_count() > 1);
    assert_eq!(tracker.total_count(), 300);
}

#[test]
fn values_route_to_the_bucket_of_their_range() {
    let mut tracker = PercentileTracker::<i64>::new(50).unwrap();
    for value in 0..130 {
        tracker.insert(value);
    }
    assert_eq!(tracker.get_percentile(), Ok(65));
    assert_eq!(tracker.bucket_count(), 3);
    assert_eq!(*tracker.buckets()[0].min(), 0);
    assert_eq!(*tracker.buckets()[1].min(), 65);
    assert_eq!(*tracker.buckets()[2].min(), 97);
    assert_eq!(tracker.buckets()[0].len(), 65);
    assert_eq!(tracker.buckets()[1].len(), 32);
    assert_eq!(tracker.buckets()[2].len(), 33);
    assert_eq!(tracker.target_bucket_index(), 1);
    assert_eq!(tracker.target_bucket_offset(), 65);

    // Equal to a bound: into that bucket.
    tracker.insert(65);
    assert_eq!(tracker.buckets()[1].len(), 33);
    // Between two bounds: into the lower bucket, and the offset follows.
    tracker.insert(10);
    assert_eq!(tracker.buckets()[0].len(), 66);
    assert_eq!(tracker.target_bucket_offset(), 66);
    // Above every bound: into the last bucket.
    tracker.insert(1000);
    assert_eq!(tracker.buckets()[2].len(), 34);
    // Below every bound: into the first bucket, whose bound becomes the value.
    tracker.insert(-5);
    assert_eq!(tracker.buckets()[0].len(), 67);
    assert_eq!(*tracker.buckets()[0].min(), -5);
    assert_eq!(tracker.target_bucket_offset(), 67);
    assert_eq!(tracker.target_bucket_index(), 1);
    assert!(tracker.needs_rebalance());
    assert_eq!(tracker.total_count(), 134);
    assert_eq!(tracker.get_percentile(), Ok(65));
}
