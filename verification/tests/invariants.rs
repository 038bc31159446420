use percentiletracker::{PercentileTracker, MAX_BUCKET_SIZE};

/// A fixed, scrambled sequence of `n` values in which no value repeats.
fn scrambled(n: i64) -> Vec<i64> {
    let mut values = Vec::new();
    let mut x: i64 = 1;
    for _ in 0..n {
        x = (x * 7919 + 104_729) % 1_000_003;
        values.push(x);
    }
    values.sort_unstable();
    values.dedup();
    let mut out = Vec::new();
    let len = values.len();
    let mut i = 0;
    while i < len {
        out.push(values[(i * 389) % len]);
        i += 1;
    }
    out.sort_unstable_by_key(|v| (v * 31) % 1009);
    out
}

fn tracker_of(values: &[i64], percentile: usize) -> PercentileTracker<i64> {
    let mut tracker = PercentileTracker::new(percentile).unwrap();
    for value in values {
        tracker.insert(*value);
    }
    tracker
}

fn sizes_before_target(tracker: &PercentileTracker<i64>) -> usize {
    let mut sum = 0;
    for i in 0..tracker.target_bucket_index() {
        sum += tracker.buckets()[i].len();
    }
    sum
}

fn true_minimum(tracker: &PercentileTracker<i64>, i: usize) -> i64 {
    let bucket = &tracker.buckets()[i];
    let mut least = *bucket.get_value_at(0);
    for k in 0..bucket.len() {
        least = least.min(*bucket.get_value_at(k));
    }
    least
}

#[test]
fn tracker_matches_sorted_copy_after_every_insertion() {
    let values = scrambled(700);
    for percentile in [1, 25, 50, 75, 99] {
        let mut tracker = PercentileTracker::new(percentile).unwrap();
        let mut seen = Vec::new();
        for value in &values {
            tracker.insert(*value);
            seen.push(*value);
            seen.sort_unstable();
            assert_eq!(
                tracker.get_percentile(),
                Ok(seen[percentile * seen.len() / 100])
            );
        }
    }
}

#[test]
fn tracker_matches_sorted_copy_after_a_batch() {
    let values = scrambled(700);
    for percentile in [1, 25, 50, 75, 99] {
        let mut tracker = tracker_of(&values, percentile);
        let mut seen = values.clone();
        seen.sort_unstable();
        assert_eq!(
            tracker.get_percentile(),
            Ok(seen[percentile * seen.len() / 100])
        );
    }
}

#[test]
fn bounds_ascend_and_are_true_minima() {
    let values = scrambled(900);
    let mut tracker = PercentileTracker::new(60).unwrap();
    for (n, value) in values.iter().enumerate() {
        tracker.insert(*value);
        if n % 50 == 49 {
            assert!(tracker.verify_bucket_offset());
            for i in 0..tracker.bucket_count() {
                assert_eq!(*tracker.buckets()[i].min(), true_minimum(&tracker, i));
                if i + 1 < tracker.bucket_count() {
                    assert!(tracker.buckets()[i].min() < tracker.buckets()[i + 1].min());
                }
            }
        }
    }
    assert!(tracker.bucket_count() > 1);
}

#[test]
fn bounds_never_descend_with_many_equal_values() {
    let mut tracker = PercentileTracker::<i64>::new(50).unwrap();
    for _ in 0..33 {
        tracker.insert(5);
    }
    for value in 6..38 {
        tracker.insert(value);
    }
    assert_eq!(tracker.total_count(), 65);
    assert_eq!(tracker.get_percentile(), Ok(5));
    assert_eq!(tracker.bucket_count(), 2);
    // The lower half and the median are all 5: the two bounds are equal.
    assert_eq!(*tracker.buckets()[0].min(), 5);
    assert_eq!(*tracker.buckets()[1].min(), 5);
    assert_eq!(true_minimum(&tracker, 0), 5);
    assert_eq!(true_minimum(&tracker, 1), 5);
    let mut seen = vec![5i64; 33];
    seen.extend(6..38);
    for value in [5, 4, 5, 100, 5, 6] {
        tracker.insert(value);
        seen.push(value);
        seen.sort_unstable();
        assert_eq!(tracker.get_percentile(), Ok(seen[50 * seen.len() / 100]));
        for i in 0..tracker.bucket_count() - 1 {
            assert!(tracker.buckets()[i].min() <= tracker.buckets()[i + 1].min());
        }
    }
}

#[test]
fn equal_values_are_counted_one_by_one() {
    for percentile in [1, 30, 50, 70, 99] {
        let mut tracker = PercentileTracker::<i64>::new(percentile).unwrap();
        let mut seen = Vec::new();
        let mut x: i64 = 3;
        for n in 0..1200 {
            x = (x * 48_271 + 11) % 2_147_483_647;
            let value = x % 7;
            tracker.insert(value);
            seen.push(value);
            if n % 3 == 0 {
                seen.sort_unstable();
                assert_eq!(
                    tracker.get_percentile(),
                    Ok(seen[percentile * seen.len() / 100])
                );
                assert_eq!(tracker.target_bucket_offset(), sizes_before_target(&tracker));
                for i in 0..tracker.bucket_count() {
                    assert_eq!(*tracker.buckets()[i].min(), true_minimum(&tracker, i));
                    if i + 1 < tracker.bucket_count() {
                        assert!(tracker.buckets()[i].min() <= tracker.buckets()[i + 1].min());
                    }
                }
            }
        }
    }
}

#[test]
fn bounds_ascend_strictly_with_few_equal_values() {
    let mut tracker = PercentileTracker::<i64>::new(50).unwrap();
    for _ in 0..(MAX_BUCKET_SIZE / 2) {
        tracker.insert(5);
    }
    for value in 6..39 {
        tracker.insert(value);
    }
    assert_eq!(tracker.total_count(), 65);
    assert_eq!(tracker.get_percentile(), Ok(6));
    assert_eq!(tracker.bucket_count(), 2);
    assert_eq!(*tracker.buckets()[0].min(), 5);
    assert_eq!(*tracker.buckets()[1].min(), 6);
}

#[test]
fn offset_is_the_sum_of_the_sizes_before_the_target() {
    let values = scrambled(800);
    let mut tracker = PercentileTracker::new(35).unwrap();
    for (n, value) in values.iter().enumerate() {
        tracker.insert(*value);
        // The offset follows every insertion, settled or not.
        assert_eq!(tracker.target_bucket_offset(), sizes_before_target(&tracker));
        if n % 37 == 0 {
            assert!(tracker.verify_bucket_offset());
            assert!(!tracker.needs_rebalance());
            assert_eq!(tracker.target_bucket_offset(), sizes_before_target(&tracker));
            let rank = 35 * tracker.total_count() / 100;
            let target = &tracker.buckets()[tracker.target_bucket_index()];
            assert!(tracker.target_bucket_offset() <= rank);
            assert!(rank < tracker.target_bucket_offset() + target.len());
        }
    }
}

#[test]
fn target_bucket_is_within_the_size_bound_once_settled() {
    let values = scrambled(1000);
    for percentile in [1, 50, 90, 99] {
        let mut tracker = tracker_of(&values, percentile);
        assert!(tracker.get_percentile().is_ok());
        let target = &tracker.buckets()[tracker.target_bucket_index()];
        assert!(target.len() <= MAX_BUCKET_SIZE);
        assert!(tracker.bucket_count() > 1);
        let mut total = 0;
        for i in 0..tracker.bucket_count() {
            assert!(tracker.buckets()[i].len() >= MAX_BUCKET_SIZE / 2);
            total += tracker.buckets()[i].len();
        }
        assert_eq!(total, tracker.total_count());
        assert!(tracker.bucket_count() * (MAX_BUCKET_SIZE / 2) <= tracker.total_count());
    }
}

#[test]
fn only_the_target_bucket_is_cut_down() {
    let mut tracker = PercentileTracker::<i64>::new(90).unwrap();
    for value in 0..200 {
        tracker.insert(value);
    }
    assert_eq!(tracker.get_percentile(), Ok(180));
    assert_eq!(tracker.bucket_count(), 3);
    assert_eq!(tracker.buckets()[0].len(), 100);
    assert_eq!(tracker.buckets()[1].len(), 50);
    assert_eq!(tracker.buckets()[2].len(), 50);
    assert_eq!(tracker.target_bucket_index(), 2);
    assert_eq!(tracker.target_bucket_offset(), 150);
}

#[test]
fn splitting_follows_the_rank_into_the_lower_half() {
    let mut tracker = PercentileTracker::<i64>::new(10).unwrap();
    for value in 0..200 {
        tracker.insert(value);
    }
    assert_eq!(tracker.get_percentile(), Ok(20));
    assert_eq!(tracker.bucket_count(), 3);
    assert_eq!(tracker.buckets()[0].len(), 50);
    assert_eq!(tracker.buckets()[1].len(), 50);
    assert_eq!(tracker.buckets()[2].len(), 100);
    assert_eq!(*tracker.buckets()[0].min(), 0);
    assert_eq!(*tracker.buckets()[1].min(), 50);
    assert_eq!(*tracker.buckets()[2].min(), 100);
    assert_eq!(tracker.target_bucket_index(), 0);
    assert_eq!(tracker.target_bucket_offset(), 0);
}

#[test]
fn settling_twice_changes_nothing() {
    let values = scrambled(500);
    let mut tracker = tracker_of(&values, 80);
    let first = tracker.get_percentile();
    let count = tracker.bucket_count();
    let index = tracker.target_bucket_index();
    let offset = tracker.target_bucket_offset();
    assert_eq!(tracker.get_percentile(), first);
    assert!(tracker.verify_bucket_offset());
    assert_eq!(tracker.bucket_count(), count);
    assert_eq!(tracker.target_bucket_index(), index);
    assert_eq!(tracker.target_bucket_offset(), offset);
}

#[test]
fn pointer_walks_back_when_small_values_arrive() {
    let mut tracker = PercentileTracker::<i64>::new(50).unwrap();
    let mut seen = Vec::new();
    for value in 1000..1400 {
        tracker.insert(value);
        seen.push(value);
    }
    assert_eq!(tracker.get_percentile(), Ok(1200));
    let index = tracker.target_bucket_index();
    assert!(index > 0);
    for value in 0..900 {
        tracker.insert(value);
        seen.push(value);
    }
    seen.sort_unstable();
    assert_eq!(tracker.get_percentile(), Ok(seen[50 * seen.len() / 100]));
    assert_eq!(tracker.get_percentile(), Ok(650));
    assert!(tracker.target_bucket_offset() <= 650);
    assert_eq!(tracker.target_bucket_offset(), sizes_before_target(&tracker));
    let target = &tracker.buckets()[tracker.target_bucket_index()];
    assert!(650 < tracker.target_bucket_offset() + target.len());
    assert!(target.len() <= MAX_BUCKET_SIZE);
    assert_eq!(*target.get_value_at(650 - tracker.target_bucket_offset()), 650);
}
