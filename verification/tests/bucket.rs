use percentiletracker::Bucket;

fn bucket_of(values: &[i64]) -> Bucket<i64> {
    let mut bucket = Bucket::new(values[0]);
    for value in &values[1..] {
        bucket.push(*value);
    }
    bucket
}

fn contents_of(bucket: &Bucket<i64>) -> Vec<i64> {
    let mut values = Vec::new();
    for i in 0..bucket.len() {
        values.push(*bucket.get_value_at(i));
    }
    values
}

#[test]
fn new_bucket_holds_its_value_as_bound() {
    let bucket = Bucket::new(17i64);
    assert_eq!(bucket.len(), 1);
    assert_eq!(*bucket.min(), 17);
    assert_eq!(*bucket.get_value_at(0), 17);
}

#[test]
fn push_appends_and_leaves_the_bound() {
    let mut bucket = Bucket::new(5i64);
    bucket.push(9);
    bucket.push(2);
    assert_eq!(contents_of(&bucket), vec![5, 9, 2]);
    assert_eq!(*bucket.min(), 5);
    bucket.update_min_value(2);
    assert_eq!(*bucket.min(), 2);
    assert_eq!(contents_of(&bucket), vec![5, 9, 2]);
}

#[test]
fn ensure_sorted_puts_the_contents_in_ascending_order() {
    let mut bucket = bucket_of(&[5, 1, 4, 2, 3, 1]);
    bucket.ensure_sorted();
    assert_eq!(contents_of(&bucket), vec![1, 1, 2, 3, 4, 5]);
    assert_eq!(*bucket.min(), 5);
}

#[test]
fn ensure_sorted_twice_is_ensure_sorted_once() {
    let mut bucket = bucket_of(&[9, -3, 7, 7, 0, 12, -3]);
    bucket.ensure_sorted();
    let once = contents_of(&bucket);
    bucket.ensure_sorted();
    assert_eq!(contents_of(&bucket), once);
    assert_eq!(once, vec![-3, -3, 0, 7, 7, 9, 12]);
}

#[test]
fn push_after_sorting_is_sorted_again_on_demand() {
    let mut bucket = bucket_of(&[3, 1, 2]);
    bucket.ensure_sorted();
    bucket.push(0);
    assert_eq!(contents_of(&bucket), vec![1, 2, 3, 0]);
    bucket.ensure_sorted();
    assert_eq!(contents_of(&bucket), vec![0, 1, 2, 3]);
}

#[test]
fn split_at_median_halves_an_odd_bucket() {
    let mut lower = bucket_of(&[5, 1, 4, 2, 3]);
    lower.update_min_value(1);
    let mut upper = lower.split_at_median();
    assert_eq!(lower.len(), 2);
    assert_eq!(upper.len(), 3);
    assert_eq!(*lower.min(), 1);
    assert_eq!(*upper.min(), 3);
    assert_eq!(*upper.get_value_at(0), 3);
    lower.ensure_sorted();
    upper.ensure_sorted();
    assert_eq!(contents_of(&lower), vec![1, 2]);
    assert_eq!(contents_of(&upper), vec![3, 4, 5]);
}

#[test]
fn split_at_median_halves_an_even_bucket() {
    let mut lower = bucket_of(&[8, 6, 7, 5, 3, 0, 9, 1]);
    let mut upper = lower.split_at_median();
    assert_eq!(lower.len(), 4);
    assert_eq!(upper.len(), 4);
    assert_eq!(*upper.min(), 6);
    for i in 0..lower.len() {
        assert!(*lower.get_value_at(i) <= *upper.min());
    }
    for i in 0..upper.len() {
        assert!(*upper.get_value_at(i) >= *upper.min());
    }
    lower.ensure_sorted();
    upper.ensure_sorted();
    assert_eq!(contents_of(&lower), vec![0, 1, 3, 5]);
    assert_eq!(contents_of(&upper), vec![6, 7, 8, 9]);
}

#[test]
fn split_at_median_of_equal_values_shares_the_bound() {
    let mut lower = bucket_of(&[4, 4, 4, 4, 4]);
    let upper = lower.split_at_median();
    assert_eq!(contents_of(&lower), vec![4, 4]);
    assert_eq!(contents_of(&upper), vec![4, 4, 4]);
    assert_eq!(*lower.min(), 4);
    assert_eq!(*upper.min(), 4);
}

#[test]
fn split_at_median_of_one_value_moves_it_out() {
    let mut lower = Bucket::new(11i64);
    let upper = lower.split_at_median();
    assert_eq!(lower.len(), 0);
    assert_eq!(contents_of(&upper), vec![11]);
    assert_eq!(*upper.min(), 11);
}
