use bucket_sort::bucket_sort;
use bucket_sort::is_sorted;
use bucket_sort::parallel::in_bucket;
use bucket_sort::plan::{compute_step, num_buckets};

#[test]
fn empty_input_stays_empty() {
    let mut v: Vec<i32> = vec![];
    bucket_sort(&mut v);
    assert_eq!(v, Vec::<i32>::new());
}

#[test]
fn singleton_stays_itself() {
    let mut v: Vec<i32> = vec![42];
    bucket_sort(&mut v);
    assert_eq!(v, vec![42]);
}

#[test]
fn all_equal_values_unchanged() {
    let mut v: Vec<i32> = vec![5, 5, 5, 5];
    bucket_sort(&mut v);
    assert_eq!(v, vec![5, 5, 5, 5]);
}

#[test]
fn extremes_without_overflow() {
    let mut v: Vec<i32> = vec![i32::MIN, i32::MAX, 0];
    bucket_sort(&mut v);
    assert_eq!(v, vec![i32::MIN, 0, i32::MAX]);
}

#[test]
fn reverse_input_sorted() {
    let mut v: Vec<i32> = vec![5, 4, 3, 2, 1];
    bucket_sort(&mut v);
    assert_eq!(v, vec![1, 2, 3, 4, 5]);
}

#[test]
fn sorting_twice_equals_sorting_once() {
    let mut once: Vec<i32> = vec![9, -3, 7, 7, 0, -3, 12];
    bucket_sort(&mut once);
    let mut twice = once.clone();
    bucket_sort(&mut twice);
    assert_eq!(twice, once);
}

#[test]
fn multiset_of_values_preserved() {
    let input: Vec<i32> = vec![3, -1, 3, 8, 0, 0, 3, -7];
    let mut sorted = input.clone();
    bucket_sort(&mut sorted);
    let mut expected = input.clone();
    expected.sort();
    assert_eq!(sorted, expected);
}

#[test]
fn adjacent_pairs_in_order() {
    let mut v: Vec<i32> = vec![10, -4, 6, 6, -20, 33, 1];
    bucket_sort(&mut v);
    for i in 0..v.len() - 1 {
        assert!(v[i] <= v[i + 1]);
    }
}

#[test]
fn is_sorted_accepts_sorted() {
    assert!(is_sorted(&vec![]));
    assert!(is_sorted(&vec![7]));
    assert!(is_sorted(&vec![-2, 0, 0, 5]));
}

#[test]
fn is_sorted_rejects_unsorted() {
    assert!(!is_sorted(&vec![1, 0]));
    assert!(!is_sorted(&vec![3, 5, 4]));
}

#[test]
fn bucket_count_is_ceil_log2() {
    assert_eq!(num_buckets(0), 1);
    assert_eq!(num_buckets(1), 1);
    assert_eq!(num_buckets(2), 1);
    assert_eq!(num_buckets(3), 2);
    assert_eq!(num_buckets(4), 2);
    assert_eq!(num_buckets(5), 3);
    assert_eq!(num_buckets(8), 3);
    assert_eq!(num_buckets(9), 4);
    assert_eq!(num_buckets(1024), 10);
    assert_eq!(num_buckets(1025), 11);
}

#[test]
fn step_is_ceiling_of_range_over_buckets() {
    assert_eq!(compute_step(0, 9, 2), 5);
    assert_eq!(compute_step(-5, 5, 3), 4);
    assert_eq!(compute_step(7, 7, 4), 1);
    assert_eq!(compute_step(i32::MIN, i32::MAX, 1), 1u64 << 32);
}

#[test]
fn max_value_falls_in_last_bucket() {
    let step = compute_step(0, 10, 2);
    assert_eq!(step, 6);
    assert!(in_bucket(10, 0, step, 1));
    assert!(!in_bucket(10, 0, step, 0));
    assert!(in_bucket(0, 0, step, 0));
    assert!(in_bucket(5, 0, step, 0));
    assert!(in_bucket(6, 0, step, 1));
}
