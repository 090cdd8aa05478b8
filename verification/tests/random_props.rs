use bucket_sort::bucket_sort;
use rand::Rng;

fn check_sorted_and_multiset(input: Vec<i32>) {
    let mut expected = input.clone();
    expected.sort_unstable();
    let mut actual = input;
    bucket_sort(&mut actual);
    assert_eq!(actual, expected);
}

#[test]
fn many_small_random_inputs() {
    let mut rng = rand::thread_rng();
    for _ in 0..2000 {
        let len: usize = rng.gen_range(0..=200);
        let input: Vec<i32> = (0..len).map(|_| rng.gen::<i32>()).collect();
        check_sorted_and_multiset(input);
    }
}

#[test]
fn large_random_inputs_full_range() {
    let mut rng = rand::thread_rng();
    for _ in 0..10 {
        let len: usize = rng.gen_range(0..=10_000);
        let input: Vec<i32> = (0..len).map(|_| rng.gen::<i32>()).collect();
        check_sorted_and_multiset(input);
    }
}

#[test]
fn random_narrow_range_inputs() {
    let mut rng = rand::thread_rng();
    for _ in 0..500 {
        let len: usize = rng.gen_range(0..=300);
        let input: Vec<i32> = (0..len).map(|_| rng.gen_range(-3..=3)).collect();
        check_sorted_and_multiset(input);
    }
}
