use teiler::finder::{
    merge, search_limit, worker_count, worker_divisors, DIVISOR_THREAD_GRANULARITY,
};
use teiler::{find_divisors, find_divisors_with};

fn sorted(mut values: Vec<u128>) -> Vec<u128> {
    values.sort_unstable();
    values
}

fn by_trial(number: u128) -> Vec<u128> {
    (1..=number).filter(|d| number % d == 0).collect()
}

#[test]
fn divisors_of_one() {
    assert_eq!(find_divisors(1), vec![1]);
    assert_eq!(find_divisors_with(1, 1), vec![1]);
    assert_eq!(find_divisors_with(1, 2), vec![1]);
}

#[test]
fn divisors_of_a_prime() {
    assert_eq!(sorted(find_divisors(17)), vec![1, 17]);
    assert_eq!(sorted(find_divisors_with(17, 2)), vec![1, 17]);
}

#[test]
fn divisors_of_a_perfect_square() {
    let divisors = find_divisors(36);
    assert_eq!(divisors.iter().filter(|d| **d == 6).count(), 1);
    assert_eq!(sorted(divisors), vec![1, 2, 3, 4, 6, 9, 12, 18, 36]);
}

#[test]
fn divisors_of_twenty_in_ascending_order() {
    assert_eq!(sorted(find_divisors(20)), vec![1, 2, 4, 5, 10, 20]);
}

#[test]
fn divisors_of_twenty_print_one_per_line() {
    let mut lines = String::new();
    for divisor in sorted(find_divisors(20)) {
        lines.push_str(&format!("{}\n", divisor));
    }
    assert_eq!(lines, "1\n2\n4\n5\n10\n20\n");
}

#[test]
fn divisors_of_zero_are_none() {
    assert_eq!(find_divisors(0), Vec::<u128>::new());
    assert_eq!(find_divisors_with(0, 3), Vec::<u128>::new());
}

#[test]
fn findings_come_in_worker_order() {
    assert_eq!(find_divisors_with(20, 1), vec![1, 20, 2, 10, 4, 5]);
    assert_eq!(find_divisors_with(20, 2), vec![1, 20, 2, 10, 4, 5]);
    assert_eq!(find_divisors_with(20, 3), vec![1, 20, 4, 5, 2, 10]);
    assert_eq!(find_divisors_with(36, 2), vec![1, 36, 3, 12, 2, 18, 4, 9, 6]);
    assert_eq!(find_divisors(20), vec![1, 20, 2, 10, 4, 5]);
}

#[test]
fn any_number_of_workers_finds_the_same_divisors() {
    for number in 1..=300u128 {
        let expected = by_trial(number);
        assert_eq!(sorted(find_divisors(number)), expected);
        for threads in [1usize, 2, 3, 7, 64] {
            assert_eq!(sorted(find_divisors_with(number, threads)), expected);
        }
    }
}

#[test]
fn each_divisor_comes_with_its_complement() {
    for number in [1u128, 20, 36, 49, 97, 360, 1 << 20, 1_000_003 * 999_983] {
        let divisors = find_divisors_with(number, 2);
        for d in &divisors {
            assert_eq!(number % d, 0);
            assert!(divisors.contains(&(number / d)));
            assert_eq!(divisors.iter().filter(|other| *other == d).count(), 1);
        }
    }
}

#[test]
fn large_search_is_shared_by_several_workers() {
    let number: u128 = 1 << 40;
    let limit = search_limit(number);
    assert_eq!(limit, (1 << 20) + 1);
    assert_eq!(worker_count(4, limit), 4);
    let expected: Vec<u128> = (0..=40).map(|e| 1u128 << e).collect();
    assert_eq!(sorted(find_divisors(number)), expected);
    assert_eq!(sorted(find_divisors_with(number, 4)), expected);
    assert_eq!(sorted(find_divisors_with(number, 1)), expected);
}

#[test]
fn product_of_two_large_primes() {
    let p: u128 = 1_000_003;
    let q: u128 = 998_244_353;
    assert_eq!(sorted(find_divisors_with(p * q, 3)), vec![1, p, q, p * q]);
}

#[test]
fn search_limit_is_one_past_the_integer_square_root() {
    assert_eq!(search_limit(0), 1);
    assert_eq!(search_limit(1), 2);
    assert_eq!(search_limit(3), 2);
    assert_eq!(search_limit(4), 3);
    assert_eq!(search_limit(20), 5);
    assert_eq!(search_limit(35), 6);
    assert_eq!(search_limit(36), 7);
    assert_eq!(search_limit(u128::MAX), 1 << 64);
}

#[test]
fn worker_count_follows_cores_and_work() {
    assert_eq!(DIVISOR_THREAD_GRANULARITY, 65536);
    assert_eq!(worker_count(8, 5), 1);
    assert_eq!(worker_count(8, 65535), 1);
    assert_eq!(worker_count(8, 65536), 1);
    assert_eq!(worker_count(8, 2 * 65536 - 1), 1);
    assert_eq!(worker_count(8, 2 * 65536), 2);
    assert_eq!(worker_count(8, 3 * 65536 + 17), 3);
    assert_eq!(worker_count(8, 8 * 65536), 8);
    assert_eq!(worker_count(8, 100 * 65536), 8);
    assert_eq!(worker_count(2, 100 * 65536), 2);
    assert_eq!(worker_count(1, 100 * 65536), 1);
    assert_eq!(worker_count(0, 100 * 65536), 1);
    assert_eq!(worker_count(usize::MAX, 1 << 64), 1 << 48);
}

#[test]
fn worker_scans_its_stride_only() {
    assert_eq!(worker_divisors(36, 0, 1, 7), vec![1, 36, 2, 18, 3, 12, 4, 9, 6]);
    assert_eq!(worker_divisors(36, 0, 2, 7), vec![1, 36, 3, 12]);
    assert_eq!(worker_divisors(36, 1, 2, 7), vec![2, 18, 4, 9, 6]);
    assert_eq!(worker_divisors(36, 2, 3, 7), vec![3, 12, 6]);
    assert_eq!(worker_divisors(36, 6, 7, 7), Vec::<u128>::new());
    assert_eq!(worker_divisors(36, 0, 1, 1), Vec::<u128>::new());
    assert_eq!(worker_divisors(36, 0, 1, 0), Vec::<u128>::new());
}

#[test]
fn worker_takes_the_widest_stride() {
    let number = u128::MAX;
    let first = usize::MAX as u128;
    let found = worker_divisors(number, usize::MAX - 1, usize::MAX, first + 5);
    assert_eq!(found, vec![first, first + 2]);
    let found = worker_divisors(number, 2, usize::MAX, 4);
    assert_eq!(found, vec![3, u128::MAX / 3]);
}

#[test]
fn merge_joins_in_order() {
    assert_eq!(merge(vec![vec![1, 2], vec![], vec![3], vec![2, 1]]), vec![1, 2, 3, 2, 1]);
    assert_eq!(merge(Vec::new()), Vec::<u128>::new());
    assert_eq!(merge(vec![Vec::new(), Vec::new()]), Vec::<u128>::new());
}

#[test]
fn workers_merged_are_the_whole_search() {
    let number: u128 = 720_720;
    let limit = search_limit(number);
    let threads = 5;
    let parts = (0..threads).map(|worker| worker_divisors(number, worker, threads, limit)).collect();
    assert_eq!(merge(parts), find_divisors_with(number, threads));
}
