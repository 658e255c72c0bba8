use teiler::arithmetic::is_divisible;
use teiler::{Divisors, IntoDivisors};

#[test]
fn div_20() {
    let div: Vec<u128> = (1..=20).divisors(20).collect();
    assert_eq!(&div, &[1, 2, 4, 5, 10, 20])
}

#[test]
fn rdiv_20() {
    let div: Vec<u128> = (1..=20).divisors(20).collect_back();
    assert_eq!(&div, &[20, 10, 5, 4, 2, 1])
}

#[test]
fn is_divisible_tells_divisors_from_the_rest() {
    assert!(is_divisible(20, 5));
    assert!(is_divisible(20, 20));
    assert!(is_divisible(20, 1));
    assert!(!is_divisible(20, 3));
    assert!(!is_divisible(20, 40));
    assert!(is_divisible(0, 5));
}

#[test]
fn zero_divides_nothing() {
    assert!(!is_divisible(20, 0));
    assert!(!is_divisible(0, 0));
    let div = vec![0u128, 1, 0, 2, 3, 0].into_iter().divisors(4).collect();
    assert_eq!(div, vec![1, 2]);
}

#[test]
fn is_divisible_at_the_width_of_the_type() {
    assert!(is_divisible(u128::MAX, u128::MAX));
    assert!(is_divisible(u128::MAX, 3));
    assert!(!is_divisible(u128::MAX, 2));
    assert!(!is_divisible(u128::MAX - 1, u128::MAX));
}

#[test]
fn next_skips_to_the_first_divisor() {
    let mut filter = Divisors::new(20u128, vec![3u128, 7, 4, 9, 5].into_iter());
    assert_eq!(filter.next(), Some(4));
    assert_eq!(filter.next(), Some(5));
    assert_eq!(filter.next(), None);
    assert_eq!(filter.next(), None);
}

#[test]
fn next_back_skips_to_the_last_divisor() {
    let mut filter = Divisors::new(20u128, vec![3u128, 7, 4, 9, 5, 11].into_iter());
    assert_eq!(filter.next_back(), Some(5));
    assert_eq!(filter.next_back(), Some(4));
    assert_eq!(filter.next_back(), None);
    assert_eq!(filter.next_back(), None);
}

#[test]
fn next_does_not_scan_a_candidate_again() {
    let mut candidates = vec![3u128, 4, 6, 5, 7].into_iter();
    {
        let mut filter = Divisors::new(20u128, &mut candidates);
        assert_eq!(filter.next(), Some(4));
    }
    assert_eq!(candidates.collect::<Vec<u128>>(), vec![6, 5, 7]);
}

#[test]
fn front_and_back_meet_without_overlap() {
    let mut filter = (1..=20u128).divisors(20);
    assert_eq!(filter.next(), Some(1));
    assert_eq!(filter.next_back(), Some(20));
    assert_eq!(filter.next(), Some(2));
    assert_eq!(filter.next_back(), Some(10));
    assert_eq!(filter.next_back(), Some(5));
    assert_eq!(filter.next(), Some(4));
    assert_eq!(filter.next(), None);
    assert_eq!(filter.next_back(), None);
}

#[test]
fn empty_candidates_give_no_divisor() {
    let none: Vec<u128> = Vec::new();
    assert_eq!(none.clone().into_iter().divisors(20).collect(), Vec::<u128>::new());
    assert_eq!(none.clone().into_iter().divisors(20).collect_back(), Vec::<u128>::new());
    assert_eq!(none.into_iter().divisors(20).next(), None);
}

#[test]
fn candidates_without_divisor_give_none() {
    let mut filter = vec![3u128, 7, 9].into_iter().divisors(20);
    assert_eq!(filter.next(), None);
    let mut filter = vec![3u128, 7, 9].into_iter().divisors(20);
    assert_eq!(filter.next_back(), None);
}

#[test]
fn candidates_keep_their_order_and_repeats() {
    let div = vec![10u128, 3, 2, 10, 20, 1, 2].into_iter().divisors(20).collect();
    assert_eq!(div, vec![10, 2, 10, 20, 1, 2]);
    let div = vec![10u128, 3, 2, 10, 20, 1, 2].into_iter().divisors(20).collect_back();
    assert_eq!(div, vec![2, 1, 20, 10, 2, 10]);
}

#[test]
fn reversed_candidates_are_a_source_too() {
    let div = (1..=20u128).rev().divisors(20).collect();
    assert_eq!(div, vec![20, 10, 5, 4, 2, 1]);
}

#[test]
fn filtering_twice_gives_the_same() {
    let first = (1..=360u128).divisors(360).collect();
    let second = (1..=360u128).divisors(360).collect();
    assert_eq!(first, second);
    let again = first.clone().into_iter().divisors(360).collect();
    assert_eq!(again, first);
    assert_eq!(first.len(), 24);
}

#[test]
fn front_is_the_reverse_of_back() {
    for dividend in [1u128, 2, 12, 17, 36, 97, 360, 1024] {
        let forward = (1..=400u128).divisors(dividend).collect();
        let mut backward = (1..=400u128).divisors(dividend).collect_back();
        backward.reverse();
        assert_eq!(forward, backward);
    }
    let forward = vec![5u128, 0, 7, 35, 1, 5].into_iter().divisors(35).collect();
    let mut backward = vec![5u128, 0, 7, 35, 1, 5].into_iter().divisors(35).collect_back();
    backward.reverse();
    assert_eq!(forward, vec![5, 7, 35, 1, 5]);
    assert_eq!(forward, backward);
}

#[test]
fn a_clone_filters_on_its_own() {
    let mut filter = (1..=6u128).divisors(6);
    assert_eq!(filter.next(), Some(1));
    let copy = filter.clone();
    assert_eq!(filter.next(), Some(2));
    assert_eq!(copy.collect(), vec![2, 3, 6]);
    assert_eq!(filter.collect(), vec![3, 6]);
}

#[test]
fn divisors_of_zero_are_all_nonzero_candidates() {
    let div = (0..=5u128).divisors(0).collect();
    assert_eq!(div, vec![1, 2, 3, 4, 5]);
}
