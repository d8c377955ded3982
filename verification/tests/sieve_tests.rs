use snippets::sieve::{
    find_smallest_not_marked_number, generate_primes, multiples_of_p, resolve_numbers,
    run_sieve_iteration,
};

#[test]
fn generate_primes_of_ten() {
    assert_eq!(generate_primes(10), vec![2, 3, 5, 7]);
}

#[test]
fn generate_primes_of_one_is_empty() {
    assert_eq!(generate_primes(1), Vec::<usize>::new());
}

#[test]
fn generate_primes_of_zero_is_empty() {
    assert_eq!(generate_primes(0), Vec::<usize>::new());
}

#[test]
fn generate_primes_of_two() {
    assert_eq!(generate_primes(2), vec![2]);
}

#[test]
fn generate_primes_boundary_hundred() {
    let primes = generate_primes(100);
    assert_eq!(primes.len(), 25);
    assert_eq!(*primes.last().unwrap(), 97);
    assert_eq!(primes[0], 2);
}

#[test]
fn returned_values_have_no_small_divisors() {
    let primes = generate_primes(200);
    for &v in primes.iter() {
        for d in 2..v {
            assert_ne!(v % d, 0, "{} evenly divides {}", d, v);
        }
    }
}

#[test]
fn output_is_strictly_ascending_without_duplicates() {
    let primes = generate_primes(150);
    for pair in primes.windows(2) {
        assert!(pair[0] < pair[1]);
    }
}

#[test]
fn repeated_calls_yield_identical_sequences() {
    assert_eq!(generate_primes(123), generate_primes(123));
}

#[test]
fn multiples_skip_the_candidate_itself() {
    assert_eq!(multiples_of_p(3, 20), vec![6, 9, 12, 15, 18]);
    assert_eq!(multiples_of_p(2, 4), vec![4]);
    assert_eq!(multiples_of_p(5, 9), Vec::<usize>::new());
}

#[test]
fn marking_clears_exactly_the_proper_multiples() {
    let mut table = vec![true; 11];
    run_sieve_iteration(&mut table, 2, 10);
    assert_eq!(
        table,
        vec![true, true, true, true, false, true, false, true, false, true, false]
    );
}

#[test]
fn scan_finds_the_smallest_surviving_index() {
    let table = vec![false, false, false, true, false, true];
    assert_eq!(find_smallest_not_marked_number(&table, 0, 6), Some(3));
    assert_eq!(find_smallest_not_marked_number(&table, 4, 6), Some(5));
    assert_eq!(find_smallest_not_marked_number(&table, 4, 5), None);
}

#[test]
fn resolving_collects_surviving_indices_from_two_up() {
    let table = vec![true, true, true, false, true, true];
    assert_eq!(resolve_numbers(&table), vec![2, 4, 5]);
}
