use std::collections::HashMap;

use snippets::fibonacci::{fibonacci_cached, fibonacci_plain, fibonacci_with_cache};

#[test]
fn plain_base_cases() {
    assert_eq!(fibonacci_plain(0), 0);
    assert_eq!(fibonacci_plain(1), 1);
    assert_eq!(fibonacci_plain(2), 1);
}

#[test]
fn plain_small_values() {
    assert_eq!(fibonacci_plain(10), 55);
    assert_eq!(fibonacci_plain(20), 6765);
    assert_eq!(fibonacci_plain(30), 832040);
}

#[test]
fn cached_base_cases() {
    assert_eq!(fibonacci_with_cache(0), 0);
    assert_eq!(fibonacci_with_cache(1), 1);
    assert_eq!(fibonacci_with_cache(2), 1);
}

#[test]
fn cached_matches_plain() {
    for n in 0..25usize {
        assert_eq!(fibonacci_with_cache(n), u128::from(fibonacci_plain(n as u32)));
    }
}

#[test]
fn cached_reaches_large_indices() {
    assert_eq!(fibonacci_with_cache(50), 12586269025);
    assert_eq!(fibonacci_with_cache(100), 354224848179261915075);
}

#[test]
fn cached_accepts_a_prefilled_table() {
    let mut cache: HashMap<usize, u128> = HashMap::new();
    cache.insert(10, 55);
    cache.insert(11, 89);
    assert_eq!(fibonacci_cached(12, &mut cache), 144);
    assert_eq!(fibonacci_cached(10, &mut cache), 55);
}
