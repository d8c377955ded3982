//! Fibonacci numbers, computed by plain recursion and by recursion with a
//! memo table, both proved against the same mathematical definition.

use vstd::prelude::*;

use std::collections::HashMap;

verus! {

/// The mathematical Fibonacci sequence: 0, 1, 1, 2, 3, 5, 8, ...
pub open spec fn fib(n: nat) -> nat
    decreases n,
{
    if n == 0 {
        0
    } else if n == 1 {
        1
    } else {
        fib((n - 1) as nat) + fib((n - 2) as nat)
    }
}

/// The Fibonacci sequence never decreases.
pub proof fn lemma_fib_monotonic(a: nat, b: nat)
    requires
        a <= b,
    ensures
        fib(a) <= fib(b),
    decreases b,
{
    if a < b && b >= 2 {
        lemma_fib_monotonic(a, (b - 1) as nat);
    }
}

/// Computes `fib(n)` by plain recursion, exactly as the definition reads.
pub fn fibonacci_plain(n: u32) -> (r: u32)
    requires
        fib(n as nat) <= u32::MAX,
    ensures
        r == fib(n as nat),
    decreases n,
{
    match n {
        0 => 0,
        1 => 1,
        2 => {
            proof {
                reveal_with_fuel(fib, 3);
            }
            1
        },
        x => {
            proof {
                lemma_fib_monotonic((x - 1) as nat, x as nat);
                lemma_fib_monotonic((x - 2) as nat, x as nat);
            }
            fibonacci_plain(x - 1) + fibonacci_plain(x - 2)
        },
    }
}

/// Every entry the memo table holds is a Fibonacci value for its key.
pub open spec fn cache_valid(m: Map<usize, u128>) -> bool {
    forall|k: usize| #[trigger] m.contains_key(k) ==> m[k] == fib(k as nat)
}

/// Every entry of `m1` is still present, unchanged, in `m2`.
pub open spec fn preserves_entries(m1: Map<usize, u128>, m2: Map<usize, u128>) -> bool {
    forall|k: usize| m1.contains_key(k) ==> #[trigger] m2.contains_key(k) && m2[k] == m1[k]
}

/// Computes `fib(n)` recursively, looking results up in `cache` and
/// recording each newly computed value there.  The table only grows: every
/// entry it held before the call is still there, unchanged, afterwards.
pub fn fibonacci_cached(n: usize, cache: &mut HashMap<usize, u128>) -> (r: u128)
    requires
        fib(n as nat) <= u128::MAX,
        cache_valid(old(cache)@),
    ensures
        r == fib(n as nat),
        cache_valid(final(cache)@),
        final(cache)@.contains_key(n),
        preserves_entries(old(cache)@, final(cache)@),
    decreases n,
{
    match cache.get(&n) {
        Some(value) => *value,
        None => {
            let result: u128 = match n {
                0 => 0,
                1 => 1,
                2 => {
                    proof {
                        reveal_with_fuel(fib, 3);
                    }
                    1
                },
                _ => {
                    proof {
                        lemma_fib_monotonic((n - 1) as nat, n as nat);
                        lemma_fib_monotonic((n - 2) as nat, n as nat);
                    }
                    let a = fibonacci_cached(n - 1, cache);
                    let ghost mid = cache@;
                    let b = fibonacci_cached(n - 2, cache);
                    proof {
                        assert forall|k: usize| old(cache)@.contains_key(k) implies #[trigger] cache@.contains_key(
                            k,
                        ) && cache@[k] == old(cache)@[k] by {
                            assert(mid.contains_key(k));
                            assert(mid[k] == old(cache)@[k]);
                            assert(cache@.contains_key(k));
                            assert(cache@[k] == mid[k]);
                        }
                        assert(preserves_entries(old(cache)@, cache@));
                    }
                    a + b
                },
            };
            let ghost pre_insert = cache@;
            cache.insert(n, result);
            proof {
                assert forall|k: usize| old(cache)@.contains_key(k) implies #[trigger] cache@.contains_key(
                    k,
                ) && cache@[k] == old(cache)@[k] by {
                    assert(pre_insert.contains_key(k));
                    assert(pre_insert[k] == old(cache)@[k]);
                }
                assert(preserves_entries(old(cache)@, cache@));
            }
            result
        },
    }
}

/// Computes `fib(n)` with a fresh memo table.
pub fn fibonacci_with_cache(n: usize) -> (r: u128)
    requires
        fib(n as nat) <= u128::MAX,
    ensures
        r == fib(n as nat),
{
    let mut cache: HashMap<usize, u128> = HashMap::new();
    fibonacci_cached(n, &mut cache)
}

} // verus!
