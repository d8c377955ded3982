//! Prime generation with the sieve of Eratosthenes.
//!
//! A boolean marking table holds one flag per integer from 0 up to the
//! requested limit.  Starting from the first candidate, 2, every proper
//! multiple of each surviving candidate is marked composite; the indices
//! whose flags survive are exactly the primes up to the limit.

use vstd::prelude::*;

verus! {

/// The first candidate the sieve considers; also the smallest prime.
pub const FIRST_PRIME: usize = 2;

/// `d` evenly divides `n`.
pub open spec fn divides(d: int, n: int) -> bool {
    exists|k: int| n == #[trigger] (d * k)
}

/// `n` is at least 2 and no integer in `[2, n - 1]` evenly divides `n`.
pub open spec fn is_prime(n: int) -> bool {
    &&& 2 <= n
    &&& forall|d: int| 2 <= d < n ==> !(#[trigger] divides(d, n))
}

/// `n` is a multiple `p * k` of `p` with `k >= 2`, i.e. one of the values
/// the marking pass for candidate `p` strikes out (never `p` itself).
pub open spec fn is_proper_multiple(n: int, p: int) -> bool {
    &&& 2 * p <= n
    &&& divides(p, n)
}

/// `n` is a proper multiple of some candidate in `[2, c)`: after the sieve
/// has processed every candidate below `c`, exactly these `n` are marked
/// composite.
pub open spec fn marked_composite(n: int, c: int) -> bool {
    exists|d: int| 2 <= d < c && #[trigger] is_proper_multiple(n, d)
}

/// Collects the proper multiples of `p` that do not exceed `limit`,
/// in ascending order: `p * 2, p * 3, ...`, never `p` itself.
pub fn multiples_of_p(p: usize, limit: usize) -> (result: Vec<usize>)
    requires
        2 <= p,
        limit + p <= usize::MAX,
        2 * p <= usize::MAX,
    ensures
        forall|j: int| 0 <= j < result@.len() ==> #[trigger] result@[j] == p * (j + 2)
            && result@[j] <= limit,
        p * (result@.len() + 2) > limit,
{
    let mut result: Vec<usize> = Vec::new();
    let mut x: usize = 2;
    let mut r: usize = 0;
    while r <= limit
        invariant
            2 <= p,
            limit + p <= usize::MAX,
            2 * p <= usize::MAX,
            2 <= x,
            x == 2 ==> r == 0,
            x > 2 ==> r == p * (x - 1),
            r <= limit ==> result@.len() == x - 2,
            r > limit ==> x > 2 && result@.len() == x - 3,
            forall|j: int| 0 <= j < result@.len() ==> #[trigger] result@[j] == p * (j + 2)
                && result@[j] <= limit,
            x <= limit + 3,
        decreases limit + 3 - x,
    {
        proof {
            if x == 2 {
                assert(p * 2 == 2 * p) by (nonlinear_arith);
            } else {
                assert(p * x == p * (x - 1) + p) by (nonlinear_arith);
                assert(2 * (x - 1) <= p * (x - 1)) by (nonlinear_arith)
                    requires
                        2 <= p,
                        1 <= x - 1,
                {
                }
            }
        }
        r = p * x;
        if r <= limit {
            result.push(r);
        }
        x = x + 1;
    }
    proof {
        assert(p * ((x - 3) + 2) == p * (x - 1));
    }
    result
}

/// `n` occurs among the first `j` entries of `mult`.
spec fn marked_by_prefix(mult: Seq<usize>, n: int, j: int) -> bool {
    exists|m: int| 0 <= m < j && n == #[trigger] mult[m]
}

/// Occurring in the full list produced by `multiples_of_p` is the same as
/// being a proper multiple of `p`, for values within the table.
proof fn lemma_prefix_is_proper(mult: Seq<usize>, p: int, limit: int, n: int)
    requires
        2 <= p,
        forall|j: int| 0 <= j < mult.len() ==> #[trigger] mult[j] == p * (j + 2)
            && mult[j] <= limit,
        p * (mult.len() + 2) > limit,
        0 <= n <= limit,
    ensures
        marked_by_prefix(mult, n, mult.len() as int) <==> is_proper_multiple(n, p),
{
    if marked_by_prefix(mult, n, mult.len() as int) {
        let m = choose|m: int| 0 <= m < mult.len() && n == mult[m];
        assert(n == p * (m + 2));
        assert(2 * p <= p * (m + 2)) by (nonlinear_arith)
            requires
                2 <= p,
                0 <= m,
        {
        }
    }
    if is_proper_multiple(n, p) {
        let k = choose|k: int| n == #[trigger] (p * k);
        assert(2 <= k) by (nonlinear_arith)
            requires
                2 <= p,
                n == p * k,
                2 * p <= n,
        {
        }
        assert(k < mult.len() + 2) by (nonlinear_arith)
            requires
                2 <= p,
                n == p * k,
                n <= limit,
                p * (mult.len() + 2) > limit,
        {
        }
        assert(mult[k - 2] == p * ((k - 2) + 2));
        assert(n == mult[k - 2]);
        assert(marked_by_prefix(mult, n, mult.len() as int));
    }
}

/// Marks every proper multiple of `p` up to `upper_limit` as composite,
/// leaving all other table entries untouched (in particular `p` itself).
pub fn run_sieve_iteration(sieve: &mut Vec<bool>, p: usize, upper_limit: usize)
    requires
        2 <= p,
        upper_limit + p <= usize::MAX,
        2 * p <= usize::MAX,
        old(sieve)@.len() == upper_limit + 1,
    ensures
        final(sieve)@.len() == old(sieve)@.len(),
        forall|i: int| 0 <= i < final(sieve)@.len() ==> #[trigger] final(sieve)@[i] == (old(
            sieve,
        )@[i] && !is_proper_multiple(i, p as int)),
{
    let multiples = multiples_of_p(p, upper_limit);
    let mut idx: usize = 0;
    while idx < multiples.len()
        invariant
            2 <= p,
            sieve@.len() == upper_limit + 1,
            idx <= multiples@.len(),
            forall|j: int| 0 <= j < multiples@.len() ==> #[trigger] multiples@[j] == p * (j + 2)
                && multiples@[j] <= upper_limit,
            forall|i: int| 0 <= i < sieve@.len() ==> #[trigger] sieve@[i] == (old(sieve)@[i]
                && !marked_by_prefix(multiples@, i, idx as int)),
        decreases multiples@.len() - idx,
    {
        let x = multiples[idx];
        sieve[x] = false;
        proof {
            let pre = idx as int;
            assert forall|i: int| 0 <= i < sieve@.len() implies #[trigger] sieve@[i] == (old(
                sieve,
            )@[i] && !marked_by_prefix(multiples@, i, pre + 1)) by {
                if i == x {
                    assert(multiples@[pre] == x);
                    assert(marked_by_prefix(multiples@, i, pre + 1));
                } else {
                    if marked_by_prefix(multiples@, i, pre + 1) {
                        let m = choose|m: int| 0 <= m < pre + 1 && i == #[trigger] multiples@[m];
                        assert(m < pre);
                        assert(marked_by_prefix(multiples@, i, pre));
                    }
                    if marked_by_prefix(multiples@, i, pre) {
                        let m = choose|m: int| 0 <= m < pre && i == #[trigger] multiples@[m];
                        assert(marked_by_prefix(multiples@, i, pre + 1));
                    }
                }
            }
        }
        idx = idx + 1;
    }
    proof {
        assert forall|i: int| 0 <= i < sieve@.len() implies #[trigger] sieve@[i] == (old(
            sieve,
        )@[i] && !is_proper_multiple(i, p as int)) by {
            lemma_prefix_is_proper(multiples@, p as int, upper_limit as int, i);
        }
    }
}

/// Processing one more candidate `p` adds exactly the proper multiples of
/// `p` to the set of marked numbers.
proof fn lemma_marked_step(n: int, p: int)
    requires
        2 <= p,
    ensures
        marked_composite(n, p + 1) == (marked_composite(n, p) || is_proper_multiple(n, p)),
{
    if marked_composite(n, p + 1) {
        let d = choose|d: int| 2 <= d < p + 1 && #[trigger] is_proper_multiple(n, d);
        if d < p {
            assert(marked_composite(n, p));
        }
    }
    if marked_composite(n, p) {
        let d = choose|d: int| 2 <= d < p && #[trigger] is_proper_multiple(n, d);
        assert(marked_composite(n, p + 1));
    }
    if is_proper_multiple(n, p) {
        assert(marked_composite(n, p + 1));
    }
}

/// Being a proper multiple composes: a proper multiple of a proper multiple
/// is itself a proper multiple.
proof fn lemma_proper_multiple_trans(n: int, d: int, e: int)
    requires
        2 <= e,
        2 <= d,
        is_proper_multiple(n, d),
        is_proper_multiple(d, e),
    ensures
        is_proper_multiple(n, e),
{
    let k = choose|k: int| n == #[trigger] (d * k);
    let m = choose|m: int| d == #[trigger] (e * m);
    assert(n == e * (m * k)) by (nonlinear_arith)
        requires
            n == d * k,
            d == e * m,
    {
    }
}

/// Candidates in `[c1, c2)` that are already marked contribute no new marks:
/// each of their proper multiples is a proper multiple of something below
/// `c1` already.
proof fn lemma_marked_window(n: int, c1: int, c2: int)
    requires
        2 <= c1 <= c2,
        forall|d: int| c1 <= d < c2 ==> #[trigger] marked_composite(d, c1),
    ensures
        marked_composite(n, c2) == marked_composite(n, c1),
{
    if marked_composite(n, c2) {
        let d = choose|d: int| 2 <= d < c2 && #[trigger] is_proper_multiple(n, d);
        if d < c1 {
            assert(marked_composite(n, c1));
        } else {
            assert(marked_composite(d, c1));
            let e = choose|e: int| 2 <= e < c1 && #[trigger] is_proper_multiple(d, e);
            lemma_proper_multiple_trans(n, d, e);
            assert(marked_composite(n, c1));
        }
    }
    if marked_composite(n, c1) {
        let d = choose|d: int| 2 <= d < c1 && #[trigger] is_proper_multiple(n, d);
        assert(marked_composite(n, c2));
    }
}

/// A divisor `d` of `n` with `2 <= d < n` makes `n` a proper multiple of `d`.
proof fn lemma_divisor_proper(n: int, d: int)
    requires
        2 <= d < n,
        divides(d, n),
    ensures
        is_proper_multiple(n, d),
{
    let k = choose|k: int| n == #[trigger] (d * k);
    assert(2 * d <= n) by (nonlinear_arith)
        requires
            2 <= d,
            d < n,
            n == d * k,
    {
    }
}

/// Once every candidate below `c >= n` has been processed, `n` is marked
/// exactly when it is not prime.
proof fn lemma_marked_iff_composite(n: int, c: int)
    requires
        2 <= n <= c,
    ensures
        marked_composite(n, c) == !is_prime(n),
{
    if marked_composite(n, c) {
        let d = choose|d: int| 2 <= d < c && #[trigger] is_proper_multiple(n, d);
        assert(divides(d, n));
        assert(d < n);
        assert(!is_prime(n));
    }
    if !is_prime(n) {
        let d = choose|d: int| 2 <= d < n && #[trigger] divides(d, n);
        lemma_divisor_proper(n, d);
        assert(marked_composite(n, c));
    }
}

/// The entries of `s` are strictly ascending (so `s` holds no duplicates).
pub open spec fn strictly_ascending(s: Seq<usize>) -> bool {
    forall|j1: int, j2: int| 0 <= j1 < j2 < s.len() ==> s[j1] < s[j2]
}

/// What the sieve promises of its output sequence for a given `limit`:
/// every entry is a prime at most `limit`, every prime at most `limit`
/// appears, and the entries are strictly ascending.
pub open spec fn sieve_output_matches(primes: Seq<usize>, limit: int) -> bool {
    &&& forall|j: int| 0 <= j < primes.len() ==> is_prime(#[trigger] primes[j] as int)
        && primes[j] <= limit
    &&& forall|n: int|
        #![trigger primes.contains(n as usize)]
        #![trigger is_prime(n)]
        2 <= n <= limit && is_prime(n) ==> primes.contains(n as usize)
    &&& strictly_ascending(primes)
}

/// Two strictly ascending sequences with the same members are equal.
proof fn lemma_strictly_ascending_unique(s1: Seq<usize>, s2: Seq<usize>)
    requires
        strictly_ascending(s1),
        strictly_ascending(s2),
        forall|x: usize| s1.contains(x) <==> s2.contains(x),
    ensures
        s1 == s2,
    decreases s1.len(),
{
    if s1.len() == 0 {
        if s2.len() > 0 {
            assert(s2.contains(s2[0]));
            assert(s1.contains(s2[0]));
            assert(false);
        }
        assert(s1 =~= s2);
    } else if s2.len() == 0 {
        assert(s1.contains(s1[0]));
        assert(s2.contains(s1[0]));
        assert(false);
    } else {
        let a = s1[0];
        let b = s2[0];
        assert(s1.contains(a));
        assert(s2.contains(b));
        let ia = choose|i: int| 0 <= i < s2.len() && s2[i] == a;
        let ib = choose|i: int| 0 <= i < s1.len() && s1[i] == b;
        assert(b <= a);
        assert(a <= b);
        let t1 = s1.subrange(1, s1.len() as int);
        let t2 = s2.subrange(1, s2.len() as int);
        assert forall|x: usize| t1.contains(x) <==> t2.contains(x) by {
            if t1.contains(x) {
                let j = choose|j: int| 0 <= j < t1.len() && t1[j] == x;
                assert(s1[j + 1] == x);
                assert(s1.contains(x));
                let i = choose|i: int| 0 <= i < s2.len() && s2[i] == x;
                assert(a < x);
                assert(i != 0);
                assert(t2[i - 1] == x);
                assert(t2.contains(x));
            }
            if t2.contains(x) {
                let j = choose|j: int| 0 <= j < t2.len() && t2[j] == x;
                assert(s2[j + 1] == x);
                assert(s2.contains(x));
                let i = choose|i: int| 0 <= i < s1.len() && s1[i] == x;
                assert(b < x);
                assert(i != 0);
                assert(t1[i - 1] == x);
                assert(t1.contains(x));
            }
        }
        lemma_strictly_ascending_unique(t1, t2);
        assert forall|i: int| 0 <= i < s1.len() implies s1[i] == s2[i] by {
            if i > 0 {
                assert(t1[i - 1] == s1[i]);
                assert(t2[i - 1] == s2[i]);
            }
        }
        assert(s1 =~= s2);
    }
}

/// Law: the sieve's output is a function of the limit alone.  Any two
/// sequences that satisfy `sieve_output_matches` for the same limit are
/// equal; hence two calls of `generate_primes` with the same limit return
/// identical sequences.
pub proof fn lemma_generate_primes_deterministic(s1: Seq<usize>, s2: Seq<usize>, limit: int)
    requires
        sieve_output_matches(s1, limit),
        sieve_output_matches(s2, limit),
    ensures
        s1 == s2,
{
    assert forall|x: usize| s1.contains(x) <==> s2.contains(x) by {
        if s1.contains(x) {
            let j = choose|j: int| 0 <= j < s1.len() && s1[j] == x;
            assert(is_prime(s1[j] as int));
            assert(s2.contains((x as int) as usize));
            assert((x as int) as usize == x);
        }
        if s2.contains(x) {
            let j = choose|j: int| 0 <= j < s2.len() && s2[j] == x;
            assert(is_prime(s2[j] as int));
            assert(s1.contains((x as int) as usize));
            assert((x as int) as usize == x);
        }
    }
    lemma_strictly_ascending_unique(s1, s2);
}

/// Computes the ascending sequence of all primes up to `limit`, inclusive,
/// by the sieve of Eratosthenes; a `limit` below 2 yields an empty sequence.
pub fn generate_primes(limit: usize) -> (primes: Vec<usize>)
    requires
        limit <= usize::MAX / 2,
    ensures
        sieve_output_matches(primes@, limit as int),
        limit < 2 ==> primes@.len() == 0,
{
    let mut sieve: Vec<bool> = Vec::new();
    while sieve.len() < limit + 1
        invariant
            limit <= usize::MAX / 2,
            sieve@.len() <= limit + 1,
            forall|i: int| 0 <= i < sieve@.len() ==> #[trigger] sieve@[i],
        decreases limit + 1 - sieve@.len(),
    {
        sieve.push(true);
    }

    let mut continue_number: Option<usize> = Some(FIRST_PRIME);
    let ghost mut c: int = FIRST_PRIME as int;

    while continue_number.is_some()
        invariant
            limit <= usize::MAX / 2,
            sieve@.len() == limit + 1,
            2 <= c <= limit + 3,
            forall|i: int| 0 <= i < sieve@.len() ==> #[trigger] sieve@[i] == !marked_composite(
                i,
                c,
            ),
            match continue_number {
                Some(p) => p as int == c && (p == FIRST_PRIME || p < limit),
                None => forall|j: int| c <= j < limit ==> !sieve@[j],
            },
        decreases limit + 3 - c,
    {
        let p = continue_number.expect("invalid state");
        run_sieve_iteration(&mut sieve, p, limit);
        proof {
            assert forall|i: int| 0 <= i < sieve@.len() implies #[trigger] sieve@[i]
                == !marked_composite(i, c + 1) by {
                lemma_marked_step(i, c);
            }
            c = c + 1;
        }
        continue_number = find_smallest_not_marked_number(&sieve, p + 1, limit);
        proof {
            match continue_number {
                Some(next) => {
                    assert forall|d: int| c <= d < next as int implies #[trigger] marked_composite(
                        d,
                        c,
                    ) by {
                        assert(!sieve@[d]);
                    }
                    assert forall|i: int| 0 <= i < sieve@.len() implies #[trigger] sieve@[i]
                        == !marked_composite(i, next as int) by {
                        lemma_marked_window(i, c, next as int);
                    }
                    c = next as int;
                },
                None => {},
            }
        }
    }

    let primes = resolve_numbers(&sieve);
    proof {
        assert forall|i: int| 2 <= i < sieve@.len() implies #[trigger] sieve@[i] == is_prime(i) by {
            if c <= limit {
                assert forall|d: int| c <= d < limit implies #[trigger] marked_composite(d, c) by {
                    assert(!sieve@[d]);
                }
                lemma_marked_window(i, c, limit as int);
                lemma_marked_iff_composite(i, limit as int);
            } else {
                lemma_marked_iff_composite(i, c);
            }
        }
        assert forall|j: int| 0 <= j < primes@.len() implies is_prime(
            #[trigger] primes@[j] as int,
        ) && primes@[j] <= limit by {
            assert(sieve@[primes@[j] as int]);
        }
        assert forall|n: int| 2 <= n <= limit && is_prime(n) implies #[trigger] primes@.contains(
            n as usize,
        ) by {
            assert(sieve@[n] == is_prime(n));
        }
        if limit < 2 && primes@.len() > 0 {
            assert(is_prime(primes@[0] as int));
            assert(false);
        }
    }
    primes
}

/// Returns the smallest index in `[lower_limit, upper_limit)` whose flag is
/// still set, or `None` when every such flag has been cleared.
pub fn find_smallest_not_marked_number(
    sieve: &Vec<bool>,
    lower_limit: usize,
    upper_limit: usize,
) -> (r: Option<usize>)
    requires
        upper_limit <= sieve@.len(),
    ensures
        match r {
            Some(i) => lower_limit <= i < upper_limit && sieve@[i as int] && forall|j: int|
                lower_limit <= j < i ==> !sieve@[j],
            None => forall|j: int| lower_limit <= j < upper_limit ==> !sieve@[j],
        },
{
    let mut i: usize = lower_limit;
    while i < upper_limit
        invariant
            lower_limit <= i,
            upper_limit <= sieve@.len(),
            forall|j: int| lower_limit <= j < i ==> !sieve@[j],
        decreases upper_limit - i,
    {
        if sieve[i] {
            return Some(i);
        }
        i = i + 1;
    }
    None
}

/// Reads the finished table and collects, in ascending order, every index
/// from 2 upward whose flag is still set.
pub fn resolve_numbers(sieve: &Vec<bool>) -> (primes: Vec<usize>)
    ensures
        forall|j: int| 0 <= j < primes@.len() ==> 2 <= #[trigger] primes@[j] && primes@[j]
            < sieve@.len() && sieve@[primes@[j] as int],
        forall|j1: int, j2: int| 0 <= j1 < j2 < primes@.len() ==> primes@[j1] < primes@[j2],
        forall|i: int| 2 <= i < sieve@.len() && #[trigger] sieve@[i] ==> primes@.contains(
            i as usize,
        ),
{
    let mut primes: Vec<usize> = Vec::new();
    let mut i: usize = FIRST_PRIME;
    while i < sieve.len()
        invariant
            2 <= i,
            forall|j: int| 0 <= j < primes@.len() ==> 2 <= #[trigger] primes@[j] && primes@[j]
                < sieve@.len() && sieve@[primes@[j] as int],
            forall|j: int| 0 <= j < primes@.len() ==> #[trigger] primes@[j] < i,
            forall|j1: int, j2: int| 0 <= j1 < j2 < primes@.len() ==> primes@[j1] < primes@[j2],
            forall|m: int| 2 <= m < i && #[trigger] sieve@[m] ==> primes@.contains(m as usize),
        decreases sieve@.len() - i,
    {
        if sieve[i] {
            let ghost pre = primes@;
            primes.push(i);
            proof {
                assert(primes@[primes@.len() - 1] == i);
                assert forall|m: int| 2 <= m < i + 1 && #[trigger] sieve@[m] implies
                    primes@.contains(m as usize) by {
                    if m < i {
                        let j = pre.lemma_contains_to_index(m as usize);
                        assert(primes@[j] == m as usize);
                    } else {
                        assert(primes@[primes@.len() - 1] == m as usize);
                    }
                }
            }
        }
        i = i + 1;
    }
    primes
}

} // verus!
