//! Verified library for a small collection of classic exercises: a
//! sieve-of-Eratosthenes prime generator, plain and memoized Fibonacci
//! numbers, and a few generic functions and traits over simple data.

pub mod fibonacci;
pub mod generics;
pub mod sieve;
pub mod summaries;
