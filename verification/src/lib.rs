//! Memoized exploration of Collatz-like recurrences on `u64`.
//!
//! A recurrence halves even numbers and sends an odd number `x` to
//! `mult * x + add`, computed modulo 2^64. Every trajectory of such a map
//! eventually enters a cycle; the memoizer records, for every number it has
//! visited, the successor, the distance to the cycle and the smallest member
//! of that cycle.

pub mod recurrence;
pub mod sequences;
pub mod bounds;
pub mod records;
pub mod model;
pub mod memoizer;
pub mod laws;
pub mod console;
pub mod tally;
