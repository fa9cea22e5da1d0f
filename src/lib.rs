//! Trial-division prime generators (sequential and range-partitioned parallel),
//! a sieve baseline, and a verifier that diffs a candidate against the baseline.

pub mod primality;
pub mod sequential;
pub mod partition;
pub mod parallel;
pub mod baseline;
pub mod verification;
