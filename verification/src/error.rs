//! Errors of queries and scans.

use vstd::prelude::*;

verus! {

/// Maximum allowed regex pattern length in bytes.
pub const MAX_PATTERN_LEN: usize = 4096;

/// Why a pattern yields no plan, since the analysis of a valid pattern never
/// fails.
#[derive(Debug, Clone, PartialEq, Eq)]
#[non_exhaustive]
pub enum QueryError {
    /// The pattern is longer than the planner accepts.
    PatternTooLong {
        /// The pattern length.
        len: usize,
        /// The longest pattern the planner accepts.
        max: usize,
    },
    /// The regex parser rejected the pattern.
    InvalidRegex(String),
}

/// Errors from [`crate::extract::try_scan`].
#[derive(Debug, Clone, PartialEq, Eq)]
#[non_exhaustive]
pub enum ScanError {
    /// Content exceeds the 4 GiB whole-slice scan limit.
    TooLarge {
        /// Content length in bytes.
        len: usize,
    },
}

} // verus!
