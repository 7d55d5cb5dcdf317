//! Deterministic grade analytics: descriptive statistics, least-squares trend
//! analysis, smoothing utilities, and an ensemble grade predictor.
//!
//! All quantities are fixed-point integers with four decimal places (see
//! [`fx`]), so every computation is exact, reproducible integer arithmetic.

pub mod fx;
pub mod grades;
pub mod predictions;
pub mod seqs;
pub mod smooth;
pub mod stats;
pub mod summary;
pub mod trend;

use vstd::prelude::*;

verus! {

/// A grade value is valid when it lies in the 1..=10 range (fixed-point).
pub fn validate_grade(value: i64) -> (r: bool)
    ensures
        r == (crate::fx::SCALE as int <= value as int <= 10 * crate::fx::SCALE as int),
{
    crate::fx::SCALE <= value && value <= 10 * crate::fx::SCALE
}

} // verus!
