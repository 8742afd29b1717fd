//! Batch Elo ratings over fixed-point arithmetic.
//!
//! Competitors are rated by iterating simultaneous Elo adjustments over a
//! fixed list of games until the adjustments become negligible, or a round
//! limit is exhausted. All quantities (ratings, points, adjustments) are
//! fixed-point numbers: signed integers counting millionths of a unit.

pub mod fixed;
pub mod elo;
pub mod driver;
pub mod laws;
