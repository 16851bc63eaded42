//! A HyperLogLog cardinality sketch with optional deletion counters.
//!
//! Register state, its cached aggregates and the counter discipline are
//! verified. The running sum of `2^(-register)` is kept exactly, as an
//! integer in units of `2^(-64)`.

pub mod bits;
pub mod config;
pub mod counter;
pub mod laws;
pub mod model;
pub mod sad;
pub mod sketch;
mod sources;

pub use bits::{get_rho, pow2neg_bits, weight_of};
pub use config::{precision_for_error_rate, ConfigError, MAX_PRECISION, MIN_PRECISION};
pub use counter::{
    decrement, increment, is_change_power, merge_for_intersect, merge_for_union, PIVOT,
};
pub use sad::Sad;
pub use sketch::{HyperLogLog, SketchError};
