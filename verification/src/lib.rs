//! Evaluation of gap-filling strategies for aligned time series.
//!
//! The crate builds a time table for a station and its topological
//! neighbours, repeatedly withholds a random subset of the target
//! column, reconstructs the withheld values with several strategies,
//! and scores every reconstruction with NaN-aware error metrics.

use vstd::prelude::*;

pub mod errors;
pub mod experiment;
pub mod fancy;
pub mod fill;
pub mod mask;
pub mod metrics;
pub mod rational;
pub mod table;
pub mod text;

verus! {

} // verus!
