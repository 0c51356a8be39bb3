//! Recursive co-sorted partitioning of a row-aligned integer dataset.
//!
//! `cosort` reorders all columns by one permutation that sorts a chosen
//! column; `split` cuts a co-sorted work unit in two halves on a round-robin
//! dimension; `schedule` holds a worker's decision on a unit, the pending
//! counter's termination test, and a driver that resolves a whole dataset
//! into leaves.
use vstd::prelude::*;

pub mod column;
pub mod cosort;
pub mod schedule;
pub mod split;

verus! {

} // verus!
