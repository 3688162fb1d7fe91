//! Verified k-means clustering over exact rational coordinates, with one
//! sequential baseline strategy and four concurrency-shaped strategies that
//! provably compute the same clustering.

pub mod entities;
pub mod input;
pub mod kmeans;
pub mod rational;

use vstd::prelude::*;

verus! {

} // verus!
