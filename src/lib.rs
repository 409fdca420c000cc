//! Post-processing of the outputs of a multi-scale, anchor-based face
//! detector: anchor-center grids, selection of candidates by score across
//! strides, ranking by score and greedy non-maximum suppression.
//!
//! Scores enter the library as order keys (`ranking::score_key` of their bit
//! patterns), so that every decision made on them is exact integer logic.
use vstd::prelude::*;

pub mod anchors;
pub mod fusion;
pub mod nms;
pub mod ranking;

verus! {

} // verus!
