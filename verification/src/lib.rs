//! Weighted geometric graph embedding in exact fixed-point arithmetic:
//! a force-directed layout engine over interchangeable spatial indices.
//!
//! Positions are 32-bit fixed-point coordinates (`dvec`), weights are
//! fixed-point reals derived from degrees (`graph`), and every index
//! variant answers weighted radius queries against one shared contract
//! (`query`): the brute-force baseline (`embedding`), the recursive
//! axis-split tree (`atree`), and the over-querying cache wrapper
//! (`dynamic_queries`). The iteration engine (`embedder`) accumulates
//! attraction and repulsion forces, applies an Adam optimizer and tests
//! convergence, all with contracts that pin the arithmetic exactly.

use vstd::prelude::*;

pub mod atree;
pub mod bench;
pub mod dvec;
pub mod dynamic_queries;
pub mod embedder;
pub mod embedding;
pub mod graph;
pub mod math;
pub mod parsing;
pub mod query;
pub mod rng;

verus! {

/// Identifier of a vertex: a dense index in `[0, N)`.
pub type NodeId = usize;

} // verus!
