//! The cost analysis of graphs that are compiled eagerly.

use crate::graph::ArenaGraph;
use std::sync::Arc;
use vstd::prelude::*;

verus! {

/// The cost of reading memory, in cycles.
pub const MEMORY_LATENCY: u32 = 50;

/// The cost of arithmetic, in cycles.
pub const ARITHMETIC_CYCLES: u32 = 10;

/// The cost above which a graph is worth another layout.
pub const COST_LIMIT: u32 = 40;

/// Weighs the cost of a graph. No other layout is known yet, so the graph is
/// kept whatever the cost.
pub fn analyze_and_optimize(graph: Arc<ArenaGraph>) -> (r: Arc<ArenaGraph>)
    ensures
        r == graph,
{
    let cost: u32 = MEMORY_LATENCY + ARITHMETIC_CYCLES;
    if cost > COST_LIMIT {
        graph
    } else {
        graph
    }
}

} // verus!
