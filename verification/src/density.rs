//! Selection of the core nodes: those with enough neighbours.

use crate::graph::Graph;
use vstd::prelude::*;

verus! {

/// For every node, whether it is a core node: whether it has at least
/// `min_points` neighbours. A node with exactly `min_points` neighbours is
/// a core node.
pub open spec fn core_mask(adj: Seq<Set<usize>>, min_points: nat) -> Seq<bool> {
    Seq::new(adj.len(), |i: int| adj[i].len() >= min_points)
}

/// Marks the core nodes of the graph. The degree is that of the graph as
/// it was sampled, not the number of points truly within the threshold.
pub fn core_points(graph: &Graph, min_points: usize) -> (core: Vec<bool>)
    ensures
        core@ == core_mask(graph@, min_points as nat),
        core@.len() == graph@.len(),
        forall|i: int|
            0 <= i < graph@.len() ==> (#[trigger] core@[i] <==> graph@[i].len() >= min_points),
{
    let n = graph.num_nodes();
    let mut core: Vec<bool> = Vec::new();
    let mut i: usize = 0;
    while i < n
        invariant
            n == graph@.len(),
            i <= n,
            core@.len() == i,
            forall|j: int| 0 <= j < i ==> (#[trigger] core@[j] <==> graph@[j].len() >= min_points),
        decreases n - i,
    {
        core.push(graph.degree(i) >= min_points);
        i = i + 1;
    }
    core
}

} // verus!
