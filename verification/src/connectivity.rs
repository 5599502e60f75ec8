//! Density-connectivity: reachability through core nodes only.

use crate::graph::{adjacent, symmetric};
use vstd::prelude::*;

verus! {

/// An edge of the graph both of whose ends are core nodes.
pub open spec fn core_edge(adj: Seq<Set<usize>>, core: Seq<bool>, a: int, b: int) -> bool {
    &&& adjacent(adj, a, b)
    &&& a < core.len() && core[a]
    &&& b < core.len() && core[b]
}

/// `b` is reached from `a` by a walk of exactly `steps` core edges. A core
/// node reaches itself in no steps; a node that is not core reaches nothing.
pub open spec fn reaches_in(
    adj: Seq<Set<usize>>,
    core: Seq<bool>,
    a: int,
    b: int,
    steps: nat,
) -> bool
    decreases steps,
{
    if steps == 0 {
        a == b && 0 <= a < adj.len() && a < core.len() && core[a]
    } else {
        exists|m: int| #[trigger]
            core_edge(adj, core, m, b) && reaches_in(adj, core, a, m, (steps - 1) as nat)
    }
}

/// `a` and `b` are core nodes joined by a walk that visits core nodes only.
pub open spec fn density_connected(adj: Seq<Set<usize>>, core: Seq<bool>, a: int, b: int) -> bool {
    exists|steps: nat| reaches_in(adj, core, a, b, steps)
}

/// Both ends of a walk are core nodes of the graph.
pub proof fn lemma_reach_ends(adj: Seq<Set<usize>>, core: Seq<bool>, a: int, b: int, steps: nat)
    requires
        reaches_in(adj, core, a, b, steps),
    ensures
        0 <= a < adj.len() && a < core.len() && core[a],
        0 <= b < adj.len() && b < core.len() && core[b],
    decreases steps,
{
    if steps > 0 {
        let m = choose|m: int| #[trigger]
            core_edge(adj, core, m, b) && reaches_in(adj, core, a, m, (steps - 1) as nat);
        lemma_reach_ends(adj, core, a, m, (steps - 1) as nat);
    }
}

/// A walk can be extended at its start by one core edge.
pub proof fn lemma_reach_prepend(
    adj: Seq<Set<usize>>,
    core: Seq<bool>,
    a: int,
    m: int,
    b: int,
    steps: nat,
)
    requires
        core_edge(adj, core, a, m),
        reaches_in(adj, core, m, b, steps),
    ensures
        reaches_in(adj, core, a, b, steps + 1),
    decreases steps,
{
    if steps == 0 {
        assert(reaches_in(adj, core, a, a, 0));
    } else {
        let m2 = choose|m2: int| #[trigger]
            core_edge(adj, core, m2, b) && reaches_in(adj, core, m, m2, (steps - 1) as nat);
        lemma_reach_prepend(adj, core, a, m, m2, (steps - 1) as nat);
    }
}

/// In a symmetric graph a walk can be walked backwards.
pub proof fn lemma_reach_reverse(adj: Seq<Set<usize>>, core: Seq<bool>, a: int, b: int, steps: nat)
    requires
        symmetric(adj),
        adj.len() <= usize::MAX,
        reaches_in(adj, core, a, b, steps),
    ensures
        reaches_in(adj, core, b, a, steps),
    decreases steps,
{
    if steps > 0 {
        let m = choose|m: int| #[trigger]
            core_edge(adj, core, m, b) && reaches_in(adj, core, a, m, (steps - 1) as nat);
        lemma_reach_reverse(adj, core, a, m, (steps - 1) as nat);
        lemma_reach_prepend(adj, core, b, m, a, (steps - 1) as nat);
    }
}

/// Two walks that meet can be joined.
pub proof fn lemma_reach_join(
    adj: Seq<Set<usize>>,
    core: Seq<bool>,
    a: int,
    b: int,
    c: int,
    first: nat,
    second: nat,
)
    requires
        reaches_in(adj, core, a, b, first),
        reaches_in(adj, core, b, c, second),
    ensures
        reaches_in(adj, core, a, c, first + second),
    decreases second,
{
    if second > 0 {
        let m = choose|m: int| #[trigger]
            core_edge(adj, core, m, c) && reaches_in(adj, core, b, m, (second - 1) as nat);
        lemma_reach_join(adj, core, a, b, m, first, (second - 1) as nat);
    }
}

/// Every core node is density-connected to itself.
pub proof fn lemma_connected_reflexive(adj: Seq<Set<usize>>, core: Seq<bool>, a: int)
    requires
        0 <= a < adj.len(),
        a < core.len(),
        core[a],
    ensures
        density_connected(adj, core, a, a),
{
    assert(reaches_in(adj, core, a, a, 0));
}

/// In a symmetric graph density-connectivity is symmetric.
pub proof fn lemma_connected_symmetric(adj: Seq<Set<usize>>, core: Seq<bool>, a: int, b: int)
    requires
        symmetric(adj),
        adj.len() <= usize::MAX,
        density_connected(adj, core, a, b),
    ensures
        density_connected(adj, core, b, a),
{
    let steps = choose|steps: nat| reaches_in(adj, core, a, b, steps);
    lemma_reach_reverse(adj, core, a, b, steps);
}

/// Density-connectivity is transitive.
pub proof fn lemma_connected_transitive(
    adj: Seq<Set<usize>>,
    core: Seq<bool>,
    a: int,
    b: int,
    c: int,
)
    requires
        density_connected(adj, core, a, b),
        density_connected(adj, core, b, c),
    ensures
        density_connected(adj, core, a, c),
{
    let first = choose|steps: nat| reaches_in(adj, core, a, b, steps);
    let second = choose|steps: nat| reaches_in(adj, core, b, c, steps);
    lemma_reach_join(adj, core, a, b, c, first, second);
}

/// One more core edge keeps a node density-connected.
pub proof fn lemma_connected_extend(adj: Seq<Set<usize>>, core: Seq<bool>, a: int, m: int, b: int)
    requires
        density_connected(adj, core, a, m),
        core_edge(adj, core, m, b),
    ensures
        density_connected(adj, core, a, b),
{
    let steps = choose|steps: nat| reaches_in(adj, core, a, m, steps);
    assert(reaches_in(adj, core, a, b, steps + 1));
}

/// Only core nodes of the graph are density-connected to anything.
pub proof fn lemma_connected_ends(adj: Seq<Set<usize>>, core: Seq<bool>, a: int, b: int)
    requires
        density_connected(adj, core, a, b),
    ensures
        0 <= a < adj.len() && a < core.len() && core[a],
        0 <= b < adj.len() && b < core.len() && core[b],
{
    let steps = choose|steps: nat| reaches_in(adj, core, a, b, steps);
    lemma_reach_ends(adj, core, a, b, steps);
}

} // verus!
