//! The undirected neighbourhood graph: one adjacency set per point.

use std::collections::HashSet;
use vstd::prelude::*;
use vstd::std_specs::iter::IteratorSpec;

verus! {

broadcast use vstd::std_specs::hash::group_hash_axioms;

/// `b` is recorded as a neighbour of `a`, and both are nodes of the graph.
pub open spec fn adjacent(adj: Seq<Set<usize>>, a: int, b: int) -> bool {
    &&& 0 <= a < adj.len()
    &&& 0 <= b < adj.len()
    &&& adj[a].contains(b as usize)
}

/// Every recorded neighbour is a node, and records the edge in turn.
pub open spec fn symmetric(adj: Seq<Set<usize>>) -> bool {
    forall|a: int, b: usize|
        0 <= a < adj.len() && #[trigger] adj[a].contains(b) ==> b < adj.len() && adj[b as int].contains(
            a as usize,
        )
}

/// The adjacency sets after the undirected edge between `a` and `b` is added.
pub open spec fn with_edge(adj: Seq<Set<usize>>, a: int, b: int) -> Seq<Set<usize>> {
    let first = adj.update(a, adj[a].insert(b as usize));
    first.update(b, first[b].insert(a as usize))
}

/// Adding an edge between two nodes keeps a graph symmetric, puts each end
/// into the other's adjacency set, and removes nothing.
pub proof fn lemma_with_edge(adj: Seq<Set<usize>>, a: int, b: int)
    requires
        0 <= a < adj.len(),
        0 <= b < adj.len(),
        adj.len() <= usize::MAX,
    ensures
        with_edge(adj, a, b).len() == adj.len(),
        adjacent(with_edge(adj, a, b), a, b),
        adjacent(with_edge(adj, a, b), b, a),
        forall|x: int, y: int| adjacent(adj, x, y) ==> adjacent(with_edge(adj, a, b), x, y),
        forall|x: int, y: int| #[trigger]
            adjacent(with_edge(adj, a, b), x, y) ==> adjacent(adj, x, y) || (x == a && y == b) || (x
                == b && y == a),
        symmetric(adj) ==> symmetric(with_edge(adj, a, b)),
{
}

/// An undirected graph over the nodes `0..n`, held as one hash set of
/// neighbours per node.
pub struct Graph {
    edges: Vec<HashSet<usize>>,
}

impl Graph {
    /// The adjacency sets, one per node.
    pub closed spec fn view(&self) -> Seq<Set<usize>> {
        Seq::new(self.edges@.len(), |i: int| self.edges@[i]@)
    }

    /// What every graph built by this module satisfies: it is symmetric, and
    /// its nodes can be counted by a machine word.
    pub open spec fn wf(&self) -> bool {
        &&& symmetric(self@)
        &&& self@.len() <= usize::MAX
    }

    /// A graph of `n` nodes without edges.
    pub fn new(n: usize) -> (g: Graph)
        ensures
            g@.len() == n,
            forall|i: int| 0 <= i < n ==> g@[i] == Set::<usize>::empty(),
            g.wf(),
    {
        let mut edges: Vec<HashSet<usize>> = Vec::new();
        let mut i: usize = 0;
        while i < n
            invariant
                i <= n,
                edges@.len() == i,
                forall|j: int| 0 <= j < i ==> edges@[j]@ == Set::<usize>::empty(),
            decreases n - i,
        {
            edges.push(HashSet::new());
            i = i + 1;
        }
        Graph { edges }
    }

    /// Records the undirected edge between `index_1` and `index_2`: each node
    /// enters the other's adjacency set. An edge that is already there, and a
    /// loop from a node to itself, are accepted.
    pub fn add_edge(&mut self, index_1: usize, index_2: usize)
        requires
            index_1 < old(self)@.len(),
            index_2 < old(self)@.len(),
        ensures
            final(self)@ == with_edge(old(self)@, index_1 as int, index_2 as int),
            final(self)@[index_1 as int].contains(index_2),
            final(self)@[index_2 as int].contains(index_1),
            old(self).wf() ==> final(self).wf(),
    {
        self.edges[index_1].insert(index_2);
        self.edges[index_2].insert(index_1);
        proof {
            assert(old(self).edges.len() <= usize::MAX);
            lemma_with_edge(old(self)@, index_1 as int, index_2 as int);
        }
    }

    /// The number of nodes.
    pub fn num_nodes(&self) -> (n: usize)
        ensures
            n == self@.len(),
    {
        self.edges.len()
    }

    /// The number of distinct neighbours of `node`.
    pub fn degree(&self, node: usize) -> (d: usize)
        requires
            node < self@.len(),
        ensures
            d == self@[node as int].len(),
    {
        self.edges[node].len()
    }

    /// Whether `b` is recorded as a neighbour of `a`.
    pub fn has_edge(&self, a: usize, b: usize) -> (found: bool)
        ensures
            found == adjacent(self@, a as int, b as int),
    {
        if a < self.edges.len() && b < self.edges.len() {
            self.edges[a].contains(&b)
        } else {
            false
        }
    }

    /// The neighbours of `node`, each once, in no particular order.
    pub fn neighbors(&self, node: usize) -> (list: Vec<usize>)
        requires
            node < self@.len(),
        ensures
            list@.no_duplicates(),
            list@.to_set() == self@[node as int],
    {
        let mut list: Vec<usize> = Vec::new();
        let set = &self.edges[node];
        let ghost keys: Seq<&usize> = set.iter().remaining();
        for x in it: set.iter()
            invariant
                it.seq() == keys,
                list@.len() == it.index(),
                forall|t: int| 0 <= t < list@.len() ==> list@[t] == *keys[t],
        {
            list.push(*x);
        }
        assert(list@ =~= keys.unref());
        list
    }
}

} // verus!
