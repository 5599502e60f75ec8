//! Construction of the approximate neighbourhood graph from the samples and
//! the distances measured to them.

use crate::components::lists;
use crate::graph::{adjacent, symmetric, Graph};
use vstd::prelude::*;

verus! {

/// Every point has as many distances as samples, and every sample is the
/// index of a point.
pub open spec fn well_shaped(samples: Seq<Seq<usize>>, dists: Seq<Seq<u64>>) -> bool {
    &&& dists.len() == samples.len()
    &&& forall|i: int| 0 <= i < samples.len() ==> (#[trigger] dists[i]).len() == samples[i].len()
    &&& forall|i: int, t: int|
        0 <= i < samples.len() && 0 <= t < samples[i].len() ==> (#[trigger] samples[i][t])
            < samples.len()
}

/// Point `i` sampled point `j` and measured a distance below `max_dist`.
/// A distance equal to `max_dist` does not count.
pub open spec fn sampled_near(
    samples: Seq<Seq<usize>>,
    dists: Seq<Seq<u64>>,
    max_dist: u64,
    i: int,
    j: int,
) -> bool {
    exists|t: int|
        0 <= t < samples[i].len() && (#[trigger] samples[i][t]) == j && dists[i][t] < max_dist
}

/// Two different points are linked if either sampled the other within
/// `max_dist`.
pub open spec fn linked(
    samples: Seq<Seq<usize>>,
    dists: Seq<Seq<u64>>,
    max_dist: u64,
    i: int,
    j: int,
) -> bool {
    &&& 0 <= i < samples.len()
    &&& 0 <= j < samples.len()
    &&& i != j
    &&& (sampled_near(samples, dists, max_dist, i, j) || sampled_near(
        samples,
        dists,
        max_dist,
        j,
        i,
    ))
}

/// The adjacency sets of the neighbourhood graph: the neighbours of a point
/// are the points it is linked with.
pub open spec fn sampled_graph(
    samples: Seq<Seq<usize>>,
    dists: Seq<Seq<u64>>,
    max_dist: u64,
) -> Seq<Set<usize>> {
    Seq::new(
        samples.len(),
        |i: int| Set::new(|j: usize| linked(samples, dists, max_dist, i, j as int)),
    )
}

/// The sample `t` of point `i` has been looked at when the scan stands at
/// sample `col` of point `row`.
spec fn scanned(i: int, t: int, row: int, col: int) -> bool {
    i < row || (i == row && t < col)
}

/// Point `i` sampled point `j` within `max_dist`, among the samples
/// scanned so far.
spec fn near_so_far(
    samples: Seq<Seq<usize>>,
    dists: Seq<Seq<u64>>,
    max_dist: u64,
    i: int,
    j: int,
    row: int,
    col: int,
) -> bool {
    exists|t: int|
        0 <= t < samples[i].len() && (#[trigger] samples[i][t]) == j && dists[i][t] < max_dist
            && scanned(i, t, row, col)
}

/// The edges recorded when the scan stands at sample `col` of point `row`.
spec fn built_so_far(
    adj: Seq<Set<usize>>,
    samples: Seq<Seq<usize>>,
    dists: Seq<Seq<u64>>,
    max_dist: u64,
    row: int,
    col: int,
) -> bool {
    &&& adj.len() == samples.len()
    &&& symmetric(adj)
    &&& forall|a: int, b: int|
        0 <= a < adj.len() && 0 <= b < adj.len() ==> (#[trigger] adjacent(adj, a, b) <==> a != b
            && (near_so_far(samples, dists, max_dist, a, b, row, col) || near_so_far(
            samples,
            dists,
            max_dist,
            b,
            a,
            row,
            col,
        )))
}

/// Whether the samples and the distances fit together: every point has as
/// many distances as samples, and every sample is the index of a point.
pub fn check_shape(samples: &Vec<Vec<usize>>, dists: &Vec<Vec<u64>>) -> (ok: bool)
    ensures
        ok == well_shaped(lists(samples@), lists(dists@)),
{
    let n = samples.len();
    if dists.len() != n {
        return false;
    }
    let mut i: usize = 0;
    while i < n
        invariant
            n == samples@.len(),
            dists@.len() == n,
            i <= n,
            forall|a: int| 0 <= a < i ==> (#[trigger] dists@[a])@.len() == samples@[a]@.len(),
            forall|a: int, t: int|
                0 <= a < i && 0 <= t < samples@[a]@.len() ==> (#[trigger] samples@[a]@[t]) < n,
        decreases n - i,
    {
        let row = &samples[i];
        if dists[i].len() != row.len() {
            proof {
                assert(lists(dists@)[i as int].len() != lists(samples@)[i as int].len());
            }
            return false;
        }
        let mut t: usize = 0;
        while t < row.len()
            invariant
                n == samples@.len(),
                i < n,
                row@ == samples@[i as int]@,
                t <= row@.len(),
                forall|s: int| 0 <= s < t ==> (#[trigger] row@[s]) < n,
            decreases row@.len() - t,
        {
            if row[t] >= n {
                proof {
                    assert(lists(samples@)[i as int][t as int] >= n);
                }
                return false;
            }
            t = t + 1;
        }
        i = i + 1;
    }
    true
}

/// Builds the neighbourhood graph: for every point and every sample of it
/// whose distance lies below `max_dist`, the undirected edge between the
/// two, unless the point sampled itself.
pub fn build_graph(samples: &Vec<Vec<usize>>, dists: &Vec<Vec<u64>>, max_dist: u64) -> (graph: Graph)
    requires
        well_shaped(lists(samples@), lists(dists@)),
    ensures
        graph@ == sampled_graph(lists(samples@), lists(dists@), max_dist),
        graph.wf(),
{
    let n = samples.len();
    let ghost rows = lists(samples@);
    let ghost gaps = lists(dists@);
    let mut graph = Graph::new(n);
    let mut i: usize = 0;
    while i < n
        invariant
            n == samples@.len(),
            rows == lists(samples@),
            gaps == lists(dists@),
            well_shaped(rows, gaps),
            i <= n,
            graph.wf(),
            built_so_far(graph@, rows, gaps, max_dist, i as int, 0),
        decreases n - i,
    {
        let row = &samples[i];
        let gap = &dists[i];
        proof {
            assert(gaps[i as int].len() == rows[i as int].len());
        }
        let mut t: usize = 0;
        while t < row.len()
            invariant
                n == samples@.len(),
                rows == lists(samples@),
                gaps == lists(dists@),
                well_shaped(rows, gaps),
                i < n,
                row@ == rows[i as int],
                gap@ == gaps[i as int],
                gap@.len() == row@.len(),
                t <= row@.len(),
                graph.wf(),
                built_so_far(graph@, rows, gaps, max_dist, i as int, t as int),
            decreases row@.len() - t,
        {
            let j = row[t];
            let ghost before = graph@;
            if gap[t] < max_dist && j != i {
                graph.add_edge(i, j);
            }
            proof {
                lemma_scan_step(before, graph@, rows, gaps, max_dist, i as int, t as int);
            }
            t = t + 1;
        }
        i = i + 1;
    }
    proof {
        assert forall|a: int| 0 <= a < n implies #[trigger] graph@[a] =~= sampled_graph(
            rows,
            gaps,
            max_dist,
        )[a] by {
            assert forall|b: usize| graph@[a].contains(b) <==> linked(
                rows,
                gaps,
                max_dist,
                a,
                b as int,
            ) by {
                if graph@[a].contains(b) {
                    assert(adjacent(graph@, a, b as int));
                }
                if linked(rows, gaps, max_dist, a, b as int) {
                    assert(adjacent(graph@, a, b as int));
                }
            }
        }
    }
    graph
}

/// Scanning one sample records its edge, if it gives one, and nothing else.
proof fn lemma_scan_step(
    before: Seq<Set<usize>>,
    after: Seq<Set<usize>>,
    samples: Seq<Seq<usize>>,
    dists: Seq<Seq<u64>>,
    max_dist: u64,
    row: int,
    col: int,
)
    requires
        built_so_far(before, samples, dists, max_dist, row, col),
        before.len() <= usize::MAX,
        0 <= row < samples.len(),
        0 <= col < samples[row].len(),
        samples[row][col] < samples.len(),
        symmetric(after),
        after.len() == before.len(),
        dists[row][col] < max_dist && samples[row][col] != row ==> forall|x: int, y: int| #[trigger]
            adjacent(after, x, y) <==> adjacent(before, x, y) || (x == row && y == samples[row][col])
                || (x == samples[row][col] && y == row),
        !(dists[row][col] < max_dist && samples[row][col] != row) ==> after == before,
    ensures
        built_so_far(after, samples, dists, max_dist, row, col + 1),
{
}

} // verus!
