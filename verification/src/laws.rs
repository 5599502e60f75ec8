//! What holds of the clustering as a whole, proved from the definitions
//! that the contracts of the stages are stated in.

use crate::border::is_border_outcome;
use crate::components::{
    clustered, holds, is_component_list, lemma_component_class, lemma_component_covers,
    lemma_component_member, lemma_component_of_node,
};
use crate::connectivity::density_connected;
use crate::dbscan::is_clustering;
use crate::density::core_mask;
use crate::graph::{adjacent, symmetric};
use crate::labels::{
    label_of, labels_of, lemma_label_of, lemma_label_of_member, MAX_CLUSTERS,
};
use crate::neighborhood::sampled_graph;
use vstd::prelude::*;

verus! {

/// The sampled graph is symmetric: whenever `j` is a neighbour of `i`, `i`
/// is a neighbour of `j`, and both are points.
pub proof fn lemma_sampled_graph_symmetric(
    samples: Seq<Seq<usize>>,
    dists: Seq<Seq<u64>>,
    max_dist: u64,
)
    requires
        samples.len() <= usize::MAX,
    ensures
        symmetric(sampled_graph(samples, dists, max_dist)),
        forall|i: int, j: int|
            adjacent(sampled_graph(samples, dists, max_dist), i, j) <==> adjacent(
                sampled_graph(samples, dists, max_dist),
                j,
                i,
            ),
{
}

/// The threshold is strict. Two points none of whose mutual samples
/// measured a distance below `max_dist` are not neighbours, however many
/// measured exactly `max_dist`; one sample of another point that measured
/// less makes the two neighbours.
pub proof fn lemma_strict_threshold(
    samples: Seq<Seq<usize>>,
    dists: Seq<Seq<u64>>,
    max_dist: u64,
    i: int,
    j: int,
)
    requires
        samples.len() <= usize::MAX,
        0 <= i < samples.len(),
        0 <= j < samples.len(),
    ensures
        (forall|t: int| 0 <= t < samples[i].len() && samples[i][t] == j ==> dists[i][t] >= max_dist)
            && (forall|t: int|
            0 <= t < samples[j].len() && samples[j][t] == i ==> dists[j][t] >= max_dist)
            ==> !adjacent(sampled_graph(samples, dists, max_dist), i, j),
        i != j && (exists|t: int|
            0 <= t < samples[i].len() && samples[i][t] == j && dists[i][t] < max_dist) ==> adjacent(
            sampled_graph(samples, dists, max_dist),
            i,
            j,
        ) && adjacent(sampled_graph(samples, dists, max_dist), j, i),
{
}

/// There is a label for every point, and each is -1 or the position of a
/// cluster.
pub proof fn lemma_labels_total(clusters: Seq<Seq<usize>>, n: nat)
    ensures
        labels_of(clusters, n).len() == n,
        forall|v: int|
            0 <= v < n ==> {
                let label = #[trigger] labels_of(clusters, n)[v];
                label == -1 || 0 <= label < clusters.len()
            },
{
    assert forall|v: int| 0 <= v < n implies {
        let label = #[trigger] labels_of(clusters, n)[v];
        label == -1 || 0 <= label < clusters.len()
    } by {
        lemma_label_of(clusters, v);
    }
}

/// A node without edges is noise. Where a core node needs at least one
/// neighbour, a node that has none is in no component, joins none as a
/// border node, and gets the label -1.
pub proof fn lemma_isolated_is_noise(
    adj: Seq<Set<usize>>,
    min_points: nat,
    cores: Seq<Seq<usize>>,
    clusters: Seq<Seq<usize>>,
    v: int,
)
    requires
        min_points >= 1,
        0 <= v < adj.len(),
        forall|u: usize| !adj[v].contains(u),
        is_component_list(adj, core_mask(adj, min_points), cores),
        is_border_outcome(adj, cores, clusters),
    ensures
        !clustered(cores, v),
        !clustered(clusters, v),
        label_of(clusters, v) == -1,
{
    assert(adj[v] =~= Set::<usize>::empty());
    if clustered(cores, v) {
        let k = choose|k: int| holds(cores, k, v);
        lemma_component_member(adj, core_mask(adj, min_points), cores, k, v);
    }
    if clustered(clusters, v) {
        let k = choose|k: int| holds(clusters, k, v);
        let t = choose|t: int| 0 <= t < clusters[k].len() && clusters[k][t] == v as usize;
        if t < cores[k].len() {
            assert(clusters[k].subrange(0, cores[k].len() as int)[t] == clusters[k][t]);
            assert(holds(cores, k, v));
        }
    }
    lemma_label_of(clusters, v);
}

/// A point far from all others is noise, whatever was sampled. Where a
/// core point needs at least one neighbour, a point none of whose distances
/// to or from another point was measured below `max_dist` gets the label -1
/// in every clustering.
pub proof fn lemma_far_point_is_noise(
    samples: Seq<Seq<usize>>,
    dists: Seq<Seq<u64>>,
    max_dist: u64,
    min_points: nat,
    labels: Seq<int>,
    v: int,
)
    requires
        min_points >= 1,
        0 <= v < samples.len(),
        forall|t: int|
            0 <= t < samples[v].len() && samples[v][t] != v ==> #[trigger] dists[v][t] >= max_dist,
        forall|i: int, t: int|
            0 <= i < samples.len() && i != v && 0 <= t < samples[i].len() && samples[i][t] == v
                ==> #[trigger] dists[i][t] >= max_dist,
        is_clustering(samples, dists, max_dist, min_points, labels),
    ensures
        labels[v] == -1,
{
    let adj = sampled_graph(samples, dists, max_dist);
    let (cores, clusters) = choose|cores: Seq<Seq<usize>>, clusters: Seq<Seq<usize>>|
        {
            &&& is_component_list(adj, core_mask(adj, min_points), cores)
            &&& #[trigger] is_border_outcome(adj, cores, clusters)
            &&& clusters.len() <= MAX_CLUSTERS
            &&& labels == labels_of(clusters, samples.len())
        };
    lemma_isolated_is_noise(adj, min_points, cores, clusters, v);
}

/// Core points are clustered by density-connectivity. After the border
/// points are assigned every core point has a label that is not -1, and two
/// core points have the same label exactly if they are density-connected.
pub proof fn lemma_core_points_cluster(
    adj: Seq<Set<usize>>,
    core: Seq<bool>,
    cores: Seq<Seq<usize>>,
    clusters: Seq<Seq<usize>>,
    a: int,
    b: int,
)
    requires
        is_component_list(adj, core, cores),
        is_border_outcome(adj, cores, clusters),
        0 <= a < core.len() && core[a],
        0 <= b < core.len() && core[b],
    ensures
        0 <= label_of(clusters, a) < clusters.len(),
        label_of(clusters, a) == label_of(clusters, b) <==> density_connected(adj, core, a, b),
{
    lemma_component_covers(adj, core, cores, a);
    lemma_component_covers(adj, core, cores, b);
    let ka = choose|k: int| holds(cores, k, a);
    let kb = choose|k: int| holds(cores, k, b);
    lemma_label_of_member(clusters, ka, a);
    lemma_label_of_member(clusters, kb, b);
    lemma_component_class(adj, core, cores, ka, a, b);
    if holds(cores, ka, b) {
        lemma_component_of_node(adj, core, cores, ka, kb, b);
    }
}

} // verus!
