//! The clustering as a whole.

use crate::border::{assign_borders, is_border_outcome};
use crate::components::{
    extract_components, is_component_list, lemma_component_list_unique, lists,
};
use crate::density::{core_mask, core_points};
use crate::labels::{labels_of, write_labels, MAX_CLUSTERS};
use crate::neighborhood::{build_graph, check_shape, sampled_graph, well_shaped};
use crate::sampling::{is_sample, sample_neighbors};
use rand::rngs::StdRng;
use vstd::prelude::*;

verus! {

/// Why a clustering run was refused.
#[derive(Debug, Clone, Copy, PartialEq, Eq, Structural)]
pub enum ClusterError {
    /// The sampling size is 0: no point would be compared with any other.
    InvalidSamplingSize,
    /// The samples and the distances do not fit together.
    MalformedInput,
    /// There are more clusters than a label can number.
    TooManyClusters,
}

/// The parameters of a clustering run.
#[allow(non_camel_case_types)]
#[derive(Debug, Clone, Copy)]
pub struct SNG_DBSCAN {
    /// How many points every point is compared with. With at least as many
    /// as there are points, every point is compared with all of them.
    pub sampling_size: usize,
    /// The distance below which two points are neighbours, on the scale of
    /// the distances handed to `fit_predict`.
    pub max_dist: u64,
    /// How many neighbours make a point a core point.
    pub min_points: usize,
}

/// `labels` is a clustering of the points behind `samples` and `dists`:
/// the labels written for some assignment of the border points to the
/// density-connected components of the graph that was sampled.
pub open spec fn is_clustering(
    samples: Seq<Seq<usize>>,
    dists: Seq<Seq<u64>>,
    max_dist: u64,
    min_points: nat,
    labels: Seq<int>,
) -> bool {
    let adj = sampled_graph(samples, dists, max_dist);
    exists|cores: Seq<Seq<usize>>, clusters: Seq<Seq<usize>>|
        {
            &&& is_component_list(adj, core_mask(adj, min_points), cores)
            &&& #[trigger] is_border_outcome(adj, cores, clusters)
            &&& clusters.len() <= MAX_CLUSTERS
            &&& labels == labels_of(clusters, samples.len())
        }
}

/// The sampled graph has more density-connected components than a label
/// can number.
pub open spec fn has_too_many_clusters(
    samples: Seq<Seq<usize>>,
    dists: Seq<Seq<u64>>,
    max_dist: u64,
    min_points: nat,
) -> bool {
    let adj = sampled_graph(samples, dists, max_dist);
    exists|cores: Seq<Seq<usize>>|
        #[trigger] is_component_list(adj, core_mask(adj, min_points), cores) && cores.len()
            > MAX_CLUSTERS
}

impl SNG_DBSCAN {
    /// The parameters as given. Whether they can be run with is decided when
    /// they are used.
    pub fn new(sampling_size: usize, max_dist: u64, min_points: usize) -> (model: Self)
        ensures
            model.sampling_size == sampling_size,
            model.max_dist == max_dist,
            model.min_points == min_points,
    {
        SNG_DBSCAN { sampling_size, max_dist, min_points }
    }

    /// Draws the samples for `n` points: for each a draw without replacement
    /// of `sampling_size` of the indices `0..n`. A sampling size of 0 is
    /// refused.
    pub fn draw_samples(&self, n: usize, rng: &mut StdRng) -> (drawn: Result<
        Vec<Vec<usize>>,
        ClusterError,
    >)
        ensures
            self.sampling_size == 0 <==> drawn is Err,
            drawn matches Err(e) ==> e == ClusterError::InvalidSamplingSize,
            drawn matches Ok(samples) ==> {
                &&& samples@.len() == n
                &&& forall|i: int|
                    0 <= i < n ==> is_sample(
                        (#[trigger] samples@[i])@,
                        n as nat,
                        self.sampling_size as nat,
                    )
            },
    {
        if self.sampling_size == 0 {
            return Err(ClusterError::InvalidSamplingSize);
        }
        Ok(sample_neighbors(n, self.sampling_size, rng))
    }

    /// Clusters the points behind the samples: `samples[i]` holds the points
    /// that point `i` was compared with, `dists[i]` the distances measured
    /// to them, in the same order.
    ///
    /// The run builds the neighbourhood graph, marks the core points,
    /// extracts their density-connected components, assigns the border
    /// points, drawing from `rng` where a point touches several clusters,
    /// and writes one label per point: the number of its cluster, or -1 for
    /// noise. It is refused, in this order, for a sampling size of 0, for
    /// samples and distances that do not fit together, and for more clusters
    /// than a label can number.
    pub fn fit_predict(&self, samples: &Vec<Vec<usize>>, dists: &Vec<Vec<u64>>, rng: &mut StdRng) -> (
        fitted: Result<Vec<i32>, ClusterError>
    )
        ensures
            match fitted {
                Ok(labels) => {
                    &&& self.sampling_size > 0
                    &&& well_shaped(lists(samples@), lists(dists@))
                    &&& !has_too_many_clusters(
                        lists(samples@),
                        lists(dists@),
                        self.max_dist,
                        self.min_points as nat,
                    )
                    &&& labels@.len() == samples@.len()
                    &&& forall|v: int|
                        0 <= v < labels@.len() ==> -1 <= #[trigger] labels@[v] < samples@.len()
                    &&& is_clustering(
                        lists(samples@),
                        lists(dists@),
                        self.max_dist,
                        self.min_points as nat,
                        labels@.map_values(|l: i32| l as int),
                    )
                },
                Err(ClusterError::InvalidSamplingSize) => self.sampling_size == 0,
                Err(ClusterError::MalformedInput) => {
                    &&& self.sampling_size > 0
                    &&& !well_shaped(lists(samples@), lists(dists@))
                },
                Err(ClusterError::TooManyClusters) => {
                    &&& self.sampling_size > 0
                    &&& well_shaped(lists(samples@), lists(dists@))
                    &&& has_too_many_clusters(
                        lists(samples@),
                        lists(dists@),
                        self.max_dist,
                        self.min_points as nat,
                    )
                },
            },
    {
        if self.sampling_size == 0 {
            return Err(ClusterError::InvalidSamplingSize);
        }
        if !check_shape(samples, dists) {
            return Err(ClusterError::MalformedInput);
        }
        let graph = build_graph(samples, dists, self.max_dist);
        let core = core_points(&graph, self.min_points);
        let mut components = extract_components(&graph, &core);
        let ghost cores = lists(components@);
        if components.len() > MAX_CLUSTERS {
            return Err(ClusterError::TooManyClusters);
        }
        assign_borders(&graph, &mut components, rng);
        let labels = write_labels(&components, samples.len());
        proof {
            assert forall|others: Seq<Seq<usize>>| #[trigger]
                is_component_list(graph@, core@, others) implies others.len() <= MAX_CLUSTERS by {
                lemma_component_list_unique(graph@, core@, cores, others);
            }
        }
        Ok(labels)
    }
}

} // verus!
