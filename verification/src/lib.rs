//! Approximate density-based clustering over a subsampled neighbourhood graph.
//!
//! Every point draws a small random sample of the points and is compared
//! with those only; the pairs that were sampled and lie closer than a
//! threshold become the edges of an undirected graph. Points with enough
//! neighbours are core points, the groups of core points joined by walks
//! over core points are the clusters, and each remaining point that touches
//! a cluster joins one of the clusters it touches. Points that touch none
//! are noise.
//!
//! Distances are handed to the library as unsigned integers on any scale
//! that keeps their order, so the library itself never computes with reals.
//! The random draws are made from a generator that the caller passes in.

pub mod border;
pub mod components;
pub mod connectivity;
pub mod dbscan;
pub mod density;
pub mod graph;
pub mod labels;
pub mod laws;
pub mod neighborhood;
pub mod random;
pub mod sampling;

pub use border::{assign_borders, place_border, touching_components};
pub use components::extract_components;
pub use dbscan::{ClusterError, SNG_DBSCAN};
pub use density::core_points;
pub use graph::Graph;
pub use labels::{owners, write_labels, MAX_CLUSTERS};
pub use neighborhood::{build_graph, check_shape};
pub use sampling::{draw_sample, index_range, sample_neighbors};
