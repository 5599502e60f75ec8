use rand::rngs::StdRng;
use rand::SeedableRng;
use sng_dbscan::border::{assign_borders, place_border, touching_components};
use sng_dbscan::graph::Graph;
use sng_dbscan::labels::{owners, write_labels};

fn graph_of(n: usize, edges: &[(usize, usize)]) -> Graph {
    let mut graph = Graph::new(n);
    for &(a, b) in edges {
        graph.add_edge(a, b);
    }
    graph
}

#[test]
fn owners_name_the_component_of_every_member() {
    let components = vec![vec![1usize, 4], vec![], vec![0]];
    assert_eq!(owners(&components, 6), vec![Some(2), Some(0), None, None, Some(0), None]);
    assert_eq!(owners(&Vec::new(), 2), vec![None, None]);
    assert_eq!(owners(&components, 5).len(), 5);
}

#[test]
fn later_component_owns_a_shared_node() {
    let components = vec![vec![1usize, 2], vec![2, 3]];
    assert_eq!(owners(&components, 4), vec![None, Some(0), Some(1), Some(1)]);
    assert_eq!(write_labels(&components, 4), vec![-1, 0, 1, 1]);
}

#[test]
fn labels_are_positions_or_minus_one() {
    let components = vec![vec![3usize], vec![0, 5], vec![1]];
    assert_eq!(write_labels(&components, 7), vec![1, 2, -1, 0, -1, 1, -1]);
}

#[test]
fn labels_cover_every_node() {
    let components = vec![vec![0usize, 2], vec![4]];
    for n in 5..9 {
        let labels = write_labels(&components, n);
        assert_eq!(labels.len(), n);
        for &label in &labels {
            assert!(label == -1 || (0 <= label && (label as usize) < components.len()));
        }
    }
    assert_eq!(write_labels(&Vec::new(), 3), vec![-1, -1, -1]);
    assert_eq!(write_labels(&Vec::new(), 0), Vec::<i32>::new());
}

#[test]
fn touching_components_lists_the_owners_of_neighbours() {
    let graph = graph_of(6, &[(5, 0), (5, 1), (5, 2), (5, 3), (5, 4)]);
    let owner = vec![Some(1), Some(1), None, Some(0), Some(1), None];
    for _ in 0..20 {
        let graph = graph_of(6, &[(5, 0), (5, 1), (5, 2), (5, 3), (5, 4)]);
        assert_eq!(touching_components(&graph, &owner, 5), vec![0, 1]);
    }
    let wide = vec![Some(4), Some(2), Some(9), Some(2), Some(0), None];
    assert_eq!(touching_components(&graph, &wide, 5), vec![0, 2, 4, 9]);
    assert_eq!(touching_components(&graph, &owner, 2), Vec::<usize>::new());
    assert_eq!(touching_components(&graph, &owner, 0), Vec::<usize>::new());
    assert_eq!(touching_components(&graph, &vec![None; 6], 5), Vec::<usize>::new());
}

#[test]
fn place_border_joins_the_picked_component() {
    let mut components = vec![vec![0usize], vec![1, 2]];
    let mut owner = vec![Some(0), Some(1), Some(1), None];
    place_border(&mut components, &mut owner, 3, Some(1));
    assert_eq!(components, vec![vec![0], vec![1, 2, 3]]);
    assert_eq!(owner, vec![Some(0), Some(1), Some(1), Some(1)]);
}

#[test]
fn place_border_without_pick_changes_nothing() {
    let mut components = vec![vec![0usize], vec![1, 2]];
    let mut owner = vec![Some(0), Some(1), Some(1), None];
    place_border(&mut components, &mut owner, 3, None);
    assert_eq!(components, vec![vec![0], vec![1, 2]]);
    assert_eq!(owner, vec![Some(0), Some(1), Some(1), None]);
    place_border(&mut components, &mut owner, 3, Some(2));
    assert_eq!(components, vec![vec![0], vec![1, 2]]);
    assert_eq!(owner, vec![Some(0), Some(1), Some(1), None]);
}

#[test]
fn border_node_joins_the_component_it_touches() {
    let graph = graph_of(4, &[(0, 1), (1, 2)]);
    let mut components = vec![vec![1usize]];
    let mut rng = StdRng::seed_from_u64(1);
    let noise = assign_borders(&graph, &mut components, &mut rng);
    assert_eq!(components, vec![vec![1, 0, 2]]);
    assert_eq!(noise, vec![3]);
    assert_eq!(write_labels(&components, 4), vec![0, 0, 0, -1]);
}

#[test]
fn node_without_edges_stays_noise() {
    let graph = graph_of(5, &[(0, 1), (3, 4)]);
    for seed in 0..10 {
        let mut components = vec![vec![0usize, 1]];
        let mut rng = StdRng::seed_from_u64(seed);
        let noise = assign_borders(&graph, &mut components, &mut rng);
        assert_eq!(components, vec![vec![0, 1]]);
        assert_eq!(noise, vec![2, 3, 4]);
        assert_eq!(write_labels(&components, 5), vec![0, 0, -1, -1, -1]);
    }
}

#[test]
fn no_components_everything_is_noise() {
    let graph = graph_of(3, &[(0, 1), (1, 2)]);
    let mut components: Vec<Vec<usize>> = Vec::new();
    let mut rng = StdRng::seed_from_u64(4);
    let noise = assign_borders(&graph, &mut components, &mut rng);
    assert!(components.is_empty());
    assert_eq!(noise, vec![0, 1, 2]);
    assert_eq!(write_labels(&components, 3), vec![-1, -1, -1]);
}

#[test]
fn node_between_two_components_joins_exactly_one() {
    let graph = graph_of(3, &[(0, 2), (1, 2)]);
    let mut joined_first = 0;
    let mut joined_second = 0;
    for seed in 0..200 {
        let mut components = vec![vec![0usize], vec![1]];
        let mut rng = StdRng::seed_from_u64(seed);
        let noise = assign_borders(&graph, &mut components, &mut rng);
        assert!(noise.is_empty());
        if components == vec![vec![0, 2], vec![1]] {
            joined_first += 1;
        } else {
            assert_eq!(components, vec![vec![0], vec![1, 2]]);
            joined_second += 1;
        }
    }
    assert!(joined_first > 50);
    assert!(joined_second > 50);
}

#[test]
fn node_only_joins_a_component_it_touches() {
    let graph = graph_of(5, &[(0, 4), (1, 4), (3, 3)]);
    for seed in 0..100 {
        let mut components = vec![vec![0usize], vec![1], vec![2]];
        let mut rng = StdRng::seed_from_u64(seed);
        assign_borders(&graph, &mut components, &mut rng);
        assert_eq!(components[2], vec![2]);
        assert_eq!(components[0].len() + components[1].len(), 3);
        let labels = write_labels(&components, 5);
        assert!(labels[4] == 0 || labels[4] == 1);
        assert_eq!(labels[3], -1);
    }
}

#[test]
fn same_seed_gives_same_assignment() {
    let graph = graph_of(6, &[(0, 2), (1, 2), (0, 3), (1, 3), (0, 4), (1, 4), (0, 5), (1, 5)]);
    let mut first = vec![vec![0usize], vec![1]];
    let mut second = vec![vec![0usize], vec![1]];
    assign_borders(&graph, &mut first, &mut StdRng::seed_from_u64(42));
    assign_borders(&graph, &mut second, &mut StdRng::seed_from_u64(42));
    assert_eq!(first, second);
    assert_eq!(first[0].len() + first[1].len(), 6);
}

#[test]
fn joined_node_counts_for_the_nodes_after_it() {
    let graph = graph_of(4, &[(0, 1), (1, 2), (2, 3)]);
    let mut components = vec![vec![0usize]];
    let mut rng = StdRng::seed_from_u64(8);
    assign_borders(&graph, &mut components, &mut rng);
    assert_eq!(components, vec![vec![0, 1, 2, 3]]);
}

#[test]
fn node_before_its_only_clustered_neighbour_joined_stays_noise() {
    let graph = graph_of(3, &[(0, 1), (1, 2)]);
    let mut components = vec![vec![2usize]];
    let mut rng = StdRng::seed_from_u64(8);
    let noise = assign_borders(&graph, &mut components, &mut rng);
    assert_eq!(components, vec![vec![2, 1]]);
    assert_eq!(noise, vec![0]);
    assert_eq!(write_labels(&components, 3), vec![-1, 0, 0]);
}

#[test]
fn members_keep_their_component() {
    let graph = graph_of(4, &[(0, 1), (2, 3), (1, 2)]);
    let mut components = vec![vec![0usize, 1], vec![2, 3]];
    let mut rng = StdRng::seed_from_u64(0);
    assign_borders(&graph, &mut components, &mut rng);
    assert_eq!(components, vec![vec![0, 1], vec![2, 3]]);
}
