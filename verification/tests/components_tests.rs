use sng_dbscan::components::extract_components;
use sng_dbscan::density::core_points;
use sng_dbscan::graph::Graph;

fn graph_of(n: usize, edges: &[(usize, usize)]) -> Graph {
    let mut graph = Graph::new(n);
    for &(a, b) in edges {
        graph.add_edge(a, b);
    }
    graph
}

#[test]
fn no_core_nodes_no_components() {
    let graph = graph_of(4, &[(0, 1), (2, 3)]);
    let components = extract_components(&graph, &vec![false; 4]);
    assert!(components.is_empty());
}

#[test]
fn empty_graph_no_components() {
    let graph = Graph::new(0);
    assert!(extract_components(&graph, &Vec::new()).is_empty());
}

#[test]
fn lone_core_node_is_its_own_component() {
    let graph = Graph::new(3);
    let components = extract_components(&graph, &vec![false, true, false]);
    assert_eq!(components, vec![vec![1]]);
}

#[test]
fn connected_core_nodes_form_one_component() {
    let graph = graph_of(5, &[(4, 2), (2, 0), (0, 3), (3, 1)]);
    let components = extract_components(&graph, &vec![true; 5]);
    assert_eq!(components, vec![vec![0, 1, 2, 3, 4]]);
}

#[test]
fn components_come_in_order_of_their_smallest_member() {
    let graph = graph_of(7, &[(6, 0), (5, 1), (4, 2), (2, 3)]);
    let components = extract_components(&graph, &vec![true; 7]);
    assert_eq!(components, vec![vec![0, 6], vec![1, 5], vec![2, 3, 4]]);
}

#[test]
fn node_that_is_not_core_is_no_bridge() {
    let graph = graph_of(5, &[(0, 1), (1, 2), (2, 3), (3, 4)]);
    let components = extract_components(&graph, &vec![true, true, false, true, true]);
    assert_eq!(components, vec![vec![0, 1], vec![3, 4]]);
}

#[test]
fn node_that_is_not_core_is_in_no_component() {
    let graph = graph_of(4, &[(0, 1), (1, 2), (2, 3)]);
    let components = extract_components(&graph, &vec![false, true, true, false]);
    assert_eq!(components, vec![vec![1, 2]]);
}

#[test]
fn components_share_no_node() {
    let edges = [(0, 5), (5, 9), (1, 2), (2, 3), (3, 1), (4, 8), (6, 7), (7, 4)];
    let graph = graph_of(11, &edges);
    let core = vec![true, true, true, true, true, true, true, true, true, true, false];
    let components = extract_components(&graph, &core);
    let mut seen = vec![0usize; 11];
    for component in &components {
        for &node in component {
            seen[node] += 1;
        }
    }
    assert_eq!(seen, vec![1, 1, 1, 1, 1, 1, 1, 1, 1, 1, 0]);
    assert_eq!(components, vec![vec![0, 5, 9], vec![1, 2, 3], vec![4, 6, 7, 8]]);
}

#[test]
fn extraction_is_the_same_on_every_run() {
    let edges = [(0, 5), (5, 9), (1, 2), (2, 3), (3, 1), (4, 8), (6, 7), (7, 4), (9, 10)];
    let core = vec![true, true, true, false, true, true, true, true, true, true, true];
    let first = extract_components(&graph_of(11, &edges), &core);
    for _ in 0..20 {
        let graph = graph_of(11, &edges);
        assert_eq!(extract_components(&graph, &core), first);
        assert_eq!(extract_components(&graph, &core), first);
    }
    assert_eq!(first, vec![vec![0, 5, 9, 10], vec![1, 2], vec![4, 6, 7, 8]]);
}

#[test]
fn loops_and_cycles_are_handled() {
    let graph = graph_of(4, &[(0, 0), (0, 1), (1, 2), (2, 0), (3, 3)]);
    let components = extract_components(&graph, &vec![true; 4]);
    assert_eq!(components, vec![vec![0, 1, 2], vec![3]]);
}

#[test]
fn long_chain_is_one_component() {
    let n = 2000;
    let mut graph = Graph::new(n);
    for i in 0..n - 1 {
        graph.add_edge(i + 1, i);
    }
    let components = extract_components(&graph, &vec![true; n]);
    assert_eq!(components.len(), 1);
    assert_eq!(components[0], (0..n).collect::<Vec<usize>>());
}

#[test]
fn components_of_core_points_by_degree() {
    let graph = graph_of(6, &[(0, 1), (1, 2), (3, 4), (4, 5)]);
    let core = core_points(&graph, 2);
    assert_eq!(core, vec![false, true, false, false, true, false]);
    assert_eq!(extract_components(&graph, &core), vec![vec![1], vec![4]]);
}

#[test]
fn extraction_agrees_with_a_plain_search() {
    let mut state: u64 = 0x9e37_79b9_7f4a_7c15;
    let mut next = |bound: usize| {
        state = state.wrapping_mul(6364136223846793005).wrapping_add(1442695040888963407);
        ((state >> 33) as usize) % bound
    };
    for round in 0..40 {
        let n = 1 + next(30);
        let mut graph = Graph::new(n);
        let mut linked = vec![vec![false; n]; n];
        for _ in 0..next(2 * n + 1) {
            let a = next(n);
            let b = next(n);
            graph.add_edge(a, b);
            linked[a][b] = true;
            linked[b][a] = true;
        }
        let core: Vec<bool> = (0..n).map(|_| next(4 + round % 3) != 0).collect();
        let mut expected: Vec<Vec<usize>> = Vec::new();
        let mut seen = vec![false; n];
        for seed in 0..n {
            if !core[seed] || seen[seed] {
                continue;
            }
            let mut members = vec![seed];
            seen[seed] = true;
            let mut at = 0;
            while at < members.len() {
                let u = members[at];
                at += 1;
                for v in 0..n {
                    if linked[u][v] && core[v] && !seen[v] {
                        seen[v] = true;
                        members.push(v);
                    }
                }
            }
            members.sort();
            expected.push(members);
        }
        assert_eq!(extract_components(&graph, &core), expected);
    }
}
