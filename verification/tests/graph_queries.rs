use entity_sim::graph::Graph;

#[test]
fn new_graph_has_nodes_and_no_edges() {
    let g = Graph::new(vec![0, 1, 2]);
    assert!(g.contains(0));
    assert!(g.contains(2));
    assert!(!g.contains(3));
    assert_eq!(g.weight_of(0, 1), None);
}

#[test]
fn add_edge_sets_directed_weight() {
    let g = Graph::new(vec![0, 1]).add_edge(0, 1, Some(4));
    assert_eq!(g.weight_of(0, 1), Some(4));
    assert_eq!(g.weight_of(1, 0), None);
}

#[test]
fn add_edge_from_unknown_node_is_a_no_op() {
    let g = Graph::new(vec![0, 1]).add_edge(9, 0, Some(4));
    assert_eq!(g.weight_of(9, 0), None);
    assert!(!g.contains(9));
}

#[test]
fn add_undirected_edge_sets_both_directions() {
    let g = Graph::new(vec![0, 1]).add_undirected_edge(0, 1, Some(5));
    assert_eq!(g.weight_of(0, 1), Some(5));
    assert_eq!(g.weight_of(1, 0), Some(5));
}

#[test]
fn updates_return_new_graphs_and_leave_the_old_one() {
    let g = Graph::new(vec![0, 1]);
    let h = g.add_edge(0, 1, Some(3));
    assert_eq!(g.weight_of(0, 1), None);
    assert_eq!(h.weight_of(0, 1), Some(3));
}

#[test]
fn adding_an_existing_node_discards_its_edges() {
    let g = Graph::new(vec![0, 1]).add_edge(0, 1, Some(3)).add_node(0);
    assert!(g.contains(0));
    assert_eq!(g.weight_of(0, 1), None);
}

#[test]
fn remove_node_leaves_dangling_references() {
    let g = Graph::new(vec![0, 1]).add_undirected_edge(0, 1, Some(5)).remove_node(1);
    assert!(!g.contains(1));
    // Other nodes' adjacency rows are not cleaned retroactively.
    assert_eq!(g.weight_of(0, 1), Some(5));
    assert_eq!(g.weight_of(1, 0), None);
}

#[test]
fn neighbours_of_lists_edge_targets() {
    let g = Graph::new(vec![0, 1, 2])
        .add_edge(0, 1, Some(1))
        .add_edge(0, 2, Some(2))
        .add_edge(0, 1, None);
    let mut n = g.neighbours_of(0).unwrap();
    n.sort();
    assert_eq!(n, vec![2]);
    assert_eq!(g.neighbours_of(9), None);
}

#[test]
fn path_query_sums_weights_along_fewest_hops() {
    let g = Graph::new(vec![0, 1, 2])
        .add_undirected_edge(0, 1, Some(5))
        .add_undirected_edge(1, 2, Some(7));
    assert_eq!(g.dfs(0, 2), Some(12));
    assert_eq!(g.dfs(0, 1), Some(5));
    assert_eq!(g.dfs(0, 0), Some(0));
}

#[test]
fn path_query_prefers_fewer_hops_over_lighter_weight() {
    // The one-hop edge weighs 100; the two-hop detour only 2. The query is
    // a fewest-hops search whose weight is then summed exactly.
    let g = Graph::new(vec![0, 1, 3])
        .add_edge(0, 1, Some(1))
        .add_edge(1, 3, Some(1))
        .add_edge(0, 3, Some(100));
    assert_eq!(g.dfs(0, 3), Some(100));
}

#[test]
fn unreachable_target_yields_no_path() {
    let g = Graph::new(vec![0, 1, 2, 3])
        .add_undirected_edge(0, 1, Some(5))
        .add_undirected_edge(2, 3, Some(5));
    assert_eq!(g.dfs(0, 2), None);
    assert_eq!(g.dfs(0, 3), None);
}

#[test]
fn complete_graph_holds_path_distances() {
    let g = Graph::new(vec![0, 1, 2, 9])
        .add_undirected_edge(0, 1, Some(5))
        .add_undirected_edge(1, 2, Some(7));
    let c = g.generate_complete_graph();
    assert_eq!(c.weight_of(0, 2), Some(12));
    assert_eq!(c.weight_of(2, 0), Some(12));
    assert_eq!(c.weight_of(0, 0), Some(0));
    assert_eq!(c.weight_of(0, 9), None);
    assert!(c.contains(9));
}

#[test]
fn complete_graph_derivation_is_idempotent() {
    let g = Graph::new(vec![0, 1, 2, 9])
        .add_undirected_edge(0, 1, Some(5))
        .add_undirected_edge(1, 2, Some(7));
    let once = g.generate_complete_graph();
    let twice = once.generate_complete_graph();
    for a in [0u32, 1, 2, 9] {
        for b in [0u32, 1, 2, 9] {
            assert_eq!(twice.weight_of(a, b), once.weight_of(a, b));
        }
    }
}
