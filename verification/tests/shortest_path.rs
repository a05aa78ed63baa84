use boulder_graph::cell::Cell;
use boulder_graph::state_graph::StateGraph;

// Five distinct one-cell configurations used as graph nodes.
fn cfg(k: usize) -> Vec<Cell> {
    match k {
        0 => vec![Cell::Unreachable],
        1 => vec![Cell::Reachable],
        2 => vec![Cell::Hole],
        3 => vec![Cell::Boulder],
        _ => vec![Cell::BoulderInHole],
    }
}

// A hand-built diamond with a tail:
//   0 -> 1, 0 -> 2, 1 -> 3, 2 -> 3, 3 -> 4
fn diamond() -> StateGraph {
    let mut graph = StateGraph::new(cfg(0));
    for k in 1..5 {
        graph.insert_state(cfg(k));
    }
    graph.connect_states(&cfg(0), &cfg(1));
    graph.connect_states(&cfg(0), &cfg(2));
    graph.connect_states(&cfg(1), &cfg(3));
    graph.connect_states(&cfg(2), &cfg(3));
    graph.connect_states(&cfg(3), &cfg(4));
    graph
}

#[test]
fn test_bfs_minimality_on_hand_built_graph() {
    let graph = diamond();
    let tree = graph.build_shortest_path_from(&0);
    assert_eq!(tree.source(), 0);
    assert_eq!(tree.get_distance(&0), Some(0));
    assert_eq!(tree.get_distance(&1), Some(1));
    assert_eq!(tree.get_distance(&2), Some(1));
    assert_eq!(tree.get_distance(&3), Some(2));
    assert_eq!(tree.get_distance(&4), Some(3));
    assert_eq!(tree.len(), 5);
}

#[test]
fn test_bfs_parent_edges_are_graph_edges() {
    let graph = diamond();
    let tree = graph.build_shortest_path_from(&0);
    assert_eq!(tree.get_parent(&0), None);
    for id in 1..5 {
        let parent = tree.get_parent(&id).unwrap();
        assert!(graph.get_neighbors(&parent).unwrap().contains(&id));
        let pd = tree.get_distance(&parent).unwrap();
        assert_eq!(tree.get_distance(&id).unwrap(), pd + 1);
    }
}

#[test]
fn test_bfs_unreachable_nodes_are_absent() {
    let graph = diamond();
    // Node 4 has no outgoing edges: from it, nothing else is reachable.
    let tree = graph.build_shortest_path_from(&4);
    assert_eq!(tree.source(), 4);
    assert!(tree.contains(&4));
    for id in 0..4 {
        assert!(!tree.contains(&id));
        assert_eq!(tree.get_distance(&id), None);
        assert_eq!(tree.get_parent(&id), None);
    }
}

#[test]
fn test_bfs_from_unknown_id() {
    let graph = diamond();
    let tree = graph.build_shortest_path_from(&99);
    assert_eq!(tree.source(), 99);
    assert!(tree.contains(&99));
    assert_eq!(tree.len(), 1);
}

#[test]
fn test_bfs_first_parent_wins_ties() {
    // Node 3 is reachable at distance 2 through 1 and through 2; breadth
    // first order discovers it through 1, the earlier neighbour of 0.
    let graph = diamond();
    let tree = graph.build_shortest_path_from(&0);
    assert_eq!(tree.get_parent(&3), Some(1));
    assert_eq!(tree.get_parent(&4), Some(3));
}
