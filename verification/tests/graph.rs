use netcrit::network::Graph;

fn chain_graph() -> Graph {
    // leaf(10) -> mid(20) -> top(30)
    let mut g = Graph::new();
    g.add_node("leaf".to_string(), 10);
    g.add_node("mid".to_string(), 20);
    g.add_node("top".to_string(), 30);
    g.add_edge(10, 20);
    g.add_edge(20, 30);
    g
}

#[test]
fn add_get_remove_node() {
    let mut g = Graph::new();
    assert!(g.add_node("a".to_string(), 1).is_none());
    let displaced = g.add_node("b".to_string(), 1);
    assert_eq!(displaced.unwrap().name, "a");
    let node = g.get_node(&1).unwrap();
    assert_eq!(node.name, "b");
    assert_eq!(node.id, 1);
    assert!(g.get_node(&2).is_none());
    let removed = g.remove_node(&1).unwrap();
    assert_eq!(removed.name, "b");
    assert!(g.get_node(&1).is_none());
}

#[test]
fn node_ids_cover_all_nodes() {
    let g = chain_graph();
    let ids = g.get_node_ids();
    assert_eq!(ids.len(), 3);
    assert!(ids.contains(10));
    assert!(ids.contains(20));
    assert!(ids.contains(30));
    assert!(!ids.contains(40));
}

#[test]
fn add_edge_deduplicates() {
    let mut g = Graph::new();
    assert!(g.add_edge(1, 2));
    assert!(!g.add_edge(1, 2));
    assert!(g.add_edge(2, 1));
    assert!(g.get_edge(1, 2).is_some());
    assert!(g.get_edge(1, 3).is_none());
    assert!(g.remove_edge(1, 2));
    assert!(!g.remove_edge(1, 2));
    assert!(g.get_edge(1, 2).is_none());
}

#[test]
fn links_map_holds_preds_and_succs() {
    let g = chain_graph();
    let lm = g.links_map();
    let mid = lm.get(20).unwrap();
    assert_eq!(mid.preds, vec![10]);
    assert_eq!(mid.succs, vec![30]);
    let leaf = lm.get(10).unwrap();
    assert!(leaf.preds.is_empty());
    assert_eq!(leaf.succs, vec![20]);
    let top = lm.get(30).unwrap();
    assert_eq!(top.preds, vec![20]);
    assert!(top.succs.is_empty());
    assert!(lm.get(99).is_none());
}

#[test]
fn start_and_end_discovery_on_chain() {
    let g = chain_graph();
    let lm = g.links_map();
    assert_eq!(Graph::get_start_id(&lm).unwrap(), 10);
    assert_eq!(Graph::get_end_id(&lm).unwrap(), 30);
}

#[test]
fn start_discovery_fails_with_two_candidates() {
    let mut g = Graph::new();
    g.add_edge(1, 3);
    g.add_edge(2, 3);
    let lm = g.links_map();
    let err = Graph::get_start_id(&lm).unwrap_err();
    let mut starts = err.starts.clone();
    starts.sort();
    assert_eq!(starts, vec![1, 2]);
}

#[test]
fn start_discovery_fails_with_no_candidate() {
    let mut g = Graph::new();
    g.add_edge(1, 2);
    g.add_edge(2, 1);
    let lm = g.links_map();
    let err = Graph::get_start_id(&lm).unwrap_err();
    assert!(err.starts.is_empty());
}

#[test]
fn end_discovery_fails_with_two_candidates() {
    let mut g = Graph::new();
    g.add_edge(1, 2);
    g.add_edge(1, 3);
    let lm = g.links_map();
    let err = Graph::get_end_id(&lm).unwrap_err();
    let mut ends = err.ends.clone();
    ends.sort();
    assert_eq!(ends, vec![2, 3]);
}

#[test]
fn bfs_path_visits_reachable_ids_once() {
    let mut g = Graph::new();
    // diamond: 1 -> 2, 1 -> 3, 2 -> 4, 3 -> 4; and an unreachable 5 -> 6
    g.add_edge(1, 2);
    g.add_edge(1, 3);
    g.add_edge(2, 4);
    g.add_edge(3, 4);
    g.add_edge(5, 6);
    let lm = g.links_map();
    let path = Graph::get_bfs_path(&lm, 1);
    assert_eq!(path[0], 1);
    assert_eq!(path.len(), 4);
    assert!(path.contains(&2));
    assert!(path.contains(&3));
    assert!(path.contains(&4));
    assert!(!path.contains(&5));
    assert!(!path.contains(&6));
}

#[test]
fn validate_end_connection_succeeds_iff_reachable() {
    let g = chain_graph();
    let lm = g.links_map();
    let path = Graph::validate_end_connection(&lm, 10, 30).unwrap();
    assert!(path.contains(&30));
    assert_eq!(path[0], 10);

    // same id: trivially connected
    let trivial = Graph::validate_end_connection(&lm, 10, 10).unwrap();
    assert_eq!(trivial, vec![10]);

    // backwards: the end does not reach the start
    let err = Graph::validate_end_connection(&lm, 30, 10).unwrap_err();
    assert_eq!(err.start_id, 30);
    assert_eq!(err.end_id, 10);
}

#[test]
fn deep_clone_copies_nodes_and_edges() {
    let mut g = chain_graph();
    g.add_static_node(10);
    let c = g.deep_clone();
    assert_eq!(c.get_node(&20).unwrap().name, "mid");
    assert!(c.get_edge(10, 20).is_some());
    assert!(c.get_edge(20, 30).is_some());
    // static node ids are not carried over
    assert!(g.is_static(10));
    assert!(!c.is_static(10));
}
