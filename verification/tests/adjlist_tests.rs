use digraph::adjlistgraph::AdjListGraph;
use digraph::graph::Graph;

#[test]
fn order_counts_surviving_nodes() {
    let mut g: AdjListGraph<u32, i32> = AdjListGraph::new();
    assert_eq!(g.order(), 0);
    let a = g.add_node(10);
    assert!(g.has_node(a));
    let b = g.add_node(20);
    assert!(g.has_node(b));
    let c = g.add_node(30);
    assert!(g.has_node(c));
    assert_eq!(g.order(), 3);
    assert_eq!(g.remove_node(b), Some(20));
    assert_eq!(g.order(), 2);
    assert!(!g.has_node(b));
    assert!(g.has_node(a) && g.has_node(c));
}

#[test]
fn remove_node_cascades_to_incident_edges() {
    let mut g: AdjListGraph<u32, &str> = AdjListGraph::new();
    let n1 = g.add_node(1);
    let n2 = g.add_node(2);
    let n3 = g.add_node(3);
    let e12 = g.add_edge(n1, n2, "a").unwrap();
    let e23 = g.add_edge(n2, n3, "b").unwrap();
    let e13 = g.add_edge(n1, n3, "c").unwrap();
    assert_eq!(g.remove_node(n2), Some(2));
    assert!(!g.has_edge(e12));
    assert!(!g.has_edge(e23));
    assert!(g.has_edge(e13));
}

#[test]
fn no_adjacency_entry_dangles() {
    let mut g: AdjListGraph<u32, i32> = AdjListGraph::new();
    let n1 = g.add_node(1);
    let n2 = g.add_node(2);
    let n3 = g.add_node(3);
    g.add_edge(n1, n2, 0);
    g.add_edge(n2, n3, 0);
    g.add_edge(n3, n1, 0);
    g.remove_node(n3);
    for n in g.nodes() {
        for e in g.get_edges_of(n) {
            assert!(g.has_edge(e));
        }
    }
}

#[test]
fn removed_handle_is_never_reissued() {
    let mut g: AdjListGraph<u32, i32> = AdjListGraph::new();
    let a = g.add_node(10);
    let b = g.add_node(20);
    assert_eq!(g.remove_node(a), Some(10));
    let c = g.add_node(30);
    assert_ne!(c, a);
    assert_ne!(c, b);
    assert!(!g.has_node(a));
    let d = g.add_node(40);
    assert_ne!(d, a);
}

#[test]
fn remove_edge_between_takes_first_and_leaves_parallel() {
    let mut g: AdjListGraph<u32, &str> = AdjListGraph::new();
    let a = g.add_node(1);
    let b = g.add_node(2);
    let e1 = g.add_edge(a, b, "first").unwrap();
    let e2 = g.add_edge(a, b, "second").unwrap();
    assert_eq!(g.get_edge(a, b), Some(e1));
    assert_eq!(g.remove_edge_between(a, b), Some("first"));
    assert!(g.has_edge_between(a, b));
    assert!(!g.has_edge(e1));
    assert!(g.has_edge(e2));
    assert_eq!(g.remove_edge_between(a, b), Some("second"));
    assert!(!g.has_edge_between(a, b));
    assert_eq!(g.remove_edge_between(a, b), None);
}

#[test]
fn clear_empties_but_retires_handles() {
    let mut g: AdjListGraph<u32, i32> = AdjListGraph::new();
    let a = g.add_node(1);
    let b = g.add_node(2);
    let e = g.add_edge(a, b, 7).unwrap();
    g.clear();
    assert_eq!(g.order(), 0);
    assert_eq!(g.size(), 0);
    assert!(g.edges().is_empty());
    assert!(g.nodes().is_empty());
    assert!(!g.has_node(a) && !g.has_node(b));
    assert!(!g.has_edge(e));
    let c = g.add_node(3);
    assert_ne!(c, a);
    assert_ne!(c, b);
    assert!(!g.has_node(a));
    assert_eq!(g.get_node_data(c), Some(&3));
}

#[test]
fn three_node_scenario() {
    let mut g: AdjListGraph<u32, &str> = AdjListGraph::new();
    let n1 = g.add_node(1);
    let n2 = g.add_node(2);
    let n3 = g.add_node(3);
    let ea = g.add_edge(n1, n2, "a").unwrap();
    let eb = g.add_edge(n2, n3, "b").unwrap();
    let ec = g.add_edge(n1, n3, "c").unwrap();
    assert_eq!(g.order(), 3);
    let succ1 = g.get_succ_edges_of(n1);
    assert_eq!(succ1.len(), 2);
    assert!(succ1.contains(&ea));
    assert!(succ1.contains(&ec));
    assert_eq!(g.remove_node(n2), Some(2));
    assert!(!g.has_edge(ea));
    assert!(!g.has_edge(eb));
    assert!(g.has_edge(ec));
    assert_eq!(g.size(), 1);
    assert_eq!(g.order(), 2);
}

#[test]
fn edge_queries_report_endpoints_and_data() {
    let mut g: AdjListGraph<&str, u64> = AdjListGraph::new();
    let a = g.add_node("a");
    let b = g.add_node("b");
    let e = g.add_edge(a, b, 99).unwrap();
    assert_eq!(g.get_edge_start(e), Some(a));
    assert_eq!(g.get_edge_end(e), Some(b));
    assert_eq!(g.get_edge_data(e), Some(&99));
    assert_eq!(g.get_node_data(a), Some(&"a"));
    assert_eq!(g.get_node_data(b), Some(&"b"));
    let stale = e + 1;
    assert_eq!(g.get_edge_start(stale), None);
    assert_eq!(g.get_edge_end(stale), None);
    assert_eq!(g.get_edge_data(stale), None);
}

#[test]
fn absent_endpoints_are_rejected() {
    let mut g: AdjListGraph<u32, i32> = AdjListGraph::new();
    let a = g.add_node(1);
    assert_eq!(g.add_edge(a, a + 1, 0), None);
    assert_eq!(g.add_edge(a + 1, a, 0), None);
    assert_eq!(g.size(), 0);
    assert_eq!(g.remove_node(a + 5), None);
    assert_eq!(g.remove_edge(0), None);
    assert_eq!(g.get_node_data(a + 1), None);
}

#[test]
fn self_loop_is_removed_once() {
    let mut g: AdjListGraph<u32, &str> = AdjListGraph::new();
    let a = g.add_node(1);
    let e = g.add_edge(a, a, "loop").unwrap();
    assert!(g.has_edge(e));
    assert_eq!(g.get_edges_of(a), vec![e, e]);
    assert_eq!(g.remove_node(a), Some(1));
    assert!(!g.has_edge(e));
    assert_eq!(g.size(), 0);
    assert_eq!(g.order(), 0);
}

#[test]
fn remove_edge_strips_both_adjacency_lists() {
    let mut g: AdjListGraph<u32, i32> = AdjListGraph::new();
    let a = g.add_node(1);
    let b = g.add_node(2);
    let e = g.add_edge(a, b, 5).unwrap();
    assert_eq!(g.get_succ_edges_of(a), vec![e]);
    assert_eq!(g.get_pred_edges_of(b), vec![e]);
    assert_eq!(g.remove_edge(e), Some(5));
    assert!(g.get_succ_edges_of(a).is_empty());
    assert!(g.get_pred_edges_of(b).is_empty());
    assert!(g.has_node(a) && g.has_node(b));
    assert_eq!(g.remove_edge(e), None);
}

#[test]
fn node_and_edge_listings_track_removals() {
    let mut g: AdjListGraph<u32, i32> = AdjListGraph::new();
    let a = g.add_node(1);
    let b = g.add_node(2);
    let c = g.add_node(3);
    let e1 = g.add_edge(a, b, 0).unwrap();
    let e2 = g.add_edge(b, c, 0).unwrap();
    assert_eq!(g.nodes(), vec![a, b, c]);
    assert_eq!(g.edges(), vec![e1, e2]);
    g.remove_node(b);
    assert_eq!(g.nodes(), vec![a, c]);
    assert!(g.edges().is_empty());
}
