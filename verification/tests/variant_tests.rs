use digraph::arenagraph::ArenaGraph;
use digraph::graph::GraphError;
use digraph::rcgraph::RcGraph;

#[test]
fn rcgraph_supports_growth_counts_and_clear() {
    let mut g: RcGraph<u32, i32> = RcGraph::new();
    assert_eq!(g.order(), 0);
    assert_eq!(g.size(), 0);
    let a = g.add_node(10);
    let b = g.add_node(20);
    assert_eq!(g.order(), 2);
    let e = g.add_edge(a, b, 1).unwrap();
    let e2 = g.add_edge(b, a, 1).unwrap();
    assert_ne!(e, e2);
    assert_eq!(g.size(), 2);
    assert_eq!(g.nodes(), vec![a, b]);
    assert_eq!(g.edges(), vec![e, e2]);
    g.clear();
    assert_eq!(g.order(), 0);
    assert_eq!(g.size(), 0);
    assert!(g.edges().is_empty());
}

#[test]
fn rcgraph_rejects_absent_endpoints() {
    let mut g: RcGraph<u32, i32> = RcGraph::new();
    let a = g.add_node(1);
    assert_eq!(g.add_edge(a, a + 1, 0), None);
    assert_eq!(g.size(), 0);
}

#[test]
fn rcgraph_signals_unsupported_operations() {
    let mut g: RcGraph<u32, i32> = RcGraph::new();
    let a = g.add_node(1);
    let b = g.add_node(2);
    let e = g.add_edge(a, b, 9).unwrap();
    assert_eq!(g.remove_node(a), Err(GraphError::Unsupported));
    assert_eq!(g.remove_edge(e), Err(GraphError::Unsupported));
    assert_eq!(g.remove_edge_between(a, b), Err(GraphError::Unsupported));
    assert_eq!(g.get_node_data(a), Err(GraphError::Unsupported));
    assert_eq!(g.get_edge_data(e), Err(GraphError::Unsupported));
    assert_eq!(g.order(), 2);
    assert_eq!(g.size(), 1);
}

#[test]
fn arenagraph_grows_and_answers_queries() {
    let mut g: ArenaGraph<u32, u32> = ArenaGraph::new();
    let a = g.add_node(7);
    let b = g.add_node(8);
    let e = g.add_edge(a, b, 1).unwrap();
    assert_eq!(g.order(), 2);
    assert_eq!(g.size(), 1);
    assert_eq!(g.get_node_data(a), Some(&7));
    assert_eq!(g.get_node_data(b), Some(&8));
    assert_eq!(g.get_edge_data(e), Some(&1));
    assert_eq!(g.get_node_data(b + 1), None);
    assert_eq!(g.add_edge(a, b + 1, 1), None);
}

#[test]
fn arenagraph_signals_unsupported_removal() {
    let mut g: ArenaGraph<u32, u32> = ArenaGraph::new();
    let a = g.add_node(7);
    assert_eq!(g.remove_node(a), Err(GraphError::Unsupported));
    assert_eq!(g.clear(), Err(GraphError::Unsupported));
    assert_eq!(g.order(), 1);
}

#[test]
fn rcgraph() {
    let mut g: RcGraph<u32, i32> = RcGraph::new();
    let a = g.add_node(1);
    let b = g.add_node(2);
    g.add_edge(a, b, 1).unwrap();
    g.add_edge(b, a, 1).unwrap();
    assert!(g.order() != 0);
    assert!(g.size() != 0);
}
