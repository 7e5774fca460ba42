use digraph::graph::Graph;
use digraph::loader::load_edge_list;

#[test]
fn two_line_cycle() {
    let g = load_edge_list(b"10 20\n20 10").unwrap();
    assert_eq!(g.order(), 2);
    assert_eq!(g.size(), 2);
    let h10 = 0;
    let h20 = 1;
    assert_eq!(g.get_node_data(h10), Some(&10));
    assert_eq!(g.get_node_data(h20), Some(&20));
    assert!(g.has_edge_between(h10, h20));
    assert!(g.has_edge_between(h20, h10));
}

#[test]
fn nodes_are_deduplicated_and_edges_carry_unit_weight() {
    let g = load_edge_list(b"1 2\n1 3\n2 3\n3 1\n").unwrap();
    assert_eq!(g.order(), 3);
    assert_eq!(g.size(), 4);
    for e in g.edges() {
        assert_eq!(g.get_edge_data(e), Some(&1));
    }
}

#[test]
fn whitespace_is_tolerated_and_extra_fields_ignored() {
    let g = load_edge_list(b"  5\t 6  anything else\r\n6 7").unwrap();
    assert_eq!(g.order(), 3);
    assert_eq!(g.size(), 2);
    assert_eq!(g.get_node_data(0), Some(&5));
    assert_eq!(g.get_node_data(1), Some(&6));
    assert_eq!(g.get_node_data(2), Some(&7));
    assert!(g.has_edge_between(0, 1));
    assert!(g.has_edge_between(1, 2));
}

#[test]
fn empty_input_gives_an_empty_graph() {
    let g = load_edge_list(b"").unwrap();
    assert_eq!(g.order(), 0);
    assert_eq!(g.size(), 0);
}

#[test]
fn malformed_lines_are_fatal() {
    assert!(load_edge_list(b"10").is_none());
    assert!(load_edge_list(b"10 x").is_none());
    assert!(load_edge_list(b"ten 20").is_none());
    assert!(load_edge_list(b"1 2\n\n3 4").is_none());
    assert!(load_edge_list(b"1 2\n3").is_none());
}

#[test]
fn values_at_and_over_the_integer_limit() {
    let g = load_edge_list(b"4294967295 0").unwrap();
    assert_eq!(g.get_node_data(0), Some(&4294967295));
    assert!(load_edge_list(b"4294967296 0").is_none());
    assert!(load_edge_list(b"0 99999999999999999999").is_none());
}

#[test]
fn self_loop_line() {
    let g = load_edge_list(b"8 8").unwrap();
    assert_eq!(g.order(), 1);
    assert_eq!(g.size(), 1);
    assert!(g.has_edge_between(0, 0));
}

#[test]
fn idxgraph() {
    let g = load_edge_list(b"1 2\n2 3\n3 1\n4 1\n").unwrap();
    assert!(g.order() != 0);
    assert!(g.size() != 0);
}
