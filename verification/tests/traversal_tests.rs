use gdsl::digraph::{Graph, Node};
use gdsl::flow::{maximum_flow_edmonds_karp, parallel_maximum_flow_edmonds_karp, Flow, FlowGraph};
use gdsl::traverse::{
    backtrack_edges, directed_breadth_first_traversal, parallel_directed_breadth_first_traversal, Traverse,
};
use gdsl::Empty;

fn graph_1() -> Graph<usize, Empty, Empty> {
    let mut g = Graph::new();
    for k in 1..=6 {
        g.insert(Node::new(k, Empty));
    }
    let edges = [
        (1, 2),
        (1, 3),
        (2, 1),
        (2, 3),
        (3, 1),
        (3, 5),
        (5, 2),
        (5, 4),
        (5, 1),
        (4, 5),
        (4, 3),
        (4, 2),
        (4, 6),
    ];
    for (u, v) in edges.iter() {
        assert!(g.connect(u, v, Empty));
    }
    g
}

fn until_6(_u: usize, v: usize, _e: Empty) -> Traverse {
    if v == 6 {
        Traverse::Finish
    } else {
        Traverse::Include
    }
}

fn check_path(path: &Vec<(usize, usize, Empty)>) {
    assert!(path.len() == 4);
    assert!(path[0].1 == 3);
    assert!(path[1].1 == 5);
    assert!(path[2].1 == 4);
    assert!(path[3].1 == 6);
}

#[test]
fn ungraph_test_breadth_traversal() {
    let g = graph_1();
    let s = g.snapshot();
    let res1 = directed_breadth_first_traversal(&s, &1, &until_6).unwrap();
    let res2 = directed_breadth_first_traversal(&s, &1, &until_6).unwrap();
    check_path(&backtrack_edges(&res1));
    check_path(&backtrack_edges(&res2));
}

#[test]
fn ungraph_test_par_breadth_traversal() {
    let g = graph_1();
    let s = g.snapshot();
    let res1 = parallel_directed_breadth_first_traversal(&s, &1, &until_6).unwrap();
    let res2 = parallel_directed_breadth_first_traversal(&s, &1, &until_6).unwrap();
    check_path(&backtrack_edges(&res1));
    check_path(&backtrack_edges(&res2));
}

#[test]
fn digraph_test_breadth_traversal() {
    let g = graph_1();
    let s = g.snapshot();
    let res1 = directed_breadth_first_traversal(&s, &1, &|_u: usize, v: usize, _e: Empty| {
        if v == 6 {
            Traverse::Finish
        } else {
            Traverse::Include
        }
    })
    .unwrap();
    let res2 = directed_breadth_first_traversal(&s, &1, &until_6).unwrap();
    check_path(&backtrack_edges(&res1));
    check_path(&backtrack_edges(&res2));
}

#[test]
fn digraph_test_par_breadth_traversal() {
    let g = graph_1();
    let s = g.snapshot();
    let res1 = parallel_directed_breadth_first_traversal(&s, &1, &until_6).unwrap();
    let res2 = parallel_directed_breadth_first_traversal(&s, &1, &|_u: usize, v: usize, _e: Empty| {
        if v == 6 {
            Traverse::Finish
        } else {
            Traverse::Include
        }
    })
    .unwrap();
    check_path(&backtrack_edges(&res1));
    check_path(&backtrack_edges(&res2));
}

fn flow_graph_example_1to6_23() -> FlowGraph<usize> {
    let mut g = FlowGraph::new();
    for k in 1..=6 {
        g.add_node(k);
    }
    let edges = [
        (1, 2, 16),
        (1, 3, 13),
        (2, 3, 10),
        (2, 4, 12),
        (3, 2, 4),
        (3, 5, 14),
        (4, 3, 9),
        (4, 6, 20),
        (5, 4, 7),
        (5, 6, 4),
    ];
    for (u, v, c) in edges.iter() {
        assert!(Flow::connect(&mut g, u, v, *c));
    }
    g
}

#[test]
fn tests_digraph_test_maximum_flow_edmonds_karp() {
    let mut g = flow_graph_example_1to6_23();
    let max_flow = parallel_maximum_flow_edmonds_karp(&mut g, &1, &6);
    assert!(max_flow == 23);
}

#[test]
fn max_flow_digraph_test_maximum_flow_edmonds_karp() {
    let mut g = flow_graph_example_1to6_23();
    let max_flow = parallel_maximum_flow_edmonds_karp(&mut g, &1, &6);
    assert!(max_flow == 23);
}

#[test]
fn test_max_flow() {
    let mut g = FlowGraph::new();
    for k in 0..=5 {
        g.add_node(k);
    }
    Flow::connect(&mut g, &0, &1, 16);
    Flow::connect(&mut g, &0, &2, 13);
    Flow::connect(&mut g, &1, &2, 10);
    Flow::connect(&mut g, &1, &3, 12);
    Flow::connect(&mut g, &2, &1, 4);
    Flow::connect(&mut g, &2, &4, 14);
    Flow::connect(&mut g, &3, &2, 9);
    Flow::connect(&mut g, &3, &5, 20);
    Flow::connect(&mut g, &4, &3, 7);
    Flow::connect(&mut g, &4, &5, 4);
    assert!(maximum_flow_edmonds_karp(&mut g, &0, &5) == 23);
}

#[test]
fn max_flow_sequential_matches_parallel() {
    let mut a = flow_graph_example_1to6_23();
    let mut b = flow_graph_example_1to6_23();
    assert_eq!(maximum_flow_edmonds_karp(&mut a, &1, &6), 23);
    assert_eq!(parallel_maximum_flow_edmonds_karp(&mut b, &1, &6), 23);
    // a second run finds no augmenting path left
    assert_eq!(maximum_flow_edmonds_karp(&mut a, &1, &6), 0);
}

#[test]
fn max_flow_missing_source_is_zero() {
    let mut g = flow_graph_example_1to6_23();
    assert_eq!(maximum_flow_edmonds_karp(&mut g, &42, &6), 0);
}

#[test]
fn max_flow_source_is_target() {
    let mut g = flow_graph_example_1to6_23();
    assert_eq!(maximum_flow_edmonds_karp(&mut g, &1, &1), 0);
}

#[test]
fn flow_connect_refuses_missing_nodes() {
    let mut g = flow_graph_example_1to6_23();
    let before = g.edge_count();
    assert!(!Flow::connect(&mut g, &1, &9, 3));
    assert_eq!(g.edge_count(), before);
    let e = g.edge(0).unwrap();
    assert_eq!(e.0, 1);
    assert_eq!(e.1, 2);
    assert_eq!(e.2, Flow { max: 16, cur: 0 });
    let r = g.edge(1).unwrap();
    assert_eq!(r.2, Flow { max: 16, cur: 16 });
}

#[test]
fn breadth_traversal_backtracks_to_the_shortest_path() {
    let mut g: Graph<u32, Empty, Empty> = Graph::new();
    for k in 1..=3 {
        g.insert(Node::new(k, Empty));
    }
    g.connect(&1, &2, Empty);
    g.connect(&2, &3, Empty);
    g.connect(&1, &3, Empty);
    let s = g.snapshot();
    let edges = directed_breadth_first_traversal(&s, &1, &|_u: u32, v: u32, _e: Empty| {
        if v == 3 {
            Traverse::Finish
        } else {
            Traverse::Include
        }
    })
    .unwrap();
    let shortest_path = backtrack_edges(&edges);
    assert!(shortest_path.len() == 1);
    assert_eq!(shortest_path[0].0, 1);
    assert_eq!(shortest_path[0].1, 3);
}

#[test]
fn breadth_traversal_ends_without_a_finish() {
    let g = graph_1();
    let s = g.snapshot();
    let none = directed_breadth_first_traversal(&s, &1, &|_u: usize, v: usize, _e: Empty| {
        if v == 6 {
            Traverse::Skip
        } else {
            Traverse::Include
        }
    });
    assert!(none.is_none());
    assert!(parallel_directed_breadth_first_traversal(&s, &6, &until_6).is_none());
}
