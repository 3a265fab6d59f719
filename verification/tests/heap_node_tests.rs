use gdsl::graph_node::{GraphEdge, GraphNode, Lock};
use gdsl::heap::MinHeap;

#[test]
fn min_heap_pops_least_first() {
    let mut h = MinHeap::new();
    assert!(h.is_empty());
    assert!(h.pop().is_none());
    for x in [5u64, 1, 4, 1, 9, 2] {
        h.push(x);
    }
    assert_eq!(h.len(), 6);
    assert_eq!(h.peek(), Some(&1));
    let mut out = Vec::new();
    while let Some(x) = h.pop() {
        out.push(x);
    }
    assert_eq!(out, vec![1, 1, 2, 4, 5, 9]);
    h.push(3);
    h.clear();
    assert!(h.is_empty());
    assert!(h.peek().is_none());
}

#[test]
fn graph_edge_locks_and_args() {
    let mut e = GraphEdge::new(1, 2, 7u32);
    assert_eq!(e.get_source(), 1);
    assert_eq!(e.get_target(), 2);
    assert_eq!(*e.get_arg(), 7);
    assert_eq!(e.lock_try(), Lock::OPEN);
    e.lock_close();
    assert_eq!(e.lock_try(), Lock::CLOSED);
    e.lock_open();
    assert_eq!(e.lock_try(), Lock::OPEN);
    *e.get_arg_mut() = 8;
    assert_eq!(*e.get_arg(), 8);
}

#[test]
fn graph_node_finds_edges() {
    let mut n: GraphNode<&str, u8, u32> = GraphNode::new("a", 1, 0);
    assert_eq!(*n.get_key(), "a");
    assert_eq!(*n.get_arg(), 1);
    assert_eq!(n.get_index(), 0);
    assert_eq!(n.lock_try(), Lock::OPEN);
    n.lock_close();
    assert_eq!(n.lock_try(), Lock::CLOSED);
    n.lock_open();
    *n.get_arg_mut() = 2;
    assert_eq!(*n.get_arg(), 2);
    assert!(n.find_edge_to(3).is_none());
    assert!(n.find_edge(3).is_none());
    assert!(n.find_edge_to_mut(3).is_none());
    assert!(n.find_edge_from(3).is_none());
}

#[test]
fn graph_node_edge_lookup_and_update() {
    let mut n: GraphNode<u8, (), u32> = GraphNode::new(0, (), 0);
    n.push_to(GraphEdge::new(0, 1, 10));
    n.push_to(GraphEdge::new(0, 2, 20));
    n.push_to(GraphEdge::new(0, 2, 30));
    n.push_from(GraphEdge::new(3, 0, 40));
    assert_eq!(*n.find_edge_to(2).unwrap().get_arg(), 20);
    assert_eq!(*n.find_edge(3).unwrap().get_arg(), 40);
    *n.find_edge_to_mut(2).unwrap().get_arg_mut() = 21;
    assert_eq!(*n.find_edge_to(2).unwrap().get_arg(), 21);
    n.find_edge_from(3).unwrap().lock_close();
    assert_eq!(n.find_edge(3).unwrap().lock_try(), Lock::CLOSED);
}
