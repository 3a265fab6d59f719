use gdsl::digraph::{Edge, Graph, Node};
use gdsl::graph_traverse::{GraphPriorityTraverse, GraphTraverse};

fn graph() -> Graph<u32, (), u32> {
    let mut g = Graph::new();
    for k in 1..=4 {
        g.insert(Node::new(k, ()));
    }
    g.connect(&1, &2, 12);
    g.connect(&1, &3, 13);
    g.connect(&2, &4, 24);
    g.connect(&3, &4, 34);
    g
}

#[test]
fn graph_traverse_steps_and_reopens() {
    let g = graph();
    let mut t: GraphTraverse<u32, u32> = GraphTraverse::new();
    let n1 = g.get(&1).unwrap();
    // the filter refuses 1 -> 2, which still closes 2
    let e = t.adjacent(n1, &|_u: u32, v: u32, _e: u32| v != 2).unwrap();
    assert_eq!(e, Edge(1, 3, 13));
    assert!(t.adjacent(n1, &|_u: u32, _v: u32, _e: u32| true).is_none());
    let e = t.adjacent(g.get(&3).unwrap(), &|_u: u32, _v: u32, _e: u32| true).unwrap();
    assert_eq!(e, Edge(3, 4, 34));
    assert!(t.adjacent(g.get(&2).unwrap(), &|_u: u32, _v: u32, _e: u32| true).is_none());
    assert_eq!(t.next(), Some(3));
    assert_eq!(t.next(), Some(4));
    assert_eq!(t.next(), None);
}

#[test]
fn graph_priority_traverse_steps() {
    let g = graph();
    let mut t: GraphPriorityTraverse<u32, u32, u64> = GraphPriorityTraverse::new();
    let e = t.next_adjacent(g.get(&1).unwrap(), &|_u: u32, _v: u32, w: u32| w > 12).unwrap();
    assert_eq!(e, Edge(1, 3, 13));
    assert_eq!(t.next(), None);
}
