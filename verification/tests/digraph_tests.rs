use gdsl::digraph::{Edge, Graph, Node};
use gdsl::graph_search::{Bfs, Dfs};
use std::collections::{HashSet, VecDeque};

fn build(nodes: &[usize], edges: &[(usize, usize)]) -> Graph<usize, (), ()> {
    let mut g = Graph::new();
    for k in nodes {
        assert!(g.insert(Node::new(*k, ())));
    }
    for (u, v) in edges {
        assert!(g.connect(u, v, ()));
    }
    g
}

fn search_graph() -> Graph<usize, (), ()> {
    build(&[0, 1, 2, 3, 4], &[(0, 1), (0, 2), (0, 3), (1, 3), (2, 4), (3, 2), (3, 0)])
}

#[test]
fn ut_digraph_manual_bfs() {
    let g = build(
        &[0, 1, 2, 3, 4, 5],
        &[(0, 1), (0, 2), (0, 3), (1, 4), (2, 5), (3, 4), (3, 5)],
    );

    let mut visited = HashSet::new();
    let mut queue = VecDeque::new();

    queue.push_back(0usize);
    visited.insert(0usize);

    while let Some(u) = queue.pop_front() {
        for Edge(_, v, _) in g.get(&u).unwrap().iter_out() {
            if !visited.contains(&v) {
                if v == 4 {
                    return;
                }
                visited.insert(v);
                queue.push_back(v);
            }
        }
    }
    panic!();
}

#[test]
fn ut_digraph_bfs() {
    let g = build(&[0, 1, 2, 3, 4], &[(0, 1), (0, 2), (0, 3), (1, 3), (2, 4), (3, 2)]);
    let s = g.snapshot();
    let path = g.get(&0).unwrap().bfs().target(&4).search_path(&s).unwrap().to_vec_nodes();

    assert!(path[0] == 0);
    assert!(path[1] == 2);
    assert!(path[2] == 4);
}

#[test]
fn ut_digraph() {
    let mut a = Node::new(0x1, "A");
    let mut b = Node::new(0x2, "B");
    let mut c = Node::new(0x4, "C");

    a.connect(&mut b, 0.42);
    a.connect(&mut c, 1.7);
    b.connect(&mut c, 0.09);
    c.connect(&mut b, 12.9);

    let Edge(u, v, e) = a.iter_out()[0];

    assert!(u == *a.key());
    assert!(v == *b.key());
    assert!(e == 0.42);
}

#[test]
fn ut_digraph_new() {
    let n1 = Node::<i32, char, ()>::new(1, 'A');

    assert!(*n1.key() == 1);
    assert!(*n1.value() == 'A');
}

#[test]
fn ut_digraph_connect() {
    let mut n1 = Node::new(1, ());
    let mut n2 = Node::new(2, ());

    n1.connect(&mut n2, 4.20);

    assert!(n1.is_connected(n2.key()));
}

#[test]
fn ut_digraph_try_connect() {
    let mut n1 = Node::new(1, ());
    let mut n2 = Node::new(2, ());

    match n1.try_connect(&mut n2, ()) {
        Ok(_) => assert!(n1.is_connected(n2.key())),
        Err(_) => panic!("n1 should be connected to n2"),
    }

    match n1.try_connect(&mut n2, ()) {
        Ok(_) => panic!("n1 should be connected to n2"),
        Err(_) => assert!(n1.is_connected(n2.key())),
    }
}

#[test]
fn ut_digraph_disconnect() {
    let mut n1 = Node::new(1, ());
    let mut n2 = Node::new(2, ());

    n1.connect(&mut n2, ());

    assert!(n1.is_connected(n2.key()));

    if n1.disconnect(&mut n2).is_err() {
        panic!("n1 should be connected to n2");
    }

    assert!(!n1.is_connected(n2.key()));
    assert!(n2.inbound().is_empty());
}

#[test]
fn ut_digraph_isolate() {
    let mut g = build(&[1, 2, 3, 4], &[(1, 2), (1, 3), (2, 1), (3, 1), (4, 3), (3, 2)]);

    g.isolate(&1);

    assert!(g.get(&3).unwrap().is_connected(&2));
    assert!(g.get(&4).unwrap().is_connected(&3));
    assert!(!g.get(&1).unwrap().is_connected(&2));
    assert!(!g.get(&1).unwrap().is_connected(&3));
    assert!(g.get(&1).unwrap().is_orphan());
}

#[test]
fn ut_digraph_dfs_find_1() {
    let g = search_graph();

    let target = g.get(&0).unwrap().dfs().target(&4).search(&g.snapshot()).unwrap();

    let source = g.get(&4).unwrap().dfs().target(&0).search(&g.snapshot_transposed()).unwrap();

    assert!(target == 4);
    assert!(source == 0);
}

#[test]
fn ut_digraph_dfs_cycle_1() {
    let g = build(&[0, 1, 2, 3, 4], &[(0, 0), (0, 2), (0, 3), (1, 3), (2, 4), (3, 2), (3, 0)]);

    let cycle = g.get(&0).unwrap().dfs().search_cycle(&g.snapshot()).unwrap().to_vec_nodes();

    assert!(cycle[0] == 0);
    assert!(cycle[1] == 0);
}

#[test]
fn ut_digraph_dfs_cycle_2() {
    let g = search_graph();

    let cycle = g.get(&0).unwrap().dfs().search_cycle(&g.snapshot()).unwrap().to_vec_nodes();

    assert!(cycle[0] == 0);
    assert!(*cycle.last().unwrap() == 0);
}

#[test]
fn ut_digraph_bfs_find_1() {
    let g = search_graph();

    let target = g.get(&0).unwrap().bfs().target(&4).search(&g.snapshot()).unwrap();

    let source = g.get(&4).unwrap().bfs().target(&0).search(&g.snapshot_transposed()).unwrap();

    assert!(target == 4);
    assert!(source == 0);
}

#[test]
fn ut_digraph_bfs_cycle_1() {
    let g = search_graph();

    let cycle = g.get(&0).unwrap().bfs().search_cycle(&g.snapshot()).unwrap().to_vec_nodes();

    assert!(cycle[0] == 0);
    assert!(cycle[1] == 3);
    assert!(cycle[2] == 0);
}

#[test]
fn ut_digraph_bfs_cycle_2() {
    let g = search_graph();

    let cycle = g.get(&0).unwrap().bfs().search_cycle(&g.snapshot()).unwrap().to_vec_nodes();

    assert!(cycle[0] == 0);
    assert!(*cycle.last().unwrap() == 0);
}

#[test]
fn ut_digraph_deref_node() {
    let mut n1 = Node::<char, i32, f64>::new('A', 42);
    let mut n2 = Node::<char, i32, f64>::new('B', 6);

    n1.connect(&mut n2, 0.5);

    assert!(*n1.value() == 42);
    assert!(n2.key() == &'B');

    let Edge(u, v, e) = n1.iter_out()[0];

    assert!(u == 'A');
    assert!(v == *n2.key());
    assert!(e == 0.5);
}

#[test]
fn digraph_search_without_target_finds_nothing() {
    let g = search_graph();
    assert!(Dfs::new(&0).search(&g.snapshot()).is_none());
    assert!(Bfs::new(&0).search(&g.snapshot()).is_none());
    assert!(Bfs::new(&9).target(&0).search(&g.snapshot()).is_none());
}

#[test]
fn digraph_connect_records_both_ends() {
    let mut g = build(&[1, 2], &[]);
    assert!(g.connect(&1, &2, ()));
    assert!(g.is_connected(&1, &2));
    assert!(!g.is_connected(&2, &1));
    assert!(g.get(&2).unwrap().inbound().len() == 1);
    assert!(!g.connect(&1, &3, ()));
    assert!(g.try_connect(&1, &2, ()).is_err());
    assert!(g.disconnect(&1, &2).is_ok());
    assert!(!g.is_connected(&1, &2));
    assert!(g.get(&2).unwrap().inbound().is_empty());
    assert!(g.disconnect(&1, &2).is_err());
}

#[test]
fn digraph_roots_leaves_orphans() {
    let g = build(&[1, 2, 3, 4], &[(1, 2), (1, 3), (2, 3)]);
    let roots: Vec<usize> = g.roots().iter().map(|n| *n.key()).collect();
    let leaves: Vec<usize> = g.leaves().iter().map(|n| *n.key()).collect();
    let orphans: Vec<usize> = g.orphans().iter().map(|n| *n.key()).collect();
    assert_eq!(roots, vec![1, 4]);
    assert_eq!(leaves, vec![3, 4]);
    assert_eq!(orphans, vec![4]);
    assert_eq!(g.len(), 4);
    assert!(!g.is_empty());
}

#[test]
fn digraph_insert_remove() {
    let mut g = build(&[1, 2], &[(1, 2)]);
    assert!(!g.insert(Node::new(1, ())));
    let n = g.remove(&1).unwrap();
    assert_eq!(*n.key(), 1);
    assert!(!g.contains(&1));
    assert!(g.remove(&1).is_none());
    assert_eq!(g.len(), 1);
}

#[test]
fn searches_find_nothing_where_no_walk_leads() {
    let mut g: Graph<usize, (), ()> = Graph::new();
    for k in 0..4 {
        g.insert(Node::new(k, ()));
    }
    g.connect(&0, &1, ());
    g.connect(&1, &0, ());
    g.connect(&2, &3, ());
    let s = g.snapshot();
    assert!(Bfs::new(&0).target(&3).search_path(&s).is_none());
    assert!(Dfs::new(&0).target(&2).search(&s).is_none());
    assert!(Bfs::new(&2).search_cycle(&s).is_none());
    assert!(Dfs::new(&0).search_cycle(&s).is_some());
    assert_eq!(Bfs::new(&0).target(&1).search(&s), Some(1));
}

#[test]
fn search_paths_and_cycles_pass_no_node_twice() {
    let g = build(
        &[0, 1, 2, 3, 4, 5],
        &[(0, 0), (0, 1), (1, 2), (2, 0), (2, 3), (3, 1), (3, 4), (4, 2), (4, 5), (5, 0)],
    );
    let s = g.snapshot();
    for goal in 1..6usize {
        let nodes = Dfs::new(&0).target(&goal).search_path(&s).unwrap().to_vec_nodes();
        let distinct: HashSet<usize> = nodes.iter().cloned().collect();
        assert_eq!(distinct.len(), nodes.len());
        assert_eq!(nodes[0], 0);
        assert_eq!(nodes[nodes.len() - 1], goal);
    }
    let cycle = Dfs::new(&1).search_cycle(&s).unwrap().to_vec_nodes();
    assert_eq!(cycle[0], 1);
    assert_eq!(cycle[cycle.len() - 1], 1);
    let inner: HashSet<usize> = cycle[..cycle.len() - 1].iter().cloned().collect();
    assert_eq!(inner.len(), cycle.len() - 1);
}

#[test]
fn removing_a_key_leaves_no_node_with_it() {
    let mut g = gdsl::digraph::Graph::<u64, (), ()>::new();
    assert!(g.insert(gdsl::digraph::Node::new(1, ())));
    assert!(g.insert(gdsl::digraph::Node::new(2, ())));
    assert!(g.remove(&1).is_some());
    assert!(!g.contains(&1));
    assert!(g.remove(&1).is_none());
    assert!(g.contains(&2));
}

#[test]
fn orphans_are_the_roots_that_are_leaves() {
    let mut g = gdsl::digraph::Graph::<char, (), ()>::new();
    for k in ['A', 'B', 'C', 'D'] {
        assert!(g.insert(gdsl::digraph::Node::new(k, ())));
    }
    assert!(g.connect(&'A', &'B', ()));
    let orphans: Vec<char> = g.orphans().iter().map(|n| *n.key()).collect();
    let roots: Vec<char> = g.roots().iter().map(|n| *n.key()).collect();
    let leaves: Vec<char> = g.leaves().iter().map(|n| *n.key()).collect();
    assert_eq!(orphans, vec!['C', 'D']);
    let both: Vec<char> = roots.iter().filter(|k| leaves.contains(k)).cloned().collect();
    assert_eq!(orphans, both);
}

#[test]
fn remove_all_drops_every_matching_record() {
    let mut a = gdsl::adjacent::Adjacent::<u64, u64>::new();
    a.push_outbound((1, 10));
    a.push_outbound((2, 20));
    a.push_outbound((1, 11));
    a.push_inbound((1, 12));
    assert!(a.remove_outbound_all(&1));
    assert_eq!(a.outbound().clone(), vec![(2, 20)]);
    assert_eq!(a.inbound().clone(), vec![(1, 12)]);
    assert!(!a.remove_outbound_all(&1));
    assert!(a.remove_inbound_all(&1));
    assert!(a.inbound().is_empty());
}

#[test]
fn disconnect_all_removes_both_records() {
    let mut a = gdsl::digraph::Node::<u64, (), u64>::new(1, ());
    let mut b = gdsl::digraph::Node::<u64, (), u64>::new(2, ());
    a.connect(&mut b, 5);
    a.connect(&mut b, 6);
    assert!(a.disconnect_all(&mut b));
    assert!(!a.is_connected(&2));
    assert!(!a.disconnect_all(&mut b));
}
