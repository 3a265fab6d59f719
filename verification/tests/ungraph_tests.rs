use gdsl::digraph::Edge;
use gdsl::ungraph::{Graph, Node};
use std::collections::{HashSet, VecDeque};

fn build(nodes: &[usize], edges: &[(usize, usize)]) -> Graph<usize, (), ()> {
    let mut g = Graph::new();
    for k in nodes {
        assert!(g.insert(Node::new(*k, ())));
    }
    for (u, v) in edges {
        assert!(g.connect(u, v, ()));
    }
    g
}

fn search_graph() -> Graph<usize, (), ()> {
    build(&[0, 1, 2, 3, 4], &[(0, 1), (0, 2), (0, 3), (1, 3), (2, 4), (3, 2), (3, 0)])
}

#[test]
fn ut_ungraph_manual_bfs() {
    let g = build(
        &[0, 1, 2, 3, 4, 5],
        &[(0, 1), (0, 2), (0, 3), (1, 4), (2, 5), (3, 4), (3, 5)],
    );

    let mut visited = HashSet::new();
    let mut queue = VecDeque::new();

    queue.push_back(0usize);
    visited.insert(0usize);

    while let Some(u) = queue.pop_front() {
        for Edge(_, v, _) in g.get(&u).unwrap().iter() {
            if !visited.contains(&v) {
                if v == 4 {
                    return;
                }
                visited.insert(v);
                queue.push_back(v);
            }
        }
    }
    panic!();
}

#[test]
fn ut_ungraph_bfs() {
    let g = build(&[0, 1, 2, 3, 4], &[(0, 1), (0, 2), (0, 3), (1, 3), (2, 4), (3, 2)]);
    let path = g.get(&0).unwrap().bfs().target(&4).search_path(&g.snapshot()).unwrap().to_vec_nodes();

    assert!(path[0] == 0);
    assert!(path[1] == 2);
    assert!(path[2] == 4);
}

#[test]
fn ut_ungraph() {
    let mut a = Node::new(0x1, "A");
    let mut b = Node::new(0x2, "B");
    let mut c = Node::new(0x4, "C");

    a.connect(&mut b, 0.42);
    a.connect(&mut c, 1.7);
    b.connect(&mut c, 0.09);
    c.connect(&mut b, 12.9);

    let Edge(u, v, e) = a.iter()[0];

    assert!(u == *a.key());
    assert!(v == *b.key());
    assert!(e == 0.42);
}

#[test]
fn ut_ungraph_new() {
    let n1 = Node::<i32, char, ()>::new(1, 'A');

    assert!(*n1.key() == 1);
    assert!(*n1.value() == 'A');
}

#[test]
fn ut_ungraph_connect() {
    let mut n1 = Node::new(1, ());
    let mut n2 = Node::new(2, ());

    n1.connect(&mut n2, 4.20);

    assert!(n1.is_connected(n2.key()));
}

#[test]
fn ut_ungraph_try_connect() {
    let mut n1 = Node::new(1, ());
    let mut n2 = Node::new(2, ());

    match n1.try_connect(&mut n2, ()) {
        Ok(_) => assert!(n1.is_connected(n2.key())),
        Err(_) => panic!("n1 should be connected to n2"),
    }

    match n1.try_connect(&mut n2, ()) {
        Ok(_) => panic!("n1 should be connected to n2"),
        Err(_) => assert!(n1.is_connected(n2.key())),
    }
}

#[test]
fn ut_ungraph_disconnect() {
    let mut g = build(&[1, 2], &[]);

    assert!(g.connect(&1, &2, ()));

    assert!(g.is_connected(&1, &2));

    if g.disconnect(&1, &2).is_err() {
        panic!("n1 should be connected to n2");
    }

    assert!(!g.is_connected(&1, &2));
    assert!(!g.is_connected(&2, &1));
}

#[test]
fn ut_ungraph_isolate() {
    let mut g = build(&[1, 2, 3, 4], &[(1, 2), (1, 3), (2, 1), (3, 1), (4, 3), (3, 2)]);

    g.isolate(&1);

    assert!(g.get(&3).unwrap().is_connected(&2));
    assert!(g.get(&4).unwrap().is_connected(&3));
    assert!(!g.get(&1).unwrap().is_connected(&2));
    assert!(!g.get(&1).unwrap().is_connected(&3));
    assert!(g.get(&1).unwrap().is_orphan());
}

#[test]
fn ut_ungraph_dfs_find_1() {
    let g = search_graph();

    let target = g.get(&0).unwrap().dfs().target(&4).search(&g.snapshot()).unwrap();

    let source = g.get(&4).unwrap().dfs().target(&0).search(&g.snapshot()).unwrap();

    assert!(target == 4);
    assert!(source == 0);
}

#[test]
fn ut_ungraph_dfs_cycle_1() {
    let g = build(&[0, 1, 2, 3, 4], &[(0, 0), (0, 2), (0, 3), (1, 3), (2, 4), (3, 2), (3, 0)]);

    let cycle = g.get(&0).unwrap().dfs().search_cycle(&g.snapshot()).unwrap().to_vec_nodes();

    assert!(cycle[0] == 0);
    assert!(cycle[1] == 0);
}

#[test]
fn ut_ungraph_dfs_cycle_2() {
    let g = search_graph();

    let cycle = g.get(&0).unwrap().dfs().search_cycle(&g.snapshot()).unwrap().to_vec_nodes();

    assert!(cycle[0] == 0);
    assert!(*cycle.last().unwrap() == 0);
}

#[test]
fn ut_ungraph_bfs_find_1() {
    let g = search_graph();

    let target = g.get(&0).unwrap().bfs().target(&4).search(&g.snapshot()).unwrap();

    let source = g.get(&4).unwrap().bfs().target(&0).search(&g.snapshot()).unwrap();

    assert!(target == 4);
    assert!(source == 0);
}

#[test]
fn ut_ungraph_bfs_cycle_1() {
    let g = build(&[0, 1, 2, 3, 4], &[(0, 0), (0, 2), (0, 3), (1, 3), (2, 4), (3, 2), (3, 0)]);

    let cycle = g.get(&0).unwrap().bfs().search_cycle(&g.snapshot()).unwrap().to_vec_nodes();

    assert!(cycle[0] == 0);
    assert!(cycle[1] == 0);
}

#[test]
fn ut_ungraph_bfs_cycle_2() {
    let g = search_graph();

    let cycle = g.get(&0).unwrap().bfs().search_cycle(&g.snapshot()).unwrap().to_vec_nodes();

    assert!(cycle[0] == 0);
    assert!(*cycle.last().unwrap() == 0);
}

#[test]
fn ungraph_links_both_ways() {
    let mut g = build(&[1, 2, 3], &[(1, 2)]);
    assert!(g.is_connected(&1, &2));
    assert!(g.is_connected(&2, &1));
    assert!(!g.is_connected(&1, &3));
    assert!(g.try_connect(&2, &1, ()).is_err());
    assert!(g.try_connect(&2, &3, ()).is_ok());
    assert_eq!(g.get(&2).unwrap().degree(), 2);
    assert!(!g.connect(&1, &9, ()));
}

#[test]
fn node_disconnect_removes_the_connection_in_both_directions() {
    let mut n1 = Node::new(1, ());
    let mut n2 = Node::new(2, ());
    n1.connect(&mut n2, ());
    assert!(n1.is_connected(&2));
    assert!(n1.disconnect(&mut n2).is_ok());
    assert!(!n1.is_connected(&2));
    assert!(!n2.is_connected(&1));
    assert!(n2.is_orphan());
    assert!(n1.disconnect(&mut n2).is_err());
}

#[test]
fn node_isolate_removes_every_connection() {
    let mut g: Graph<i32, (), ()> = Graph::new();
    for k in 1..5 {
        g.insert(Node::new(k, ()));
    }
    for k in 2..5 {
        g.connect(&1, &k, ());
        g.connect(&k, &1, ());
    }
    let mut n1 = g.remove(&1).unwrap();
    n1.isolate(&mut g);
    assert!(n1.is_orphan());
    for k in 2..5 {
        assert!(g.get(&k).unwrap().is_orphan());
    }
}
