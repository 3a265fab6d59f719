use gdsl::digraph::{Edge, Graph, Node};
use std::collections::{HashSet, VecDeque};

#[test]
fn doctest_dinode_manual_bfs() {
    let mut g: Graph<usize, (), ()> = Graph::new();
    for k in 0..6 {
        g.insert(Node::new(k, ()));
    }
    for (u, v) in [(0, 1), (0, 2), (0, 3), (1, 4), (2, 5), (3, 4), (3, 5)].iter() {
        g.connect(u, v, ());
    }

    let mut visited = HashSet::new();
    let mut queue = VecDeque::new();

    queue.push_back(0usize);
    visited.insert(0usize);

    while let Some(u) = queue.pop_front() {
        for Edge(_, v, _) in g.get(&u).unwrap().iter_out() {
            if !visited.contains(&v) {
                if v == 4 {
                    return;
                }
                visited.insert(v);
                queue.push_back(v);
            }
        }
    }
    panic!();
}

#[test]
fn mod_test_digraph_bfs() {
    let mut g: Graph<usize, (), ()> = Graph::new();
    for k in 0..5 {
        g.insert(Node::new(k, ()));
    }
    for (u, v) in [(0, 1), (0, 2), (0, 3), (1, 3), (2, 4), (3, 2)].iter() {
        g.connect(u, v, ());
    }

    let path = g.get(&0).unwrap().bfs().target(&4).search_path(&g.snapshot()).unwrap().to_vec_nodes();

    assert!(path[0] == 0);
    assert!(path[1] == 2);
    assert!(path[2] == 4);
}

#[test]
fn doctest_dinode() {
    let mut a = Node::new(0x1usize, "A");
    let mut b = Node::new(0x2usize, "B");
    let mut c = Node::new(0x4usize, "C");

    a.connect(&mut b, 0.42);
    a.connect(&mut c, 1.7);
    b.connect(&mut c, 0.09);
    c.connect(&mut b, 12.9);

    let Edge(u, v, e) = a.iter_out()[0];

    assert!(u == *a.key());
    assert!(v == *b.key());
    assert!(e == 0.42);
}

#[test]
fn doctest_dinode_new() {
    let n1 = Node::<usize, char, ()>::new(1, 'A');

    assert!(*n1.key() == 1);
    assert!(*n1.value() == 'A');
}

#[test]
fn doctest_dinode_connect() {
    let mut n1 = Node::<usize, (), f64>::new(1, ());
    let mut n2 = Node::<usize, (), f64>::new(2, ());

    n1.connect(&mut n2, 4.20);

    assert!(n1.is_connected(n2.key()));
}

#[test]
fn doctest_dinode_try_connect() {
    let mut n1 = Node::<usize, (), ()>::new(1, ());
    let mut n2 = Node::<usize, (), ()>::new(2, ());

    match n1.try_connect(&mut n2, ()) {
        Ok(_) => assert!(n1.is_connected(n2.key())),
        Err(_) => panic!("n1 should be connected to n2"),
    }

    match n1.try_connect(&mut n2, ()) {
        Ok(_) => panic!("n1 should be connected to n2"),
        Err(_) => assert!(n1.is_connected(n2.key())),
    }
}

#[test]
fn doctest_dinode_disconnect() {
    let mut n1 = Node::<usize, (), ()>::new(1, ());
    let mut n2 = Node::<usize, (), ()>::new(2, ());

    n1.connect(&mut n2, ());

    assert!(n1.is_connected(n2.key()));

    if n1.disconnect(&mut n2).is_err() {
        panic!("n1 should be connected to n2");
    }

    assert!(!n1.is_connected(n2.key()));
}

#[test]
fn doctest_dinode_isolate() {
    let mut g: Graph<usize, (), ()> = Graph::new();
    for k in 1..5 {
        g.insert(Node::new(k, ()));
    }
    for (u, v) in [(1, 2), (1, 3), (1, 4), (2, 1), (3, 1), (4, 1)].iter() {
        g.connect(u, v, ());
    }

    assert!(g.is_connected(&1, &2));
    assert!(g.is_connected(&1, &3));
    assert!(g.is_connected(&1, &4));

    g.isolate(&1);

    assert!(g.get(&1).unwrap().is_orphan());
    assert!(g.get(&2).unwrap().is_orphan());
}
