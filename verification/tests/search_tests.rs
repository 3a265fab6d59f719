use gdsl::binode::{BiGraph, BiNode};
use gdsl::dinode::{DiGraph, DiNode};
use gdsl::ungraph;

fn bigraph<N: Copy>(nodes: &[(usize, N)], edges: &[(usize, usize)]) -> BiGraph<usize, N, ()> {
    let mut ns: Vec<BiNode<usize, N, ()>> = nodes.iter().map(|(k, n)| BiNode::new(*k, *n)).collect();
    for (u, v) in edges {
        let iu = ns.iter().position(|n| n.key() == u).unwrap();
        let iv = ns.iter().position(|n| n.key() == v).unwrap();
        if iu == iv {
            let mut other = BiNode::new(*v, *ns[iv].params());
            ns[iu].connect(&mut other, ());
        } else if iu < iv {
            let (a, b) = ns.split_at_mut(iv);
            a[iu].connect(&mut b[0], ());
        } else {
            let (a, b) = ns.split_at_mut(iu);
            b[0].connect(&mut a[iv], ());
        }
    }
    let mut g = BiGraph::new();
    for n in ns {
        assert!(g.insert(n));
    }
    g
}

#[test]
fn graph_search() {
    let g = bigraph(
        &[(0, ()), (1, ()), (2, ()), (3, ()), (4, ()), (5, ()), (6, ())],
        &[(0, 1), (0, 2), (0, 3), (1, 5), (2, 1), (2, 4), (2, 5), (3, 4), (3, 6), (4, 5)],
    );
    let root = g.get(&0).unwrap();

    assert!(root.search().bfs(&g, &5));
    assert!(root.search().dfs(&g, &5));

    let mut bfs = root.search();
    if bfs.bfs(&g, &5) {
        let path = bfs.node_path();
        assert!(path[0] == 0);
        assert!(path[1] == 1);
        assert!(path[2] == 5);
    } else {
        panic!();
    }

    let mut bfs = root.search();
    if bfs.bfs_map(&g, &5, &|_u: usize, _v: usize, _e: ()| true) {
        let path = bfs.node_path();
        assert!(path[0] == 0);
        assert!(path[1] == 1);
        assert!(path[2] == 5);
    } else {
        panic!();
    }

    let mut dfs = root.search();
    if dfs.dfs(&g, &5) {
        let path = dfs.node_path();
        assert!(path[0] == 0);
        assert!(path[1] == 3);
        assert!(path[2] == 4);
        assert!(path[3] == 5);
    } else {
        panic!();
    }

    let mut dfs = root.search();
    if dfs.dfs_map(&g, &5, &|_u: usize, _v: usize, _e: ()| true) {
        let path = dfs.node_path();
        assert!(path[0] == 0);
        assert!(path[1] == 3);
        assert!(path[2] == 4);
        assert!(path[3] == 5);
    } else {
        panic!();
    }
}

#[test]
fn graph_search_pfs() {
    // A=0 .. G=6
    let g = bigraph(
        &[(0, 0u64), (1, 1), (2, 2), (3, 3), (4, 0), (5, 0), (6, 0)],
        &[(0, 1), (0, 2), (0, 3), (1, 4), (2, 6), (3, 5), (4, 6), (5, 1), (5, 6)],
    );
    let root = g.get(&0).unwrap();

    println!("\nDFS:\n");
    let mut s = root.search();
    if s.dfs(&g, &6) {
        for k in s.node_path() {
            println!("{}", k);
        }
    } else {
        panic!();
    }

    println!("\nBFS:\n");
    let mut s = root.search();
    if s.bfs(&g, &6) {
        for k in s.node_path() {
            println!("{}", k);
        }
    } else {
        panic!();
    }

    println!("\nPFS_MIN:\n");
    let mut s = root.search();
    if s.pfs_min(&g, &6) {
        for k in s.node_path() {
            println!("{}", k);
        }
    } else {
        panic!();
    }

    println!("\nPFS_MAX:\n");
    let mut s = root.search();
    if s.pfs_max(&g, &6) {
        for k in s.node_path() {
            println!("{}", k);
        }
    } else {
        panic!();
    }
}

#[test]
fn pfs_orders_by_node_parameters() {
    // 0 -> 1 (param 5), 0 -> 2 (param 1); 1 -> 3, 2 -> 3.
    let g = bigraph(&[(0, 0u64), (1, 5), (2, 1), (3, 9)], &[(0, 1), (0, 2), (1, 3), (2, 3)]);
    let root = g.get(&0).unwrap();
    let mut s = root.search();
    assert!(s.pfs_min(&g, &3));
    assert_eq!(s.node_path(), vec![0, 2, 3]);
    let mut s = root.search();
    assert!(s.pfs_max(&g, &3));
    assert_eq!(s.node_path(), vec![0, 1, 3]);
}

#[test]
fn tarjan() {
    let names = ["A", "B", "C", "D", "E", "F", "G", "H"];
    let edges = [
        ("A", "B"),
        ("A", "E"),
        ("B", "F"),
        ("C", "B"),
        ("C", "D"),
        ("C", "G"),
        ("D", "G"),
        ("E", "A"),
        ("E", "F"),
        ("F", "C"),
        ("F", "G"),
        ("G", "H"),
        ("H", "D"),
    ];
    let mut nodes: Vec<DiNode<&str, u64, ()>> = names.iter().map(|k| DiNode::new(*k, 0)).collect();
    for (u, v) in edges.iter() {
        let iu = names.iter().position(|k| k == u).unwrap();
        let iv = names.iter().position(|k| k == v).unwrap();
        if iu < iv {
            let (a, b) = nodes.split_at_mut(iv);
            a[iu].connect(&mut b[0], ());
        } else {
            let (a, b) = nodes.split_at_mut(iu);
            b[0].connect(&mut a[iv], ());
        }
    }
    let mut g = DiGraph::new();
    for n in nodes {
        g.insert(n);
    }
}

#[test]
fn djikstra() {
    let mut g = ungraph::Graph::<usize, usize, usize>::new();
    for k in 0..9 {
        g.insert(ungraph::Node::new(k, usize::MAX));
    }
    let edges = [
        (0, 1, 4),
        (0, 7, 8),
        (1, 2, 8),
        (1, 7, 11),
        (7, 8, 7),
        (7, 6, 1),
        (8, 6, 6),
        (2, 8, 2),
        (2, 5, 4),
        (2, 3, 7),
        (3, 4, 9),
        (3, 5, 14),
        (5, 4, 10),
    ];
    for (u, v, w) in edges.iter() {
        g.connect(u, v, *w);
    }
    for k in 0..9 {
        let n = g.get(&k).unwrap();
        for e in n.iter() {
            println!("{} -> {} ({})", e.0, e.1, e.2);
        }
    }
}

#[test]
fn dinode_graph_views() {
    let mut a = DiNode::new(1usize, 10u64);
    let mut b = DiNode::new(2usize, 20u64);
    let mut c = DiNode::new(3usize, 30u64);
    a.connect(&mut b, 7u8);
    assert!(!a.try_connect(&mut b, 8u8));
    assert!(a.try_connect(&mut c, 9u8));
    let out = a.outbound();
    assert_eq!(out.len(), 2);
    assert_eq!(out[0].decomp(), (1, 2, 7));
    assert_eq!(b.find_inbound(&1).unwrap().decomp(), (1, 2, 7));
    assert!(b.find_inbound(&3).is_none());
    assert_eq!(a.find_outbound(&3).unwrap().target(), 3);
    let _weak = out[1].downgrade();
    let mut g = DiGraph::new();
    assert!(g.insert(a));
    assert!(g.insert(b));
    assert!(g.insert(c));
    assert_eq!(g.len(), 3);
    assert_eq!(g.roots().len(), 1);
    assert_eq!(g.leaves().len(), 2);
    assert_eq!(g.orphans().len(), 0);
    // depth first along the first edge to a new node only: 1 -> 2 ends there
    let mut s = g.get(&1).unwrap().search();
    assert!(!s.dfs(&g, &3));
    let mut s = g.get(&1).unwrap().search();
    assert!(s.bfs(&g, &3));
    let p = s.edge_path();
    assert_eq!(p.len(), 1);
    assert_eq!(p[0].source(), 1);
    assert_eq!(p[0].target(), 3);
    assert_eq!(*p[0].params(), 9);
    let mut removed = g.remove(&2).unwrap();
    assert_eq!(*removed.key(), 2);
    removed.isolate(&mut g);
    assert!(removed.inbound().is_empty());
    assert!(!g.contains(&2));
    // node 1's record of its edge to 2 is gone too
    assert!(g.get(&1).unwrap().outbound().iter().all(|e| e.target() != 2));
}

#[test]
fn dinode_disconnect_removes_the_last_parallel_edge() {
    let mut a = DiNode::new(1usize, ());
    let mut b = DiNode::new(2usize, ());
    a.connect(&mut b, 10u8);
    a.connect(&mut b, 20u8);
    assert!(a.disconnect(&mut b));
    let out = a.outbound();
    assert_eq!(out.len(), 1);
    assert_eq!(out[0].decomp(), (1, 2, 10));
    let inb = b.inbound();
    assert_eq!(inb.len(), 1);
    assert_eq!(inb[0].decomp(), (1, 2, 10));
    assert!(a.disconnect(&mut b));
    assert!(!a.disconnect(&mut b));
    assert!(a.outbound().is_empty());
}

#[test]
fn node_search_appends_to_its_edge_tree() {
    let mut a = DiNode::new(1usize, ());
    let mut b = DiNode::new(2usize, ());
    let mut c = DiNode::new(3usize, ());
    a.connect(&mut b, ());
    b.connect(&mut c, ());
    let mut g = DiGraph::new();
    g.insert(a);
    g.insert(b);
    g.insert(c);
    let mut s = g.get(&1).unwrap().search();
    assert!(s.bfs(&g, &2));
    assert_eq!(s.edge_path().len(), 1);
    assert!(s.bfs(&g, &3));
    // the second run's edges follow those of the first
    let p = s.edge_path();
    assert_eq!(p.len(), 2);
    assert_eq!(p[0].source(), 1);
    assert_eq!(p[1].target(), 3);
}

#[test]
fn node_searches_report_unreachable_targets() {
    let mut a = DiNode::new(1usize, 5u32);
    let mut b = DiNode::new(2usize, 6u32);
    let c = DiNode::new(3usize, 7u32);
    a.connect(&mut b, ());
    let mut g = DiGraph::new();
    g.insert(a);
    g.insert(b);
    g.insert(c);
    let mut s = g.get(&1).unwrap().search();
    assert!(!s.bfs(&g, &3));
    assert!(!s.pfs_min(&g, &3));
    assert!(!s.pfs_max(&g, &3));
    assert!(s.bfs(&g, &2));
}

#[test]
fn dinode_graph_isolate_clears_every_record_of_the_node() {
    let mut a = DiNode::new(1usize, ());
    let mut b = DiNode::new(2usize, ());
    let mut c = DiNode::new(3usize, ());
    a.connect(&mut b, ());
    b.connect(&mut c, ());
    c.connect(&mut a, ());
    let mut g = DiGraph::new();
    g.insert(a);
    g.insert(b);
    g.insert(c);
    g.isolate(&2);
    let b = g.get(&2).unwrap();
    assert!(b.outbound().is_empty());
    assert!(b.inbound().is_empty());
    let a = g.get(&1).unwrap();
    assert!(a.outbound().is_empty());
    assert_eq!(a.inbound().len(), 1);
    let c = g.get(&3).unwrap();
    assert!(c.inbound().is_empty());
    assert_eq!(c.outbound().len(), 1);
}

#[test]
fn node_search_path_passes_no_node_twice() {
    let mut a = DiNode::new(1usize, ());
    let mut b = DiNode::new(2usize, ());
    let mut c = DiNode::new(3usize, ());
    let mut d = DiNode::new(4usize, ());
    a.connect(&mut b, ());
    b.connect(&mut c, ());
    c.connect(&mut a, ());
    b.connect(&mut d, ());
    c.connect(&mut d, ());
    let mut g = DiGraph::new();
    g.insert(a);
    g.insert(b);
    g.insert(c);
    g.insert(d);
    let mut s = g.get(&1).unwrap().search();
    assert!(s.bfs(&g, &4));
    let nodes = s.node_path();
    assert_eq!(nodes[0], 1);
    assert_eq!(nodes[nodes.len() - 1], 4);
    for i in 0..nodes.len() {
        for j in i + 1..nodes.len() {
            assert_ne!(nodes[i], nodes[j]);
        }
    }
}

#[test]
fn dinode_isolate_clears_the_neighbours_records() {
    let mut a = DiNode::new(1u64, ());
    let mut b = DiNode::new(2u64, ());
    a.connect(&mut b, ());
    let mut g = DiGraph::new();
    g.insert(b);
    a.isolate(&mut g);
    assert!(a.outbound().is_empty());
    let b = g.get(&2).unwrap();
    assert!(b.inbound().is_empty());
}

fn ranked_digraph() -> DiGraph<u64, u64, ()> {
    // 0 (value 0) -> 1 (value 1), 0 -> 2 (value 5), 1 -> 3, 2 -> 3 (value 9)
    let mut r = DiNode::new(0u64, 0u64);
    let mut a = DiNode::new(1u64, 1u64);
    let mut b = DiNode::new(2u64, 5u64);
    let mut t = DiNode::new(3u64, 9u64);
    r.connect(&mut a, ());
    r.connect(&mut b, ());
    a.connect(&mut t, ());
    b.connect(&mut t, ());
    let mut g = DiGraph::new();
    assert!(g.insert(r));
    assert!(g.insert(a));
    assert!(g.insert(b));
    assert!(g.insert(t));
    g
}

#[test]
fn dinode_pfs_expands_by_rank() {
    let g = ranked_digraph();
    let root = g.get(&0).unwrap();

    let mut s = root.search();
    assert!(s.pfs_max(&g, &3));
    assert_eq!(s.node_path(), vec![0, 2, 3]);

    let mut s = root.search();
    assert!(s.pfs_min(&g, &3));
    assert_eq!(s.node_path(), vec![0, 1, 3]);

    let mut s = root.search();
    assert!(s.pfs_max_map(&g, &3, &|_u: u64, _v: u64, _e: ()| true));
    assert_eq!(s.node_path(), vec![0, 2, 3]);

    let mut s = root.search();
    assert!(s.pfs_min_map(&g, &3, &|_u: u64, _v: u64, _e: ()| true));
    assert_eq!(s.node_path(), vec![0, 1, 3]);
}

#[test]
fn dinode_bfs_finds_a_shortest_path() {
    // 0 -> 1 -> 2 -> 3 and 0 -> 3: breadth first takes the direct edge,
    // depth first the long way.
    let mut n: Vec<DiNode<u64, (), ()>> = (0..4).map(|k| DiNode::new(k, ())).collect();
    let (a, rest) = n.split_at_mut(1);
    let (b, rest) = rest.split_at_mut(1);
    let (c, d) = rest.split_at_mut(1);
    a[0].connect(&mut b[0], ());
    b[0].connect(&mut c[0], ());
    c[0].connect(&mut d[0], ());
    a[0].connect(&mut d[0], ());
    let mut g = DiGraph::new();
    for x in n {
        assert!(g.insert(x));
    }
    let root = g.get(&0).unwrap();
    let mut s = root.search();
    assert!(s.bfs(&g, &3));
    assert_eq!(s.node_path(), vec![0, 3]);
    assert_eq!(s.edge_path().len(), 1);
    let mut s = root.search();
    assert!(s.dfs(&g, &3));
    assert_eq!(s.node_path(), vec![0, 1, 2, 3]);
}

#[test]
fn node_path_lists_the_nodes_of_the_edge_path() {
    let g = ranked_digraph();
    let mut s = g.get(&0).unwrap().search();
    assert!(s.bfs(&g, &3));
    let edges = s.edge_path();
    let nodes = s.node_path();
    assert_eq!(nodes.len(), edges.len() + 1);
    assert_eq!(nodes[0], edges[0].source());
    for (k, e) in edges.iter().enumerate() {
        assert_eq!(nodes[k + 1], e.target());
    }
}
