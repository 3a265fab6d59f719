use gdsl::dinode::DiNode;
use gdsl::digraph;
use gdsl::graph_search::{BfsPath, DfsPath};
use gdsl::ungraph;
use gdsl::Empty;
use std::collections::{HashSet, VecDeque};

fn digraph_of<K: Copy + PartialEq, N: Copy, E: Copy>(nodes: &[(K, N)], edges: &[(K, K, E)]) -> digraph::Graph<K, N, E> {
    let mut g = digraph::Graph::new();
    for (k, n) in nodes {
        assert!(g.insert(digraph::Node::new(*k, *n)));
    }
    for (u, v, e) in edges {
        assert!(g.connect(u, v, *e));
    }
    g
}

fn ungraph_of<K: Copy + PartialEq, N: Copy, E: Copy>(nodes: &[(K, N)], edges: &[(K, K, E)]) -> ungraph::Graph<K, N, E> {
    let mut g = ungraph::Graph::new();
    for (k, n) in nodes {
        assert!(g.insert(ungraph::Node::new(*k, *n)));
    }
    for (u, v, e) in edges {
        assert!(g.connect(u, v, *e));
    }
    g
}

fn letters_nodes() -> Vec<(char, Empty)> {
    vec![('A', Empty), ('B', Empty), ('C', Empty), ('D', Empty), ('E', Empty)]
}

fn letters_edges() -> Vec<(char, char, Empty)> {
    vec![
        ('A', 'C', Empty),
        ('B', 'E', Empty),
        ('B', 'A', Empty),
        ('C', 'D', Empty),
        ('C', 'B', Empty),
        ('D', 'E', Empty),
    ]
}

#[test]
fn manual_bfs() {
    let g = digraph_of(&letters_nodes(), &letters_edges());

    let mut queue = VecDeque::new();
    let mut visited = HashSet::new();

    queue.push_back('A');

    'search: while let Some(u) = queue.pop_front() {
        for digraph::Edge(_, v, _) in g.get(&u).unwrap().iter_out() {
            if visited.contains(&v) == false {
                queue.push_back(v);
                println!("searching {} -> {}", u, v);
                if v == 'E' {
                    println!("Target found!");
                    break 'search;
                }
                visited.insert(v);
            }
        }
    }
}

#[test]
fn graph_tests_test_graph_macro() {
    let g1 = digraph_of(
        &[("A", Empty), ("B", Empty), ("C", Empty), ("D", Empty)],
        &[("A", "B", Empty), ("A", "C", Empty), ("B", "C", Empty), ("C", "D", Empty)],
    );
    let g2 = digraph_of(
        &[("A", 42), ("B", 42), ("C", 42), ("D", 42)],
        &[("A", "B", Empty), ("A", "C", Empty), ("B", "C", Empty), ("C", "D", Empty)],
    );
    let g3 = digraph_of(
        &[("A", Empty), ("B", Empty), ("C", Empty), ("D", Empty)],
        &[("A", "B", 42), ("A", "C", 42), ("B", "C", 42), ("C", "D", 42)],
    );
    let g4 = digraph_of(
        &[("A", 42), ("B", 42), ("C", 42), ("D", 42)],
        &[
            ("A", "B", 3.14),
            ("A", "C", 3.14),
            ("A", "D", 3.14),
            ("B", "C", 3.14),
            ("B", "D", 3.14),
            ("C", "D", 3.14),
        ],
    );

    assert_eq!(g1.len(), 4);
    assert_eq!(g2.len(), 4);
    assert_eq!(g3.len(), 4);
    assert_eq!(g4.len(), 4);
}

#[test]
fn test_digraph_ungraph() {
    let digraph = digraph_of(&letters_nodes(), &letters_edges());
    let ungraph = ungraph_of(&letters_nodes(), &letters_edges());

    let mut bfs: BfsPath<char, Empty> = digraph.get(&'A').unwrap().bfs_path();
    assert!(bfs.search(&digraph.snapshot(), Some(&'E')));
    let path = bfs.node_path();
    assert!(path[0] == 'A');
    assert!(path[1] == 'C');
    assert!(path[2] == 'D');
    assert!(path[3] == 'E');

    let mut bfs: BfsPath<char, Empty> = ungraph.get(&'A').unwrap().bfs_path();
    assert!(bfs.search(&ungraph.snapshot(), Some(&'E')));
    let path = bfs.node_path();
    assert!(path[0] == 'A');
    assert!(path[1] == 'B');
    assert!(path[2] == 'E');
}

fn numbers() -> digraph::Graph<usize, Empty, Empty> {
    digraph_of(
        &[(0, Empty), (1, Empty), (2, Empty), (3, Empty), (4, Empty)],
        &[(0, 1, Empty), (0, 2, Empty), (0, 3, Empty), (1, 3, Empty), (2, 4, Empty), (3, 2, Empty)],
    )
}

#[test]
fn graph_tests_test_digraph_bfs() {
    let g = numbers();

    let mut bfs: BfsPath<usize, Empty> = g.get(&0).unwrap().bfs_path();
    if bfs.search(&g.snapshot(), Some(&4)) {
        let path = bfs.node_path();
        assert!(path[0] == 0);
        assert!(path[1] == 2);
        assert!(path[2] == 4);
    } else {
        panic!();
    }
}

#[test]
fn graph_tests_test_digraph_dfs() {
    let g = numbers();

    let mut dfs: DfsPath<usize, Empty> = g.get(&0).unwrap().dfs_path();
    if dfs.search(&g.snapshot(), Some(&4)) {
        let path = dfs.node_path();
        assert!(path[0] == 0);
        assert!(path[1] == 1);
        assert!(path[2] == 3);
        assert!(path[3] == 2);
        assert!(path[4] == 4);
    } else {
        panic!();
    }
}

#[test]
fn simple_graph() {
    let mut node_a = DiNode::new('A', 1);
    let mut node_b = DiNode::new('B', 2);
    let mut node_c = DiNode::new('C', 3);

    node_a.connect(&mut node_b, Empty);
    node_b.connect(&mut node_c, Empty);

    assert!(node_a.is_connected(node_b.key()));
    assert!(node_b.is_connected(node_c.key()));
    assert!(!node_a.is_connected(node_c.key()));
}

#[test]
fn search_paths_end_at_target_and_follow_edges() {
    let g = numbers();
    let mut bfs: BfsPath<usize, Empty> = BfsPath::new(&0);
    assert!(bfs.search(&g.snapshot(), Some(&4)));
    let p = bfs.edge_path();
    assert_eq!(p[0].0, 0);
    assert_eq!(p[p.len() - 1].1, 4);
    for w in p.windows(2) {
        assert_eq!(w[0].1, w[1].0);
        assert!(g.is_connected(&w[0].0, &w[0].1));
    }
    let mut none: BfsPath<usize, Empty> = BfsPath::new(&4);
    assert!(!none.search(&g.snapshot(), Some(&0)));
    assert!(none.node_path().is_empty());
}

#[test]
fn pfs_paths_follow_rank() {
    let g = digraph_of(
        &[(0u64, 0u64), (1, 1), (2, 5), (3, 9)],
        &[(0, 1, Empty), (0, 2, Empty), (1, 3, Empty), (2, 3, Empty)],
    );
    let s = g.snapshot_ranked();
    let mut p = g.get(&0).unwrap().pfs_max_path();
    assert!(p.search(&s, Some(&3)));
    assert_eq!(p.node_path(), vec![0, 2, 3]);
    let mut p = g.get(&0).unwrap().pfs_min_path();
    assert!(p.search(&s, Some(&3)));
    assert_eq!(p.node_path(), vec![0, 1, 3]);
}
