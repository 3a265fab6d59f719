use gdsl::digraph::{Graph, Node};

fn build(n: usize, edges: &[(usize, usize)]) -> Graph<usize, (), ()> {
    let mut g = Graph::new();
    for k in 0..n {
        g.insert(Node::new(k, ()));
    }
    for (u, v) in edges {
        assert!(g.connect(u, v, ()));
    }
    g
}

#[test]
fn ut_digraph_scc() {
    let g = build(
        10,
        &[(0, 1), (1, 2), (2, 0), (3, 4), (4, 5), (5, 3), (6, 7), (7, 8), (8, 6), (9, 9)],
    );

    let mut scc = g.scc();

    scc.sort_by(|a, b| a.len().cmp(&b.len()));

    assert!(scc.len() == 4);
    assert!(scc[0].len() == 1);
    assert!(scc[1].len() == 3);
    assert!(scc[2].len() == 3);
    assert!(scc[3].len() == 3);
}

#[test]
fn scc_of_a_chain_is_single_nodes() {
    let g = build(3, &[(0, 1), (1, 2)]);
    let scc = g.scc();
    assert_eq!(scc.len(), 3);
    for c in &scc {
        assert_eq!(c.len(), 1);
    }
}

#[test]
fn doc_header_digraph() {
    let g = build(5, &[(0, 1), (0, 2), (0, 3), (1, 3), (2, 4), (3, 2), (3, 0)]);

    let cycle = g.get(&0).unwrap().bfs().search_cycle(&g.snapshot()).unwrap().to_vec_nodes();

    assert!(cycle[0] == 0);
    assert!(cycle[1] == 3);
    assert!(cycle[2] == 0);
}

#[test]
fn scc_lists_every_node_in_exactly_one_component() {
    let g = build(6, &[(0, 1), (1, 0), (1, 2), (2, 3), (3, 2), (3, 4), (4, 4), (5, 0)]);
    let scc = g.scc();
    for k in 0..6usize {
        let holders = scc.iter().filter(|c| c.contains(&k)).count();
        assert_eq!(holders, 1);
    }
    let total: usize = scc.iter().map(|c| c.len()).sum();
    assert_eq!(total, 6);
}
