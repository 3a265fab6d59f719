use gdsl::digraph;
use gdsl::order::{NodeOrder, Order};
use gdsl::ungraph;

fn ungraph_of<N: Copy, E: Copy>(nodes: &[(i32, N)], edges: &[(i32, i32, E)]) -> ungraph::Graph<i32, N, E> {
    let mut g = ungraph::Graph::new();
    for (k, n) in nodes {
        assert!(g.insert(ungraph::Node::new(*k, *n)));
    }
    for (u, v, e) in edges {
        assert!(g.connect(u, v, *e));
    }
    g
}

fn digraph_of<N: Copy, E: Copy>(nodes: &[(i32, N)], edges: &[(i32, i32, E)]) -> digraph::Graph<i32, N, E> {
    let mut g = digraph::Graph::new();
    for (k, n) in nodes {
        assert!(g.insert(digraph::Node::new(*k, *n)));
    }
    for (u, v, e) in edges {
        assert!(g.connect(u, v, *e));
    }
    g
}

#[test]
fn test_ungraph_ordering_comprehensive() {
    let g = ungraph_of(
        &[(1, "root"), (2, "left"), (3, "right"), (4, "leaf1"), (5, "leaf2"), (6, "leaf3")],
        &[(1, 2, "1-2"), (1, 3, "1-3"), (2, 4, "2-4"), (3, 5, "3-5"), (3, 6, "3-6")],
    );
    let s = g.snapshot();
    let n1 = g.get(&1).unwrap();

    let preorder_nodes = n1.order().pre().search_nodes(&s);
    println!("Ungraph PreOrder nodes: {:?}", preorder_nodes);

    let preorder_edges = n1.order().pre().search_edges(&s);
    let preorder_edge_keys: Vec<_> = preorder_edges.iter().map(|e| (e.0, e.1)).collect();
    println!("Ungraph PreOrder edges: {:?}", preorder_edge_keys);

    let postorder_nodes = n1.order().post().search_nodes(&s);
    println!("Ungraph PostOrder nodes: {:?}", postorder_nodes);

    let postorder_edges = n1.order().post().search_edges(&s);
    let postorder_edge_keys: Vec<_> = postorder_edges.iter().map(|e| (e.0, e.1)).collect();
    println!("Ungraph PostOrder edges: {:?}", postorder_edge_keys);

    assert!(preorder_nodes.len() == 6);
    assert!(postorder_nodes.len() == 6);
    assert!(preorder_edges.len() == 5);
    assert!(postorder_edges.len() == 5);

    assert_eq!(preorder_nodes[0], 1);
    assert_eq!(*postorder_nodes.last().unwrap(), 1);
}

#[test]
fn test_digraph_ordering_comprehensive() {
    let g = digraph_of(
        &[(1, "root"), (2, "mid1"), (3, "mid2"), (4, "leaf1"), (5, "leaf2")],
        &[(1, 2, "1->2"), (1, 3, "1->3"), (2, 4, "2->4"), (2, 5, "2->5"), (3, 5, "3->5")],
    );
    let s = g.snapshot();
    let n1 = g.get(&1).unwrap();

    let preorder_nodes = n1.preorder().search_nodes(&s);
    println!("Digraph PreOrder nodes: {:?}", preorder_nodes);

    let preorder_edges = n1.preorder().search_edges(&s);
    let preorder_edge_keys: Vec<_> = preorder_edges.iter().map(|e| (e.0, e.1)).collect();
    println!("Digraph PreOrder edges: {:?}", preorder_edge_keys);

    let postorder_nodes = n1.postorder().search_nodes(&s);
    println!("Digraph PostOrder nodes: {:?}", postorder_nodes);

    let postorder_edges = n1.postorder().search_edges(&s);
    let postorder_edge_keys: Vec<_> = postorder_edges.iter().map(|e| (e.0, e.1)).collect();
    println!("Digraph PostOrder edges: {:?}", postorder_edge_keys);

    assert!(preorder_nodes.len() >= 1);
    assert!(preorder_edges.len() >= 0);

    assert_eq!(preorder_nodes[0], 1);
}

#[test]
fn test_ordering_with_filters() {
    let g = ungraph_of(&[(1, 1), (2, 2), (3, 3), (4, 4)], &[(1, 2, 10), (1, 3, 20), (2, 4, 30)]);
    let s = g.snapshot();

    let filtered_edges = g
        .get(&1)
        .unwrap()
        .order()
        .pre()
        .search_edges_filter(&s, &|_u: i32, _v: i32, e: i32| e > 15);

    println!(
        "Filtered edges (weight > 15): {:?}",
        filtered_edges.iter().map(|e| (e.0, e.1, e.2)).collect::<Vec<_>>()
    );

    assert!(filtered_edges.len() <= 2);
    for edge in &filtered_edges {
        assert!(edge.2 > 15);
    }
}

#[test]
fn test_ordering_empty_graph() {
    let g = ungraph_of::<&str, ()>(&[(1, "single")], &[]);
    let s = g.snapshot();
    let n1 = g.get(&1).unwrap();

    let preorder_nodes = n1.order().pre().search_nodes(&s);
    let preorder_edges = n1.order().pre().search_edges(&s);

    assert_eq!(preorder_nodes.len(), 1);
    assert_eq!(preorder_edges.len(), 0);
    assert_eq!(preorder_nodes[0], 1);
}

#[test]
fn test_ordering_cycle() {
    let g = ungraph_of(&[(1, "a"), (2, "b"), (3, "c")], &[(1, 2, "1-2"), (2, 3, "2-3"), (3, 1, "3-1")]);
    let s = g.snapshot();

    let preorder_keys = g.get(&1).unwrap().order().pre().search_nodes(&s);
    println!("Cycle PreOrder nodes: {:?}", preorder_keys);

    assert_eq!(preorder_keys.len(), 3);

    let mut unique_keys = preorder_keys.clone();
    unique_keys.sort();
    unique_keys.dedup();
    assert_eq!(unique_keys.len(), 3);
}

#[test]
fn ut_digraph_order() {
    let g = digraph_of(&[(1, ()), (2, ()), (3, ())], &[(1, 2, ()), (2, 3, ()), (3, 1, ())]);
    let s = g.snapshot();
    let n1 = g.get(&1).unwrap();

    let order = n1.preorder().search_nodes(&s);

    assert!(order[0] == 1);
    assert!(order[1] == 2);
    assert!(order[2] == 3);

    let order = n1.postorder().search_nodes(&s);

    assert!(order[0] == 3);
    assert!(order[1] == 2);
    assert!(order[2] == 1);
}

#[test]
fn order_listings_from_one_root() {
    let g = digraph_of(
        &[(1, ()), (2, ()), (3, ()), (4, ())],
        &[(1, 2, ()), (1, 3, ()), (2, 4, ())],
    );
    let s = g.snapshot();
    let mut o = Order::new(&1);
    assert_eq!(o.search_nodes(&s), vec![1, 2, 4, 3]);
    o = o.post();
    assert_eq!(o.search_nodes(&s), vec![4, 2, 3, 1]);
    let edges = Order::new(&1).search_edges(&s);
    assert_eq!(edges, vec![(2, 1, ()), (3, 1, ()), (4, 2, ())]);
    // missing root: listed alone, no edge
    assert_eq!(Order::new(&9).search_nodes(&s), vec![9]);
    assert!(Order::new(&9).search_edges(&s).is_empty());
    let _kinds = [NodeOrder::PreOrder, NodeOrder::PostOrder, NodeOrder::InOrder, NodeOrder::LevelOrder];
}

#[test]
fn every_order_lists_each_reachable_node_once() {
    let g = digraph_of(
        &[(0, ()), (1, ()), (2, ()), (3, ()), (4, ()), (5, ())],
        &[(0, 1, ()), (1, 2, ()), (2, 0, ()), (2, 3, ()), (3, 1, ()), (5, 0, ())],
    );
    let s = g.snapshot();
    for o in [Order::new(&0), Order::new(&0).pre(), Order::new(&0).post()] {
        let mut nodes = o.search_nodes(&s);
        nodes.sort();
        assert_eq!(nodes, vec![0, 1, 2, 3]);
    }
    let edges = Order::new(&0).search_edges(&s);
    assert_eq!(edges.len(), 3);
}

#[test]
fn preorder_follows_the_latest_open_node() {
    // 1 -> 2, 1 -> 3, 2 -> 4, 4 -> 3: depth first reaches 3 through 4,
    // after 4, where a level listing would put it before 4.
    let g = digraph_of(&[(1, ()), (2, ()), (3, ()), (4, ())], &[(1, 2, ()), (1, 3, ()), (2, 4, ()), (4, 3, ())]);
    let s = g.snapshot();
    let n1 = g.get(&1).unwrap();
    assert_eq!(n1.order().pre().search_nodes(&s), vec![1, 2, 4, 3]);
    assert_eq!(n1.order().post().search_nodes(&s), vec![4, 2, 3, 1]);
}
