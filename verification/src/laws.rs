//! Properties that relate the graph operations to one another, stated over
//! the models their contracts use and proved once for all inputs.
use vstd::prelude::*;
use crate::adjacent::{has_key, first_with_key, is_first_with_key, lemma_first_with_key, without_key, last_with_key, is_last_with_key, lemma_last_with_key};
use crate::digraph::{
    NodeModel, Edge, has_node, distinct_keys, connected_in, with_edge, without_edge, cut_off, remove_first,
};
use crate::ungraph::{linked_in, adjacent_to};
use crate::search::{is_walk, walk_nodes, backtracked};
use crate::flow::{FlowEdge, max_flow_outcome};
use crate::heap::{ordered, least_of, less};

verus! {

broadcast use vstd::seq_lib::group_seq_properties;

/// Once a pair with key `k` is appended, the list has a pair with key `k`.
proof fn lemma_push_has_key<K, E>(s: Seq<(K, E)>, k: K, e: E)
    ensures
        has_key(s.push((k, e)), k),
{
    assert(s.push((k, e))[s.len() as int].0 == k);
}

/// Appending keeps every key that was there.
proof fn lemma_push_keeps_key<K, E>(s: Seq<(K, E)>, x: (K, E), k: K)
    requires
        has_key(s, k),
    ensures
        has_key(s.push(x), k),
{
    let i = choose|i: int| 0 <= i < s.len() && s[i].0 == k;
    assert(s.push(x)[i] == s[i]);
}

/// Removing the first pair with key `k` from a list that had none before
/// the appended pair `(k, e)` gives back the list.
proof fn lemma_remove_first_pushed<K, E>(s: Seq<(K, E)>, k: K, e: E)
    requires
        !has_key(s, k),
    ensures
        remove_first(s.push((k, e)), k) == s,
{
    let t = s.push((k, e));
    assert(is_first_with_key(t, k, s.len() as int)) by {
        assert forall|j: int| 0 <= j < s.len() implies t[j].0 != k by {
            assert(t[j] == s[j]);
        }
    }
    lemma_first_with_key(t, k, s.len() as int);
    assert(t.remove(s.len() as int) =~= s);
}

/// A list without key `k` has no pair with key `k`, and keeps every other
/// key.
proof fn lemma_without_key<K, E>(s: Seq<(K, E)>, k: K, a: K)
    ensures
        !has_key(without_key(s, k), k),
        a != k ==> (has_key(without_key(s, k), a) <==> has_key(s, a)),
{
    let w = without_key(s, k);
    s.filter_lemma(|p: (K, E)| p.0 != k);
    assert(w == s.filter(|p: (K, E)| p.0 != k));
    if has_key(w, k) {
        let i = choose|i: int| 0 <= i < w.len() && w[i].0 == k;
        assert(w[i].0 != k);
    }
    if a != k {
        if has_key(s, a) {
            let i = choose|i: int| 0 <= i < s.len() && s[i].0 == a;
            assert(w.contains(s[i]));
            let j = choose|j: int| 0 <= j < w.len() && w[j] == s[i];
            assert(w[j].0 == a);
        }
        if has_key(w, a) {
            let i = choose|i: int| 0 <= i < w.len() && w[i].0 == a;
            assert(w.contains(w[i]));
            s.lemma_filter_contains_rev(|p: (K, E)| p.0 != k, w[i]);
            assert(s.contains(w[i]));
            let j = choose|j: int| 0 <= j < s.len() && s[j] == w[i];
            assert(s[j].0 == a);
        }
    }
}

/// After `connect(u, v, e)` on a graph holding `u`, the graph has an edge
/// `u -> v`; a second `try_connect(u, v, ..)` is therefore refused.
pub proof fn law_connect_links<K, N, E>(s: Seq<NodeModel<K, N, E>>, u: K, v: K, e: E)
    requires
        has_node(s, u),
    ensures
        connected_in(s.map_values(|n: NodeModel<K, N, E>| with_edge(n, u, v, e)), u, v),
{
    let after = s.map_values(|n: NodeModel<K, N, E>| with_edge(n, u, v, e));
    let i = choose|i: int| 0 <= i < s.len() && #[trigger] s[i].0 == u;
    assert(after[i] == with_edge(s[i], u, v, e));
    lemma_push_has_key(s[i].2, v, e);
    assert(after[i].2 == s[i].2.push((v, e)));
    assert(has_key(after[i].2, v));
}

/// Adding an edge keeps every edge the graph had.
pub proof fn law_connect_keeps_links<K, N, E>(s: Seq<NodeModel<K, N, E>>, u: K, v: K, e: E, a: K, b: K)
    requires
        connected_in(s, a, b),
    ensures
        connected_in(s.map_values(|n: NodeModel<K, N, E>| with_edge(n, u, v, e)), a, b),
{
    let after = s.map_values(|n: NodeModel<K, N, E>| with_edge(n, u, v, e));
    let i = choose|i: int| 0 <= i < s.len() && s[i].0 == a && #[trigger] has_key(s[i].2, b);
    assert(after[i] == with_edge(s[i], u, v, e));
    if s[i].0 == u {
        lemma_push_keeps_key(s[i].2, (v, e), b);
    }
    assert(has_key(after[i].2, b));
}

/// `disconnect(u, v)` undoes `connect(u, v, e)` when `u` had no edge to
/// `v` and `v` no record of one from `u`.
pub proof fn law_disconnect_undoes_connect<K, N, E>(s: Seq<NodeModel<K, N, E>>, u: K, v: K, e: E)
    requires
        forall|i: int| 0 <= i < s.len() && s[i].0 == u ==> !has_key(#[trigger] s[i].2, v),
        forall|i: int| 0 <= i < s.len() && s[i].0 == v ==> !has_key(#[trigger] s[i].3, u),
    ensures
        s.map_values(|n: NodeModel<K, N, E>| with_edge(n, u, v, e)).map_values(
            |n: NodeModel<K, N, E>| without_edge(n, u, v),
        ) == s,
{
    let mid = s.map_values(|n: NodeModel<K, N, E>| with_edge(n, u, v, e));
    let back = mid.map_values(|n: NodeModel<K, N, E>| without_edge(n, u, v));
    assert forall|i: int| 0 <= i < s.len() implies #[trigger] back[i] == s[i] by {
        assert(mid[i] == with_edge(s[i], u, v, e));
        if s[i].0 == u {
            lemma_remove_first_pushed(s[i].2, v, e);
        }
        if s[i].0 == v {
            lemma_remove_first_pushed(s[i].3, u, e);
        }
    }
    assert(back =~= s);
}

/// After `isolate(k)`, no node records an edge to or from `k`, the node
/// `k` itself has no edge, and every edge between other nodes is kept.
pub proof fn law_isolate_cuts_off<K, N, E>(s: Seq<NodeModel<K, N, E>>, k: K)
    ensures
        ({
            let after = s.map_values(|n: NodeModel<K, N, E>| cut_off(n, k));
            &&& forall|i: int| 0 <= i < after.len() ==> !has_key(#[trigger] after[i].2, k) && !has_key(after[i].3, k)
            &&& forall|i: int| 0 <= i < after.len() && #[trigger] after[i].0 == k ==> after[i].2.len() == 0 && after[i].3.len() == 0
            &&& forall|a: K, b: K| a != k && b != k && #[trigger] connected_in(s, a, b) ==> connected_in(after, a, b)
        }),
{
    let after = s.map_values(|n: NodeModel<K, N, E>| cut_off(n, k));
    assert forall|i: int| 0 <= i < after.len() implies !has_key(#[trigger] after[i].2, k) && !has_key(after[i].3, k) by {
        assert(after[i] == cut_off(s[i], k));
        lemma_without_key(s[i].2, k, k);
        lemma_without_key(s[i].3, k, k);
    }
    assert forall|a: K, b: K| a != k && b != k && #[trigger] connected_in(s, a, b) implies connected_in(after, a, b) by {
        let i = choose|i: int| 0 <= i < s.len() && s[i].0 == a && #[trigger] has_key(s[i].2, b);
        assert(after[i] == cut_off(s[i], k));
        lemma_without_key(s[i].2, k, b);
        assert(has_key(after[i].2, b));
    }
}

/// After inserting a node whose key is new, the graph holds its key, the
/// keys stay distinct, and every node that was there still is.
pub proof fn law_insert_then_contains<K, N, E>(s: Seq<NodeModel<K, N, E>>, n: NodeModel<K, N, E>, k: K)
    requires
        distinct_keys(s),
        !has_node(s, n.0),
    ensures
        has_node(s.push(n), n.0),
        distinct_keys(s.push(n)),
        has_node(s, k) ==> has_node(s.push(n), k),
{
    assert(s.push(n)[s.len() as int].0 == n.0);
    if has_node(s, k) {
        let i = choose|i: int| 0 <= i < s.len() && #[trigger] s[i].0 == k;
        assert(s.push(n)[i] == s[i]);
    }
    assert forall|i: int, j: int| 0 <= i < s.len() + 1 && 0 <= j < s.len() + 1 && i != j implies s.push(n)[i].0 != s.push(n)[j].0 by {
        if i < s.len() && j < s.len() {
        } else if i < s.len() {
            assert(s[i].0 == s.push(n)[i].0);
        } else {
            assert(s[j].0 == s.push(n)[j].0);
        }
    }
}

/// After removing the node with key `k`, the graph no longer holds `k` and
/// its keys stay distinct.
pub proof fn law_remove_then_absent<K, N, E>(s: Seq<NodeModel<K, N, E>>, i: int)
    requires
        distinct_keys(s),
        0 <= i < s.len(),
    ensures
        !has_node(s.remove(i), s[i].0),
        distinct_keys(s.remove(i)),
{
    let t = s.remove(i);
    if has_node(t, s[i].0) {
        let j = choose|j: int| 0 <= j < t.len() && #[trigger] t[j].0 == s[i].0;
        if j < i {
            assert(t[j] == s[j]);
        } else {
            assert(t[j] == s[j + 1]);
        }
    }
    assert forall|a: int, b: int| 0 <= a < t.len() && 0 <= b < t.len() && a != b implies t[a].0 != t[b].0 by {
        let sa = if a < i { a } else { a + 1 };
        let sb = if b < i { b } else { b + 1 };
        assert(t[a] == s[sa]);
        assert(t[b] == s[sb]);
    }
}

/// In an undirected graph, after `connect(u, v, e)` each of `u` and `v`
/// records the link with the other.
pub proof fn law_ungraph_link_both_ways<K, N, E>(s: Seq<NodeModel<K, N, E>>, u: K, v: K, e: E)
    requires
        has_node(s, u),
        has_node(s, v),
    ensures
        linked_in(s.map_values(|n: NodeModel<K, N, E>| with_edge(n, u, v, e)), u, v),
        linked_in(s.map_values(|n: NodeModel<K, N, E>| with_edge(n, u, v, e)), v, u),
{
    let after = s.map_values(|n: NodeModel<K, N, E>| with_edge(n, u, v, e));
    let i = choose|i: int| 0 <= i < s.len() && #[trigger] s[i].0 == u;
    let j = choose|j: int| 0 <= j < s.len() && #[trigger] s[j].0 == v;
    assert(after[i] == with_edge(s[i], u, v, e));
    assert(after[j] == with_edge(s[j], u, v, e));
    lemma_push_has_key(s[i].2, v, e);
    lemma_push_has_key(s[j].3, u, e);
    assert(adjacent_to(after[i], v));
    assert(adjacent_to(after[j], u));
}

/// In an undirected graph, after `isolate(k)` no node is linked with `k`.
pub proof fn law_ungraph_isolate_unlinks<K, N, E>(s: Seq<NodeModel<K, N, E>>, k: K, a: K)
    ensures
        !linked_in(s.map_values(|n: NodeModel<K, N, E>| cut_off(n, k)), a, k),
{
    let after = s.map_values(|n: NodeModel<K, N, E>| cut_off(n, k));
    if linked_in(after, a, k) {
        let i = choose|i: int| 0 <= i < after.len() && after[i].0 == a && #[trigger] adjacent_to(after[i], k);
        assert(after[i] == cut_off(s[i], k));
        lemma_without_key(s[i].2, k, k);
        lemma_without_key(s[i].3, k, k);
    }
}

/// For two nodes, `disconnect` undoes `connect` when the first had no edge
/// to the second and the second no record of one from the first.
pub proof fn law_node_disconnect_undoes_connect<K, N, E>(a: NodeModel<K, N, E>, b: NodeModel<K, N, E>, e: E)
    requires
        !has_key(a.2, b.0),
        !has_key(b.3, a.0),
    ensures
        has_key(a.2.push((b.0, e)), b.0),
        first_with_key(a.2.push((b.0, e)), b.0) == Some(a.2.len() as int),
        a.2.push((b.0, e)).remove(a.2.len() as int) == a.2,
        first_with_key(b.3.push((a.0, e)), a.0) == Some(b.3.len() as int),
        b.3.push((a.0, e)).remove(b.3.len() as int) == b.3,
{
    lemma_push_has_key(a.2, b.0, e);
    lemma_remove_first_pushed(a.2, b.0, e);
    lemma_remove_first_pushed(b.3, a.0, e);
    let t = a.2.push((b.0, e));
    assert(is_first_with_key(t, b.0, a.2.len() as int)) by {
        assert forall|j: int| 0 <= j < a.2.len() implies t[j].0 != b.0 by {
            assert(t[j] == a.2[j]);
        }
    }
    lemma_first_with_key(t, b.0, a.2.len() as int);
    let w = b.3.push((a.0, e));
    assert(is_first_with_key(w, a.0, b.3.len() as int)) by {
        assert forall|j: int| 0 <= j < b.3.len() implies w[j].0 != a.0 by {
            assert(w[j] == b.3[j]);
        }
    }
    lemma_first_with_key(w, a.0, b.3.len() as int);
    assert(t.remove(a.2.len() as int) =~= a.2);
    assert(w.remove(b.3.len() as int) =~= b.3);
}

/// Reversing an edge twice gives it back.
pub proof fn law_reverse_twice<K, E>(x: Edge<K, E>)
    ensures
        Edge(Edge(x.1, x.0, x.2).1, Edge(x.1, x.0, x.2).0, Edge(x.1, x.0, x.2).2) == x,
{
}

/// The nodes along a walk start where the walk starts and end where it
/// ends, one more than its edges.
pub proof fn law_walk_nodes_ends<K, E>(keys: Seq<K>, adj: Seq<Vec<(K, E)>>, p: Seq<(K, K, E)>, from: K, to: K)
    requires
        is_walk(keys, adj, p, from, to),
    ensures
        walk_nodes(p).len() == p.len() + 1,
        walk_nodes(p)[0] == from,
        walk_nodes(p)[walk_nodes(p).len() - 1] == to,
{
}

/// Running Edmonds-Karp again from the same source to the same target
/// pushes nothing and leaves the flows as they are: the first run left no
/// residual walk.
pub proof fn law_max_flow_second_run_pushes_nothing(
    n: nat,
    e0: Seq<FlowEdge>,
    e1: Seq<FlowEdge>,
    e2: Seq<FlowEdge>,
    si: usize,
    ti: usize,
    r1: u64,
    r2: u64,
)
    requires
        max_flow_outcome(n, e0, e1, si, ti, r1),
        max_flow_outcome(n, e1, e2, si, ti, r2),
        si != ti,
    ensures
        r2 == 0,
        e2 == e1,
{
}

/// For the self-contained nodes (`DiNode`, `BiNode`, `UnNode`),
/// `a.disconnect(b)` right after `a.connect(b, e)` gives both nodes back
/// their lists: the edge it removes is the last one recorded on each side,
/// which is the one just added, whatever edges were there before.
pub proof fn law_self_contained_disconnect_undoes_connect<K, N, E>(a: NodeModel<K, N, E>, b: NodeModel<K, N, E>, e: E)
    ensures
        last_with_key(b.3.push((a.0, e)), a.0) == Some(b.3.len() as int),
        b.3.push((a.0, e)).remove(b.3.len() as int) == b.3,
        last_with_key(a.2.push((b.0, e)), b.0) == Some(a.2.len() as int),
        a.2.push((b.0, e)).remove(a.2.len() as int) == a.2,
{
    let w = b.3.push((a.0, e));
    assert(is_last_with_key(w, a.0, b.3.len() as int));
    lemma_last_with_key(w, a.0, b.3.len() as int);
    let t = a.2.push((b.0, e));
    assert(is_last_with_key(t, b.0, a.2.len() as int));
    lemma_last_with_key(t, b.0, a.2.len() as int);
    assert(w.remove(b.3.len() as int) =~= b.3);
    assert(t.remove(a.2.len() as int) =~= a.2);
}

/// A node is among the orphans of a graph exactly when it is a node of the
/// graph with no edge recorded either way.
pub proof fn law_orphans_have_no_edges<K, N, E>(g: Seq<NodeModel<K, N, E>>, n: NodeModel<K, N, E>)
    ensures
        g.filter(|m: NodeModel<K, N, E>| m.2.len() == 0 && m.3.len() == 0).contains(n) <==> g.contains(n) && n.2.len() == 0 && n.3.len()
            == 0,
{
    broadcast use vstd::seq_lib::group_filter_ensures;
    let fl = g.filter(|m: NodeModel<K, N, E>| m.2.len() == 0 && m.3.len() == 0);
    if fl.contains(n) {
        g.lemma_filter_contains_rev(|m: NodeModel<K, N, E>| m.2.len() == 0 && m.3.len() == 0, n);
        let i = choose|i: int| 0 <= i < fl.len() && fl[i] == n;
        assert(fl[i].2.len() == 0 && fl[i].3.len() == 0);
    }
    if g.contains(n) && n.2.len() == 0 && n.3.len() == 0 {
        let i = choose|i: int| 0 <= i < g.len() && g[i] == n;
        assert(fl.contains(g[i]));
    }
}

/// What `MinHeap::peek` shows and what `MinHeap::pop` then gives back are
/// both least values of the heap: neither is greater than the other.
pub proof fn law_peek_agrees_with_pop<T: Ord>(s: Seq<T>, x: T, y: T)
    requires
        ordered::<T>(),
        least_of(x, s),
        least_of(y, s),
        s.contains(x),
        s.contains(y),
    ensures
        !less(x, y) && !less(y, x),
{
    let i = choose|i: int| 0 <= i < s.len() && s[i] == x;
    let j = choose|j: int| 0 <= j < s.len() && s[j] == y;
    assert(!less(s[j], x));
    assert(!less(s[i], y));
}

/// The node path of a search lists the nodes along its edge path: the
/// first edge's source, then where each edge ends, one more node than
/// there are edges.
pub proof fn law_node_path_follows_edge_path<K, E>(t: Seq<(K, K, E)>)
    requires
        t.len() > 0,
    ensures
        backtracked(t).len() > 0,
        walk_nodes(backtracked(t)).len() == backtracked(t).len() + 1,
        walk_nodes(backtracked(t))[0] == backtracked(t)[0].0,
        forall|k: int| 0 <= k < backtracked(t).len() ==> #[trigger] walk_nodes(backtracked(t))[k + 1] == backtracked(t)[k].1,
{
    let p = backtracked(t);
    let full = seq![t[t.len() - 1]] + crate::search::back_from(t, t.len() - 1, t[t.len() - 1].0);
    assert(p.len() == full.len());
    assert(p.len() > 0);
    assert forall|k: int| 0 <= k < p.len() implies #[trigger] walk_nodes(p)[k + 1] == p[k].1 by {
        assert(walk_nodes(p)[k + 1] == p.map_values(|x: (K, K, E)| x.1)[k]);
    }
}

/// The orphans are exactly the roots that are also leaves: filtering the
/// roots for leaves gives the orphans, in the same order, and a node is an
/// orphan just when it is a root and a leaf.
pub proof fn law_orphans_are_roots_and_leaves<K, N, E>(g: Seq<NodeModel<K, N, E>>, n: NodeModel<K, N, E>)
    ensures
        g.filter(|m: NodeModel<K, N, E>| m.2.len() == 0 && m.3.len() == 0) == g.filter(|m: NodeModel<K, N, E>| m.3.len() == 0).filter(
            |m: NodeModel<K, N, E>| m.2.len() == 0,
        ),
        g.filter(|m: NodeModel<K, N, E>| m.2.len() == 0 && m.3.len() == 0).contains(n) <==> g.filter(|m: NodeModel<K, N, E>| m.3.len() == 0).contains(
            n,
        ) && g.filter(|m: NodeModel<K, N, E>| m.2.len() == 0).contains(n),
    decreases g.len(),
{
    broadcast use vstd::seq_lib::group_filter_ensures;
    let orphan = |m: NodeModel<K, N, E>| m.2.len() == 0 && m.3.len() == 0;
    let root = |m: NodeModel<K, N, E>| m.3.len() == 0;
    let leaf = |m: NodeModel<K, N, E>| m.2.len() == 0;
    if g.len() > 0 {
        let h = g.drop_last();
        let x = g.last();
        law_orphans_are_roots_and_leaves(h, n);
        assert(g == h.push(x));
        h.lemma_filter_push(x, orphan);
        h.lemma_filter_push(x, root);
        h.filter(root).lemma_filter_push(x, leaf);
    } else {
        assert(g.filter(orphan) =~= g);
        assert(g.filter(root) =~= g);
        assert(g.filter(root).filter(leaf) =~= g);
    }
    law_orphans_have_no_edges(g, n);
    if g.filter(root).contains(n) {
        g.lemma_filter_contains_rev(root, n);
    }
    if g.filter(leaf).contains(n) {
        g.lemma_filter_contains_rev(leaf, n);
    }
    if g.contains(n) && n.3.len() == 0 {
        let i = choose|i: int| 0 <= i < g.len() && g[i] == n;
        assert(g.filter(root).contains(g[i]));
    }
    if g.contains(n) && n.2.len() == 0 {
        let i = choose|i: int| 0 <= i < g.len() && g[i] == n;
        assert(g.filter(leaf).contains(g[i]));
    }
}

} // verus!
