//! Flow networks and the Edmonds-Karp maximum flow. Every edge is added
//! with a reverse partner: edge `2k` runs `u -> v` with `cur = 0` and edge
//! `2k + 1` runs `v -> u` with `cur = max`; pushing flow along an edge moves
//! it from the edge's residual capacity `max - cur` to its partner's.
use vstd::prelude::*;
use crate::keys_compare;
use crate::search::{Snapshot, index_of_key, rooted, chained, edges_from, is_step, key_visited};
use crate::traverse::{
    Traverse, explored, is_traversal, directed_breadth_first_traversal, parallel_directed_breadth_first_traversal, backtrack_edges,
    fresh_targets, traversal_closed, settled, edge_settled, included,
};

verus! {

broadcast use vstd::seq_lib::group_seq_properties;

/// The capacity of an edge and the flow through it.
#[derive(Clone, Copy, Debug, PartialEq, Eq, Structural)]
pub struct Flow {
    pub max: u64,
    pub cur: u64,
}

/// An edge of a flow network: source index, target index, flow.
pub type FlowEdge = (usize, usize, Flow);

/// The partner of edge `e`.
pub open spec fn partner(e: int) -> int {
    if e % 2 == 0 { e + 1 } else { e - 1 }
}

/// The exec form of `partner`.
fn partner_of(e: usize) -> (r: usize)
    requires
        e % 2 == 1 || e < usize::MAX,
    ensures
        r == partner(e as int),
{
    if e % 2 == 0 { e + 1 } else { e - 1 }
}

/// Edges come in partner pairs with equal capacities whose flows add up to
/// the capacity; each node's list names edges that leave it.
pub open spec fn flow_wf(n: nat, edges: Seq<FlowEdge>, out: Seq<Vec<usize>>) -> bool {
    &&& edges.len() % 2 == 0
    &&& out.len() == n
    &&& forall|e: int| #![trigger edges[e]] 0 <= e < edges.len() ==> {
        &&& edges[e].0 < n
        &&& edges[e].1 < n
        &&& edges[e].2.cur <= edges[e].2.max
        &&& edges[partner(e)].0 == edges[e].1
        &&& edges[partner(e)].1 == edges[e].0
        &&& edges[partner(e)].2.max == edges[e].2.max
        &&& edges[e].2.cur + edges[partner(e)].2.cur == edges[e].2.max
    }
    &&& forall|u: int, k: int| #![trigger out[u]@[k]] 0 <= u < n && 0 <= k < out[u]@.len() ==> out[u]@[k] < edges.len()
        && edges[out[u]@[k] as int].0 == u
}

/// Each edge is listed among the edges leaving its source.
pub open spec fn edges_listed(edges: Seq<FlowEdge>, out: Seq<Vec<usize>>) -> bool {
    forall|e: int| #![trigger edges[e]] 0 <= e < edges.len() ==> out[edges[e].0 as int]@.contains(e as usize)
}

/// The share of edge `e` in the residual capacity leaving node `s`.
pub open spec fn out_share(e: FlowEdge, s: usize) -> int {
    if e.0 == s { e.2.max - e.2.cur } else { 0 }
}

/// The residual capacity of the edges leaving node `s`.
pub open spec fn residual_from(edges: Seq<FlowEdge>, s: usize) -> int
    decreases edges.len(),
{
    if edges.len() == 0 {
        0
    } else {
        residual_from(edges.drop_last(), s) + out_share(edges.last(), s)
    }
}

proof fn lemma_residual_update(edges: Seq<FlowEdge>, s: usize, i: int, x: FlowEdge)
    requires
        0 <= i < edges.len(),
    ensures
        residual_from(edges.update(i, x), s) == residual_from(edges, s) - out_share(edges[i], s) + out_share(x, s),
    decreases edges.len(),
{
    let u = edges.update(i, x);
    if i == edges.len() - 1 {
        assert(u.drop_last() == edges.drop_last());
    } else {
        lemma_residual_update(edges.drop_last(), s, i, x);
        assert(u.drop_last() == edges.drop_last().update(i, x));
    }
}

proof fn lemma_residual_nonneg(edges: Seq<FlowEdge>, s: usize)
    requires
        forall|e: int| #![trigger edges[e]] 0 <= e < edges.len() ==> edges[e].2.cur <= edges[e].2.max,
    ensures
        residual_from(edges, s) >= 0,
    decreases edges.len(),
{
    if edges.len() > 0 {
        lemma_residual_nonneg(edges.drop_last(), s);
        assert(edges.last() == edges[edges.len() - 1]);
    }
}

/// The nodes along a list of edge ids: where the first starts, then where
/// each ends.
pub open spec fn path_nodes(edges: Seq<FlowEdge>, ids: Seq<usize>) -> Seq<usize> {
    seq![edges[ids[0] as int].0] + ids.map_values(|id: usize| edges[id as int].1)
}

/// `ids` names edges that form a path from `s` to `t` through distinct
/// nodes, each with residual capacity left.
pub open spec fn augmenting(edges: Seq<FlowEdge>, ids: Seq<usize>, s: usize, t: usize) -> bool {
    &&& ids.len() > 0
    &&& forall|i: int| #![trigger ids[i]] 0 <= i < ids.len() ==> ids[i] < edges.len() && edges[ids[i] as int].2.cur
        < edges[ids[i] as int].2.max
    &&& edges[ids[0] as int].0 == s
    &&& edges[ids[ids.len() - 1] as int].1 == t
    &&& forall|i: int| #![trigger ids[i]] 0 <= i < ids.len() - 1 ==> edges[ids[i] as int].1 == edges[ids[i + 1] as int].0
    &&& path_nodes(edges, ids).no_duplicates()
}

/// `ids` names edges with residual capacity left that lead, one after the
/// other, from `s` to `t`.
pub open spec fn residual_walk(edges: Seq<FlowEdge>, ids: Seq<usize>, s: usize, t: usize) -> bool {
    &&& ids.len() > 0
    &&& forall|i: int| #![trigger ids[i]] 0 <= i < ids.len() ==> ids[i] < edges.len() && edges[ids[i] as int].2.cur
        < edges[ids[i] as int].2.max
    &&& edges[ids[0] as int].0 == s
    &&& edges[ids[ids.len() - 1] as int].1 == t
    &&& forall|i: int| #![trigger ids[i]] 0 <= i < ids.len() - 1 ==> edges[ids[i] as int].1 == edges[ids[i + 1] as int].0
}

/// `cut` holds `s` but not `t`, and every edge leaving it is saturated.
pub open spec fn saturated_cut(edges: Seq<FlowEdge>, cut: Set<usize>, s: usize, t: usize) -> bool {
    &&& cut.contains(s)
    &&& !cut.contains(t)
    &&& forall|e: int| #![trigger edges[e]] 0 <= e < edges.len() && cut.contains(edges[e].0) && !cut.contains(edges[e].1)
        ==> edges[e].2.cur == edges[e].2.max
}

/// No residual walk leads from `s` to `t`.
#[verifier::opaque]
pub open spec fn no_residual_walk(edges: Seq<FlowEdge>, s: usize, t: usize) -> bool {
    forall|ids: Seq<usize>| !#[trigger] residual_walk(edges, ids, s, t)
}

/// The position of `x` in `t`.
spec fn pos_in<A>(t: Seq<A>, x: A) -> int {
    choose|q: int| 0 <= q < t.len() && t[q] == x
}

/// Along a path backtracked through a tree whose edges end at distinct
/// nodes other than the root, each edge comes later in the tree than the
/// one before it.
proof fn lemma_backtrack_step<K, E>(t: Seq<(K, K, E)>, p: Seq<(K, K, E)>, root: K, m: int)
    requires
        fresh_targets(t, root),
        rooted(t, root),
        chained(p),
        edges_from(p, t),
        0 <= m < p.len() - 1,
    ensures
        0 <= pos_in(t, p[m]) < pos_in(t, p[m + 1]) < t.len(),
        t[pos_in(t, p[m])] == p[m],
        t[pos_in(t, p[m + 1])] == p[m + 1],
{
    assert(t.contains(p[m]));
    assert(t.contains(p[m + 1]));
    let a = pos_in(t, p[m]);
    let b = pos_in(t, p[m + 1]);
    assert(p[m].1 == p[m + 1].0);
    assert(t[a].1 != root);
    assert(t[b].0 != root);
    let q = choose|q: int| #![trigger t[q]] 0 <= q < b && q < t.len() && t[q].1 == t[b].0;
    if q < a {
        assert(t[q].1 != t[a].1);
    } else if a < q {
        assert(t[a].1 != t[q].1);
    }
}

proof fn lemma_backtrack_increasing<K, E>(t: Seq<(K, K, E)>, p: Seq<(K, K, E)>, root: K, a: int, b: int)
    requires
        fresh_targets(t, root),
        rooted(t, root),
        chained(p),
        edges_from(p, t),
        0 <= a < b < p.len(),
    ensures
        0 <= pos_in(t, p[a]) < pos_in(t, p[b]) < t.len(),
        t[pos_in(t, p[a])] == p[a],
        t[pos_in(t, p[b])] == p[b],
    decreases b - a,
{
    if b == a + 1 {
        lemma_backtrack_step(t, p, root, a);
    } else {
        lemma_backtrack_increasing(t, p, root, a, b - 1);
        lemma_backtrack_step(t, p, root, b - 1);
    }
}

/// Every node along such a path ends at most one of its edges, and none
/// ends at the root.
proof fn lemma_backtrack_simple<K, E>(t: Seq<(K, K, E)>, p: Seq<(K, K, E)>, root: K)
    requires
        fresh_targets(t, root),
        rooted(t, root),
        chained(p),
        edges_from(p, t),
    ensures
        forall|i: int| #![trigger p[i]] 0 <= i < p.len() ==> p[i].1 != root,
        forall|a: int, b: int| #![trigger p[a], p[b]] 0 <= a < b < p.len() ==> p[a].1 != p[b].1,
{
    assert forall|i: int| #![trigger p[i]] 0 <= i < p.len() implies p[i].1 != root by {
        assert(t.contains(p[i]));
        let q = choose|q: int| 0 <= q < t.len() && t[q] == p[i];
        assert(t[q].1 != root);
    }
    assert forall|a: int, b: int| #![trigger p[a], p[b]] 0 <= a < b < p.len() implies p[a].1 != p[b].1 by {
        lemma_backtrack_increasing(t, p, root, a, b);
        let qa = pos_in(t, p[a]);
        let qb = pos_in(t, p[b]);
        assert(t[qa].1 != t[qb].1);
    }
}

/// When a traversal through edges with residual capacity left, from
/// `si`, ends without reaching `ti`, no residual walk leads from `si` to
/// `ti`: every node along one would have been reached.
proof fn lemma_walk_reached<F: Fn(usize, usize, usize) -> Traverse>(
    n: nat,
    edges: Seq<FlowEdge>,
    out: Seq<Vec<usize>>,
    keys: Seq<usize>,
    adj: Seq<Vec<(usize, usize)>>,
    f: F,
    vis: Set<usize>,
    si: usize,
    ti: usize,
    ids: Seq<usize>,
    m: int,
)
    requires
        flow_wf(n, edges, out),
        edges_listed(edges, out),
        keys.len() == n,
        adj.len() == n,
        forall|i: int| 0 <= i < n ==> #[trigger] keys[i] == i,
        forall|u: int, k: int| 0 <= u < n && 0 <= k < out[u]@.len() ==> #[trigger] adj[u]@[k] == (edges[out[u]@[k] as int].1, out[u]@[k]),
        forall|u: int| 0 <= u < n ==> #[trigger] adj[u]@.len() == out[u]@.len(),
        traversal_closed(keys, adj, f, si, vis),
        forall|a: usize, b: usize, c: usize, x: Traverse| #[trigger] explored(f, a, b, c, x) ==> x == residual_choice(edges, ti, b, c),
        residual_walk(edges, ids, si, ti),
        0 <= m < ids.len(),
    ensures
        vis.contains(edges[ids[m] as int].1),
    decreases m,
{
    let id = ids[m];
    let u = edges[id as int].0;
    if m == 0 {
        assert(u == si);
    } else {
        lemma_walk_reached(n, edges, out, keys, adj, f, vis, si, ti, ids, m - 1);
        assert(edges[ids[m - 1] as int].1 == u);
    }
    assert(vis.contains(u));
    assert(edges[id as int].0 == u);
    assert(out[u as int]@.contains(id));
    let k = choose|k: int| 0 <= k < out[u as int]@.len() && out[u as int]@[k] == id;
    let v = edges[id as int].1;
    assert(adj[u as int]@[k] == (v, id));
    assert(settled(keys, adj, f, vis, u));
    assert(edge_settled(keys, f, vis, keys[u as int], adj[u as int]@[k]));
    assert(keys[u as int] == u);
    assert(keys[v as int] == v);
    if key_visited(keys, vis, v) {
        let w = choose|w: usize| #[trigger] vis.contains(w) && (w as int) < keys.len() && keys[w as int] == v;
        assert(keys[w as int] == w);
    } else if explored(f, u, v, id, Traverse::Skip) {
        assert(residual_choice(edges, ti, v, id) == Traverse::Skip);
    } else {
        assert(keys.contains(v));
    }
}

/// An edge from a reached node to one not reached is saturated.
proof fn lemma_edge_saturated<F: Fn(usize, usize, usize) -> Traverse>(
    n: nat,
    edges: Seq<FlowEdge>,
    out: Seq<Vec<usize>>,
    keys: Seq<usize>,
    adj: Seq<Vec<(usize, usize)>>,
    f: F,
    vis: Set<usize>,
    si: usize,
    ti: usize,
    id: usize,
)
    requires
        flow_wf(n, edges, out),
        edges_listed(edges, out),
        keys.len() == n,
        adj.len() == n,
        forall|i: int| 0 <= i < n ==> #[trigger] keys[i] == i,
        forall|u: int, k: int| 0 <= u < n && 0 <= k < out[u]@.len() ==> #[trigger] adj[u]@[k] == (edges[out[u]@[k] as int].1, out[u]@[k]),
        forall|u: int| 0 <= u < n ==> #[trigger] adj[u]@.len() == out[u]@.len(),
        traversal_closed(keys, adj, f, si, vis),
        forall|a: usize, b: usize, c: usize, x: Traverse| #[trigger] explored(f, a, b, c, x) ==> x == residual_choice(edges, ti, b, c),
        (id as int) < edges.len(),
        vis.contains(edges[id as int].0),
        !vis.contains(edges[id as int].1),
    ensures
        edges[id as int].2.cur == edges[id as int].2.max,
{
    let u = edges[id as int].0;
    let v = edges[id as int].1;
    assert(out[u as int]@.contains(id));
    let k = choose|k: int| 0 <= k < out[u as int]@.len() && out[u as int]@[k] == id;
    assert(adj[u as int]@[k] == (v, id));
    assert(settled(keys, adj, f, vis, u));
    assert(edge_settled(keys, f, vis, keys[u as int], adj[u as int]@[k]));
    assert(keys[u as int] == u);
    assert(keys[v as int] == v);
    assert(keys.contains(v));
    if key_visited(keys, vis, v) {
        let w = choose|w: usize| #[trigger] vis.contains(w) && (w as int) < keys.len() && keys[w as int] == v;
        assert(keys[w as int] == w);
    }
    assert(explored(f, u, v, id, Traverse::Skip));
    assert(residual_choice(edges, ti, v, id) == Traverse::Skip);
}

/// The target was not reached.
proof fn lemma_target_unreached<F: Fn(usize, usize, usize) -> Traverse>(
    n: nat,
    edges: Seq<FlowEdge>,
    out: Seq<Vec<usize>>,
    keys: Seq<usize>,
    adj: Seq<Vec<(usize, usize)>>,
    f: F,
    vis: Set<usize>,
    si: usize,
    ti: usize,
)
    requires
        flow_wf(n, edges, out),
        edges_listed(edges, out),
        keys.len() == n,
        adj.len() == n,
        forall|i: int| 0 <= i < n ==> #[trigger] keys[i] == i,
        forall|u: int, k: int| 0 <= u < n && 0 <= k < out[u]@.len() ==> #[trigger] adj[u]@[k] == (edges[out[u]@[k] as int].1, out[u]@[k]),
        forall|u: int| 0 <= u < n ==> #[trigger] adj[u]@.len() == out[u]@.len(),
        traversal_closed(keys, adj, f, si, vis),
        forall|a: usize, b: usize, c: usize, x: Traverse| #[trigger] explored(f, a, b, c, x) ==> x == residual_choice(edges, ti, b, c),
        si != ti,
        ti < n,
    ensures
        !vis.contains(ti),
{
    if vis.contains(ti) {
        assert(included(keys, f, ti));
        let (a, e) = choose|a: usize, e: usize| #[trigger] explored(f, a, keys[ti as int], e, Traverse::Include);
        assert(keys[ti as int] == ti);
        assert(residual_choice(edges, ti, ti, e) == Traverse::Include);
    }
}

/// The nodes a traversal through edges with residual capacity left
/// reached, when it ended without reaching `ti`, form a saturated cut.
proof fn lemma_saturated_cut<F: Fn(usize, usize, usize) -> Traverse>(
    n: nat,
    edges: Seq<FlowEdge>,
    out: Seq<Vec<usize>>,
    keys: Seq<usize>,
    adj: Seq<Vec<(usize, usize)>>,
    f: F,
    vis: Set<usize>,
    si: usize,
    ti: usize,
)
    requires
        flow_wf(n, edges, out),
        edges_listed(edges, out),
        keys.len() == n,
        adj.len() == n,
        forall|i: int| 0 <= i < n ==> #[trigger] keys[i] == i,
        forall|u: int, k: int| 0 <= u < n && 0 <= k < out[u]@.len() ==> #[trigger] adj[u]@[k] == (edges[out[u]@[k] as int].1, out[u]@[k]),
        forall|u: int| 0 <= u < n ==> #[trigger] adj[u]@.len() == out[u]@.len(),
        traversal_closed(keys, adj, f, si, vis),
        forall|a: usize, b: usize, c: usize, x: Traverse| #[trigger] explored(f, a, b, c, x) ==> x == residual_choice(edges, ti, b, c),
        edges.len() <= usize::MAX,
        si != ti,
        ti < n,
    ensures
        saturated_cut(edges, vis, si, ti),
{
    lemma_target_unreached(n, edges, out, keys, adj, f, vis, si, ti);
    assert forall|e: int| #![trigger edges[e]] 0 <= e < edges.len() && vis.contains(edges[e].0) && !vis.contains(edges[e].1)
        implies edges[e].2.cur == edges[e].2.max by {
        lemma_edge_saturated(n, edges, out, keys, adj, f, vis, si, ti, e as usize);
    }
}

proof fn lemma_no_residual_walk<F: Fn(usize, usize, usize) -> Traverse>(
    n: nat,
    edges: Seq<FlowEdge>,
    out: Seq<Vec<usize>>,
    keys: Seq<usize>,
    adj: Seq<Vec<(usize, usize)>>,
    f: F,
    vis: Set<usize>,
    si: usize,
    ti: usize,
)
    requires
        flow_wf(n, edges, out),
        edges_listed(edges, out),
        keys.len() == n,
        adj.len() == n,
        forall|i: int| 0 <= i < n ==> #[trigger] keys[i] == i,
        forall|u: int, k: int| 0 <= u < n && 0 <= k < out[u]@.len() ==> #[trigger] adj[u]@[k] == (edges[out[u]@[k] as int].1, out[u]@[k]),
        forall|u: int| 0 <= u < n ==> #[trigger] adj[u]@.len() == out[u]@.len(),
        traversal_closed(keys, adj, f, si, vis),
        forall|a: usize, b: usize, c: usize, x: Traverse| #[trigger] explored(f, a, b, c, x) ==> x == residual_choice(edges, ti, b, c),
        edges.len() <= usize::MAX,
        si != ti,
        ti < n,
    ensures
        forall|ids: Seq<usize>| !#[trigger] residual_walk(edges, ids, si, ti),
        saturated_cut(edges, vis, si, ti),
{
    lemma_saturated_cut(n, edges, out, keys, adj, f, vis, si, ti);
    assert forall|ids: Seq<usize>| !#[trigger] residual_walk(edges, ids, si, ti) by {
        if residual_walk(edges, ids, si, ti) {
            lemma_walk_reached(n, edges, out, keys, adj, f, vis, si, ti, ids, ids.len() - 1);
        }
    }
}

/// The path backtracked from the last edge of a traversal through edges
/// with residual capacity left, which stopped at an edge into `ti`, is an
/// augmenting path.
#[verifier::rlimit(40)]
proof fn lemma_path_augmenting<F: Fn(usize, usize, usize) -> Traverse>(
    n: nat,
    edges: Seq<FlowEdge>,
    out: Seq<Vec<usize>>,
    keys: Seq<usize>,
    adj: Seq<Vec<(usize, usize)>>,
    f: F,
    si: usize,
    ti: usize,
    tree: Seq<(usize, usize, usize)>,
    p: Seq<(usize, usize, usize)>,
    ids: Seq<usize>,
    nodes: Seq<usize>,
)
    requires
        flow_wf(n, edges, out),
        keys.len() == n,
        adj.len() == n,
        forall|i: int| 0 <= i < n ==> #[trigger] keys[i] == i,
        forall|u: int, k: int| 0 <= u < n && 0 <= k < out[u]@.len() ==> #[trigger] adj[u]@[k] == (edges[out[u]@[k] as int].1, out[u]@[k]),
        forall|u: int| 0 <= u < n ==> #[trigger] adj[u]@.len() == out[u]@.len(),
        forall|a: usize, b: usize, c: usize, x: Traverse| #[trigger] explored(f, a, b, c, x) ==> x == residual_choice(edges, ti, b, c),
        is_traversal(keys, adj, si, f, tree),
        tree.len() > 0,
        explored(f, tree[tree.len() - 1].0, tree[tree.len() - 1].1, tree[tree.len() - 1].2, Traverse::Finish),
        fresh_targets(tree, si),
        p.len() > 0,
        p[p.len() - 1] == tree[tree.len() - 1],
        chained(p),
        edges_from(p, tree),
        p[0].0 == si,
        ids.len() == p.len(),
        nodes.len() == p.len() + 1,
        nodes[0] == p[0].0,
        forall|m: int| #![trigger p[m]] 0 <= m < p.len() ==> ids[m] == p[m].2 && nodes[m + 1] == p[m].1,
    ensures
        augmenting(edges, ids, si, ti),
{
    lemma_nodes_distinct(tree, p, si, nodes);
    lemma_path_edges(n, edges, out, keys, adj, f, si, ti, tree, p, ids);
    let l = tree[tree.len() - 1];
    assert(explored(f, l.0, l.1, l.2, Traverse::Finish));
    assert(nodes =~= path_nodes(edges, ids));
    assert forall|m: int| #![trigger ids[m]] 0 <= m < ids.len() - 1 implies edges[ids[m] as int].1 == edges[ids[m + 1] as int].0 by {
        assert(p[m].1 == p[m + 1].0);
        assert(ids[m + 1] == p[m + 1].2);
    }
}

proof fn lemma_nodes_distinct(tree: Seq<(usize, usize, usize)>, p: Seq<(usize, usize, usize)>, si: usize, nodes: Seq<usize>)
    requires
        rooted(tree, si),
        fresh_targets(tree, si),
        p.len() > 0,
        chained(p),
        edges_from(p, tree),
        p[0].0 == si,
        nodes.len() == p.len() + 1,
        nodes[0] == p[0].0,
        forall|m: int| #![trigger p[m]] 0 <= m < p.len() ==> nodes[m + 1] == p[m].1,
    ensures
        nodes.no_duplicates(),
{
    lemma_backtrack_simple(tree, p, si);
    assert forall|a: int, b: int| 0 <= a < b < nodes.len() implies nodes[a] != nodes[b] by {
        assert(nodes[b] == p[b - 1].1);
        if a == 0 {
            assert(p[b - 1].1 != si);
        } else {
            assert(nodes[a] == p[a - 1].1);
            assert(p[a - 1].1 != p[b - 1].1);
        }
    }
}

proof fn lemma_path_edges<F: Fn(usize, usize, usize) -> Traverse>(
    n: nat,
    edges: Seq<FlowEdge>,
    out: Seq<Vec<usize>>,
    keys: Seq<usize>,
    adj: Seq<Vec<(usize, usize)>>,
    f: F,
    si: usize,
    ti: usize,
    tree: Seq<(usize, usize, usize)>,
    p: Seq<(usize, usize, usize)>,
    ids: Seq<usize>,
)
    requires
        flow_wf(n, edges, out),
        keys.len() == n,
        adj.len() == n,
        forall|i: int| 0 <= i < n ==> #[trigger] keys[i] == i,
        forall|u: int, k: int| 0 <= u < n && 0 <= k < out[u]@.len() ==> #[trigger] adj[u]@[k] == (edges[out[u]@[k] as int].1, out[u]@[k]),
        forall|u: int| 0 <= u < n ==> #[trigger] adj[u]@.len() == out[u]@.len(),
        forall|a: usize, b: usize, c: usize, x: Traverse| #[trigger] explored(f, a, b, c, x) ==> x == residual_choice(edges, ti, b, c),
        is_traversal(keys, adj, si, f, tree),
        edges_from(p, tree),
        ids.len() == p.len(),
        forall|m: int| #![trigger p[m]] 0 <= m < p.len() ==> ids[m] == p[m].2,
    ensures
        forall|m: int| #![trigger ids[m]] 0 <= m < ids.len() ==> ids[m] < edges.len() && edges[ids[m] as int].2.cur
            < edges[ids[m] as int].2.max && edges[ids[m] as int].0 == p[m].0 && edges[ids[m] as int].1 == p[m].1,
{
    assert forall|m: int| #![trigger ids[m]] 0 <= m < ids.len() implies ids[m] < edges.len() && edges[ids[m] as int].2.cur
        < edges[ids[m] as int].2.max && edges[ids[m] as int].0 == p[m].0 && edges[ids[m] as int].1 == p[m].1 by {
        assert(tree.contains(p[m]));
        let q = choose|q: int| 0 <= q < tree.len() && tree[q] == p[m];
        assert(tree[q] == p[m]);
        let (a, b, c) = p[m];
        assert(is_step(keys, adj, a, b, c));
        let w = choose|w: int| #![trigger adj[w]] 0 <= w < keys.len() && w < adj.len() && keys[w] == a && adj[w]@.contains((b, c));
        assert(keys[w] == w);
        let k = choose|k: int| 0 <= k < adj[w]@.len() && adj[w]@[k] == (b, c);
        assert(adj[w]@[k] == (edges[out[w]@[k] as int].1, out[w]@[k]));
        assert(out[w]@[k] < edges.len() && edges[out[w]@[k] as int].0 == w);
        assert(explored(f, a, b, c, Traverse::Include) || explored(f, a, b, c, Traverse::Finish));
    }
}

/// A flow network over nodes with distinct keys.
pub struct FlowGraph<K> {
    keys: Vec<K>,
    edges: Vec<FlowEdge>,
    out: Vec<Vec<usize>>,
}

impl<K: Copy + PartialEq> FlowGraph<K> {
    /// The node keys.
    pub closed spec fn node_keys(&self) -> Seq<K> {
        self.keys@
    }

    /// The edges, by id.
    pub closed spec fn edge_seq(&self) -> Seq<FlowEdge> {
        self.edges@
    }

    /// The well-formedness of the network.
    pub closed spec fn wf(&self) -> bool {
        &&& flow_wf(self.keys@.len(), self.edges@, self.out@)
        &&& edges_listed(self.edges@, self.out@)
        &&& self.keys@.no_duplicates()
    }

    /// An empty network.
    pub fn new() -> (g: Self)
        ensures
            g.wf(),
            g.node_keys() == Seq::<K>::empty(),
            g.edge_seq() == Seq::<FlowEdge>::empty(),
    {
        FlowGraph { keys: Vec::new(), edges: Vec::new(), out: Vec::new() }
    }

    /// Number of nodes.
    pub fn len(&self) -> (r: usize)
        ensures
            r == self.node_keys().len(),
    {
        self.keys.len()
    }

    /// Number of edges, partners included.
    pub fn edge_count(&self) -> (r: usize)
        ensures
            r == self.edge_seq().len(),
    {
        self.edges.len()
    }

    /// Edge `id` as source key, target key and flow.
    pub fn edge(&self, id: usize) -> (r: Option<(K, K, Flow)>)
        requires
            self.wf(),
        ensures
            match r {
                Some(x) => id < self.edge_seq().len() && x.0 == self.node_keys()[self.edge_seq()[id as int].0 as int]
                    && x.1 == self.node_keys()[self.edge_seq()[id as int].1 as int] && x.2 == self.edge_seq()[id as int].2,
                None => id >= self.edge_seq().len(),
            },
    {
        if id < self.edges.len() {
            let e = self.edges[id];
            assert(self.edges@[id as int] == e);
            Some((self.keys[e.0], self.keys[e.1], e.2))
        } else {
            None
        }
    }

    /// Adds a node with key `key` unless there is one; returns whether it
    /// was added.
    pub fn add_node(&mut self, key: K) -> (r: bool)
        requires
            keys_compare::<K>(),
            old(self).wf(),
        ensures
            final(self).wf(),
            r == !old(self).node_keys().contains(key),
            r ==> final(self).node_keys() == old(self).node_keys().push(key),
            !r ==> final(self).node_keys() == old(self).node_keys(),
            final(self).edge_seq() == old(self).edge_seq(),
    {
        match index_of_key(&self.keys, &key) {
            Some(_) => false,
            None => {
                self.keys.push(key);
                self.out.push(Vec::new());
                proof {
                    let n = self.keys@.len();
                    assert forall|u: int, k: int| #![trigger self.out@[u]@[k]] 0 <= u < n && 0 <= k < self.out@[u]@.len() implies self.out@[u]@[k] < self.edges@.len()
                        && self.edges@[self.out@[u]@[k] as int].0 == u by {
                        assert(u < n - 1);
                        assert(self.out@[u] == old(self).out@[u]);
                    }
                    assert forall|e: int| #![trigger self.edges@[e]] 0 <= e < self.edges@.len() implies self.out@[self.edges@[e].0 as int]@.contains(e as usize) by {
                        assert(old(self).out@[self.edges@[e].0 as int]@.contains(e as usize));
                        assert(self.out@[self.edges@[e].0 as int] == old(self).out@[self.edges@[e].0 as int]);
                    }
                }
                true
            },
        }
    }

    /// Index of the node with key `key`.
    pub fn index_of(&self, key: &K) -> (r: Option<usize>)
        requires
            keys_compare::<K>(),
        ensures
            match r {
                Some(i) => i < self.node_keys().len() && self.node_keys()[i as int] == *key,
                None => !self.node_keys().contains(*key),
            },
    {
        index_of_key(&self.keys, key)
    }
}

impl Flow {
    /// Adds an edge `s -> t` of capacity `amount` with no flow, and its
    /// partner `t -> s` of the same capacity, full. Returns false, changing
    /// nothing, when `s` or `t` is not a node.
    #[verifier::rlimit(40)]
    pub fn connect<K: Copy + PartialEq>(g: &mut FlowGraph<K>, s: &K, t: &K, amount: u64) -> (r: bool)
        requires
            keys_compare::<K>(),
            old(g).wf(),
        ensures
            final(g).wf(),
            final(g).node_keys() == old(g).node_keys(),
            r == (old(g).node_keys().contains(*s) && old(g).node_keys().contains(*t) && old(g).edge_seq().len() + 2 <= usize::MAX),
            !r ==> final(g).edge_seq() == old(g).edge_seq(),
            r ==> exists|si: usize, ti: usize|
                si < old(g).node_keys().len() && ti < old(g).node_keys().len() && old(g).node_keys()[si as int] == *s
                    && old(g).node_keys()[ti as int] == *t && final(g).edge_seq() == old(g).edge_seq().push(
                    (si, ti, Flow { max: amount, cur: 0 }),
                ).push((ti, si, Flow { max: amount, cur: amount })),
    {
        let si = match g.index_of(s) {
            Some(i) => i,
            None => {
                return false;
            },
        };
        let ti = match g.index_of(t) {
            Some(i) => i,
            None => {
                return false;
            },
        };
        if g.edges.len() > usize::MAX - 2 {
            return false;
        }
        let id = g.edges.len();
        let ghost e0 = g.edges@;
        let ghost o0 = g.out@;
        g.edges.push((si, ti, Flow { max: amount, cur: 0 }));
        g.edges.push((ti, si, Flow { max: amount, cur: amount }));
        g.out[si].push(id);
        let ghost o1 = g.out@;
        g.out[ti].push(id + 1);
        proof {
            assert(o1[si as int]@[o1[si as int]@.len() - 1] == id);
            assert(g.out@[si as int]@.contains(id)) by {
                let k = o1[si as int]@.len() - 1;
                assert(g.out@[si as int]@[k] == id);
            }
            assert(g.out@[ti as int]@[g.out@[ti as int]@.len() - 1] == id + 1);
        }
        proof {
            let n = g.keys@.len();
            let es = g.edges@;
            assert(es == e0.push((si, ti, Flow { max: amount, cur: 0 })).push((ti, si, Flow { max: amount, cur: amount })));
            assert forall|e: int| #![trigger es[e]] 0 <= e < es.len() implies {
                &&& es[e].0 < n
                &&& es[e].1 < n
                &&& es[e].2.cur <= es[e].2.max
                &&& es[partner(e)].0 == es[e].1
                &&& es[partner(e)].1 == es[e].0
                &&& es[partner(e)].2.max == es[e].2.max
                &&& es[e].2.cur + es[partner(e)].2.cur == es[e].2.max
            } by {
                if e < e0.len() {
                    assert(es[e] == e0[e]);
                    assert(partner(e) < e0.len());
                    assert(es[partner(e)] == e0[partner(e)]);
                }
            }
            assert forall|u: int, k: int| #![trigger g.out@[u]@[k]] 0 <= u < n && 0 <= k < g.out@[u]@.len() implies g.out@[u]@[k] < es.len()
                && es[g.out@[u]@[k] as int].0 == u by {
                if u != si && u != ti {
                    assert(g.out@[u] == o0[u]);
                    assert(es[o0[u]@[k] as int] == e0[o0[u]@[k] as int]);
                } else if u == si && u != ti {
                    if k < o0[u]@.len() {
                        assert(g.out@[u]@[k] == o0[u]@[k]);
                        assert(es[o0[u]@[k] as int] == e0[o0[u]@[k] as int]);
                    }
                } else if u == ti && u != si {
                    if k < o0[u]@.len() {
                        assert(g.out@[u]@[k] == o0[u]@[k]);
                        assert(es[o0[u]@[k] as int] == e0[o0[u]@[k] as int]);
                    }
                } else {
                    if k < o0[u]@.len() {
                        assert(g.out@[u]@[k] == o0[u]@[k]);
                        assert(es[o0[u]@[k] as int] == e0[o0[u]@[k] as int]);
                    }
                }
            }
            assert forall|e: int| #![trigger es[e]] 0 <= e < es.len() implies g.out@[es[e].0 as int]@.contains(e as usize) by {
                if e < e0.len() {
                    assert(es[e] == e0[e]);
                    let u = e0[e].0 as int;
                    assert(o0[u]@.contains(e as usize));
                    let k = choose|k: int| 0 <= k < o0[u]@.len() && o0[u]@[k] == e as usize;
                    assert(g.out@[u]@[k] == o0[u]@[k]);
                } else if e == e0.len() {
                    assert(es[e].0 == si);
                } else {
                    assert(es[e].0 == ti);
                }
            }
            assert(old(g).node_keys()[si as int] == *s && old(g).node_keys()[ti as int] == *t);
            assert(g.edge_seq() == old(g).edge_seq().push((si, ti, Flow { max: amount, cur: 0 })).push((ti, si, Flow { max: amount, cur: amount })));
        }
        true
    }
}

/// The explorer of the flow search: go through edges with residual
/// capacity left, and stop at one that reaches `t`.
pub open spec fn residual_choice(edges: Seq<FlowEdge>, t: usize, v: usize, id: usize) -> Traverse {
    if id < edges.len() && edges[id as int].2.cur < edges[id as int].2.max {
        if v == t { Traverse::Finish } else { Traverse::Include }
    } else {
        Traverse::Skip
    }
}

proof fn lemma_partner(e: int, len: int)
    requires
        0 <= e < len,
        len % 2 == 0,
    ensures
        0 <= partner(e) < len,
        partner(partner(e)) == e,
        partner(e) != e,
{
}

/// Along an augmenting path, the edges are distinct and none is the
/// partner of another; only the first leaves `s`, and no partner does.
proof fn lemma_augmenting_disjoint(n: nat, edges: Seq<FlowEdge>, out: Seq<Vec<usize>>, ids: Seq<usize>, s: usize, t: usize)
    requires
        flow_wf(n, edges, out),
        augmenting(edges, ids, s, t),
    ensures
        forall|i: int, j: int| 0 <= i < ids.len() && 0 <= j < ids.len() && i != j ==> #[trigger] ids[i] != #[trigger] ids[j],
        forall|i: int, j: int| #![trigger ids[i], ids[j]] 0 <= i < ids.len() && 0 <= j < ids.len() ==> ids[i] != partner(ids[j] as int),
        forall|i: int| 0 < i < ids.len() ==> edges[#[trigger] ids[i] as int].0 != s,
        forall|i: int| 0 <= i < ids.len() ==> edges[partner(#[trigger] ids[i] as int)].0 != s,
{
    let nodes = path_nodes(edges, ids);
    assert forall|i: int| 0 <= i < ids.len() implies #[trigger] edges[ids[i] as int].0 == nodes[i] && edges[ids[i] as int].1 == nodes[i + 1] by {
        if i > 0 {
            assert(edges[ids[i - 1] as int].1 == edges[ids[i] as int].0);
        }
    }
    assert forall|i: int, j: int| 0 <= i < ids.len() && 0 <= j < ids.len() && i != j implies #[trigger] ids[i] != #[trigger] ids[j] by {
        assert(edges[ids[i] as int].0 == nodes[i]);
        assert(edges[ids[j] as int].0 == nodes[j]);
    }
    assert forall|i: int, j: int| #![trigger ids[i], ids[j]] 0 <= i < ids.len() && 0 <= j < ids.len() implies ids[i] != partner(ids[j] as int) by {
        let e = ids[j] as int;
        assert(edges[e].0 == nodes[j] && edges[e].1 == nodes[j + 1]);
        assert(edges[ids[i] as int].0 == nodes[i] && edges[ids[i] as int].1 == nodes[i + 1]);
        if ids[i] == partner(e) {
            assert(edges[partner(e)].0 == edges[e].1);
            assert(edges[partner(e)].1 == edges[e].0);
            assert(nodes[i] == nodes[j + 1]);
            assert(nodes[i + 1] == nodes[j]);
        }
    }
    assert forall|i: int| 0 < i < ids.len() implies edges[#[trigger] ids[i] as int].0 != s by {
        assert(edges[ids[i] as int].0 == nodes[i]);
        assert(nodes[0] == s);
    }
    assert forall|i: int| 0 <= i < ids.len() implies edges[partner(#[trigger] ids[i] as int)].0 != s by {
        let e = ids[i] as int;
        assert(edges[e].1 == nodes[i + 1]);
        assert(nodes[0] == s);
        assert(edges[partner(e)].0 == edges[e].1);
    }
}

impl<K: Copy + PartialEq> FlowGraph<K> {
    /// The network as the flow search sees it: node `i` has key `i`, and
    /// its edges are `(target, edge id)` pairs.
    fn residual_snapshot(&self) -> (r: Snapshot<usize, usize>)
        requires
            self.wf(),
        ensures
            r.wf(),
            r.keys().len() == self.keys@.len(),
            forall|i: int| 0 <= i < r.keys().len() ==> #[trigger] r.keys()[i] == i,
            forall|u: int| 0 <= u < r.keys().len() ==> #[trigger] r.adj()[u]@.len() == self.out@[u]@.len(),
            forall|u: int, k: int| 0 <= u < r.keys().len() && 0 <= k < self.out@[u]@.len() ==> #[trigger] r.adj()[u]@[k]
                == (self.edges@[self.out@[u]@[k] as int].1, self.out@[u]@[k]),
    {
        let n = self.keys.len();
        let mut keys: Vec<usize> = Vec::new();
        let mut adj: Vec<Vec<(usize, usize)>> = Vec::new();
        let mut rank: Vec<usize> = Vec::new();
        let mut u: usize = 0;
        while u < n
            invariant
                self.wf(),
                n == self.keys@.len(),
                u <= n,
                keys@.len() == u,
                adj@.len() == u,
                rank@.len() == u,
                forall|i: int| 0 <= i < u ==> #[trigger] keys@[i] == i,
                forall|w: int| 0 <= w < u ==> #[trigger] adj@[w]@.len() == self.out@[w]@.len(),
                forall|w: int, k: int| 0 <= w < u && 0 <= k < self.out@[w]@.len() ==> #[trigger] adj@[w]@[k]
                    == (self.edges@[self.out@[w]@[k] as int].1, self.out@[w]@[k]),
            decreases n - u,
        {
            let list = &self.out[u];
            let mut row: Vec<(usize, usize)> = Vec::new();
            let mut k: usize = 0;
            while k < list.len()
                invariant
                    self.wf(),
                    n == self.keys@.len(),
                    u < n,
                    list@ == self.out@[u as int]@,
                    k <= list@.len(),
                    row@.len() == k,
                    forall|m: int| 0 <= m < k ==> #[trigger] row@[m] == (self.edges@[list@[m] as int].1, list@[m]),
                decreases list@.len() - k,
            {
                let id = list[k];
                assert(self.out@[u as int]@[k as int] == id);
                let e = self.edges[id];
                row.push((e.1, id));
                k = k + 1;
            }
            keys.push(u);
            adj.push(row);
            rank.push(0);
            u = u + 1;
        }
        Snapshot::from_parts(keys, adj, rank)
    }

    /// An augmenting path from node `si` to node `ti`: the path of a
    /// breadth-first traversal through edges with residual capacity left.
    /// `None` when the traversal does not reach `ti`; then no residual walk
    /// leads from `si` to `ti`.
    #[verifier::rlimit(60)]
    fn find_augmenting_path(&self, si: usize, ti: usize, parallel: bool) -> (r: Option<Vec<usize>>)
        requires
            self.wf(),
            si < self.keys@.len(),
            ti < self.keys@.len(),
        ensures
            r matches Some(ids) ==> augmenting(self.edges@, ids@, si, ti),
            r is None && si != ti ==> no_residual_walk(self.edges@, si, ti) && exists|cut: Set<usize>| saturated_cut(self.edges@, cut, si, ti),
    {
        broadcast use vstd::laws_eq::group_laws_eq;
        assert(keys_compare::<usize>());
        let snap = self.residual_snapshot();
        let edges = &self.edges;
        let explorer = |u: usize, v: usize, id: usize| -> (c: Traverse)
            ensures
                c == residual_choice(edges@, ti, v, id),
        {
            if id < edges.len() && edges[id].2.cur < edges[id].2.max {
                if v == ti {
                    Traverse::Finish
                } else {
                    Traverse::Include
                }
            } else {
                Traverse::Skip
            }
        };
        let res = if parallel {
            parallel_directed_breadth_first_traversal(&snap, &si, &explorer)
        } else {
            directed_breadth_first_traversal(&snap, &si, &explorer)
        };
        proof {
            assert forall|a: usize, b: usize, c: usize, x: Traverse| #[trigger] explored(explorer, a, b, c, x) implies x == residual_choice(
                edges@,
                ti,
                b,
                c,
            ) by {}
        }
        let edge_count = edges.len();
        match res {
            None => {
                proof {
                    assert(edge_count == self.edges@.len());
                    assert(snap.keys()[si as int] == si);
                    assert(snap.keys().contains(si));
                    let (src, vis) = choose|src: usize, vis: Set<usize>| snap.keys()[src as int] == si && #[trigger] traversal_closed(
                        snap.keys(),
                        snap.adj(),
                        explorer,
                        src,
                        vis,
                    );
                    assert(snap.keys()[src as int] == src);
                    if si != ti {
                        lemma_no_residual_walk(self.keys@.len(), self.edges@, self.out@, snap.keys(), snap.adj(), explorer, vis, si, ti);
                        reveal(no_residual_walk);
                    }
                }
                None
            },
            Some(tree) => {
                let p = backtrack_edges(&tree);
                let mut ids: Vec<usize> = Vec::new();
                let mut nodes: Vec<usize> = Vec::new();
                nodes.push(p[0].0);
                let mut i: usize = 0;
                while i < p.len()
                    invariant
                        i <= p@.len(),
                        ids@.len() == i,
                        nodes@.len() == i + 1,
                        nodes@[0] == p@[0].0,
                        forall|m: int| 0 <= m < i ==> #[trigger] ids@[m] == p@[m].2 && nodes@[m + 1] == p@[m].1,
                    decreases p@.len() - i,
                {
                    let ghost i0 = ids@;
                    let ghost n0 = nodes@;
                    ids.push(p[i].2);
                    nodes.push(p[i].1);
                    proof {
                        assert forall|m: int| 0 <= m < i + 1 implies #[trigger] ids@[m] == p@[m].2 && nodes@[m + 1] == p@[m].1 by {
                            if m < i {
                                assert(ids@[m] == i0[m]);
                                assert(nodes@[m + 1] == n0[m + 1]);
                            }
                        }
                    }
                    i = i + 1;
                }
                proof {
                    lemma_path_augmenting(self.keys@.len(), self.edges@, self.out@, snap.keys(), snap.adj(), explorer, si, ti, tree@, p@, ids@, nodes@);
                }
                Some(ids)
            },
        }
    }

    /// The least residual capacity along an augmenting path: the residual
    /// capacity of one of its edges, and no more than any other's.
    fn bottleneck(&self, ids: &Vec<usize>, Ghost(si): Ghost<usize>, Ghost(ti): Ghost<usize>) -> (r: u64)
        requires
            augmenting(self.edges@, ids@, si, ti),
        ensures
            r >= 1,
            forall|i: int| #![trigger ids@[i]] 0 <= i < ids@.len() ==> r <= self.edges@[ids@[i] as int].2.max
                - self.edges@[ids@[i] as int].2.cur,
            exists|i: int| #![trigger ids@[i]] 0 <= i < ids@.len() && r == self.edges@[ids@[i] as int].2.max
                - self.edges@[ids@[i] as int].2.cur,
    {
        let e0 = self.edges[ids[0]];
        let mut best: u64 = e0.2.max - e0.2.cur;
        let mut i: usize = 1;
        proof {
            assert(self.edges@[ids@[0] as int] == e0);
        }
        while i < ids.len()
            invariant
                augmenting(self.edges@, ids@, si, ti),
                1 <= i <= ids@.len(),
                best >= 1,
                forall|m: int| #![trigger ids@[m]] 0 <= m < i ==> best <= self.edges@[ids@[m] as int].2.max
                    - self.edges@[ids@[m] as int].2.cur,
                exists|m: int| #![trigger ids@[m]] 0 <= m < i && best == self.edges@[ids@[m] as int].2.max
                    - self.edges@[ids@[m] as int].2.cur,
            decreases ids@.len() - i,
        {
            let e = self.edges[ids[i]];
            assert(ids@[i as int] < self.edges@.len());
            let room = e.2.max - e.2.cur;
            if room < best {
                best = room;
            }
            proof {
                assert(self.edges@[ids@[i as int] as int] == e);
            }
            i = i + 1;
        }
        best
    }
}


/// Along `ids`, no edge comes twice, none is the partner of another, only
/// the first leaves `s`, and no partner does.
#[verifier::opaque]
pub open spec fn separated(edges: Seq<FlowEdge>, ids: Seq<usize>, s: usize) -> bool {
    &&& forall|i: int, j: int| 0 <= i < ids.len() && 0 <= j < ids.len() && i != j ==> #[trigger] ids[i] != #[trigger] ids[j]
    &&& forall|i: int, j: int| #![trigger ids[i], ids[j]] 0 <= i < ids.len() && 0 <= j < ids.len() ==> ids[i] != partner(ids[j] as int)
    &&& forall|i: int| 0 < i < ids.len() ==> edges[#[trigger] ids[i] as int].0 != s
    &&& forall|i: int| 0 <= i < ids.len() ==> edges[partner(#[trigger] ids[i] as int)].0 != s
}

/// The edge `x` with its flow raised by `d` (which may be negative).
pub open spec fn shifted(x: FlowEdge, d: int) -> FlowEdge {
    (x.0, x.1, Flow { max: x.2.max, cur: (x.2.cur + d) as u64 })
}

/// Every edge's flow is within its capacity and adds up with its
/// partner's to it.
pub open spec fn balanced(n: nat, es: Seq<FlowEdge>) -> bool {
    &&& es.len() % 2 == 0
    &&& forall|e: int| #![trigger es[e]] 0 <= e < es.len() ==> {
        &&& es[e].0 < n
        &&& es[e].1 < n
        &&& es[e].2.cur <= es[e].2.max
        &&& es[partner(e)].0 == es[e].1
        &&& es[partner(e)].1 == es[e].0
        &&& es[partner(e)].2.max == es[e].2.max
        &&& es[e].2.cur + es[partner(e)].2.cur == es[e].2.max
    }
}

/// `es` has the edges of `e0`, with the same ends and capacities.
pub open spec fn same_shape(e0: Seq<FlowEdge>, es: Seq<FlowEdge>) -> bool {
    &&& es.len() == e0.len()
    &&& forall|e: int| #![trigger es[e]] 0 <= e < es.len() ==> es[e].0 == e0[e].0 && es[e].1 == e0[e].1 && es[e].2.max == e0[e].2.max
}

proof fn lemma_separated(n: nat, edges: Seq<FlowEdge>, out: Seq<Vec<usize>>, ids: Seq<usize>, s: usize, t: usize)
    requires
        flow_wf(n, edges, out),
        augmenting(edges, ids, s, t),
    ensures
        separated(edges, ids, s),
{
    reveal(separated);
    lemma_augmenting_disjoint(n, edges, out, ids, s, t);
}

/// Step `i` of a push of `aug` along `ids`: raising the flow of `ids[i]`
/// and lowering its partner's keeps the edges balanced, leaves the later
/// path edges alone, and takes `aug` from the residual leaving `s` at the
/// first step only.
proof fn lemma_push_step(n: nat, e0: Seq<FlowEdge>, es: Seq<FlowEdge>, ids: Seq<usize>, aug: u64, i: int, s: usize)
    requires
        balanced(n, es),
        same_shape(e0, es),
        separated(e0, ids, s),
        0 <= i < ids.len(),
        e0[ids[0] as int].0 == s,
        forall|m: int| #![trigger ids[m]] 0 <= m < ids.len() ==> ids[m] < e0.len() && aug <= e0[ids[m] as int].2.max
            - e0[ids[m] as int].2.cur,
        forall|m: int| #![trigger ids[m]] i <= m < ids.len() ==> es[ids[m] as int] == e0[ids[m] as int],
    ensures
        ({
            let id = ids[i] as int;
            let after = es.update(id, shifted(es[id], aug as int)).update(partner(id), shifted(es[partner(id)], -aug));
            &&& balanced(n, after)
            &&& same_shape(e0, after)
            &&& forall|m: int| #![trigger ids[m]] i < m < ids.len() ==> after[ids[m] as int] == e0[ids[m] as int]
            &&& residual_from(after, s) == residual_from(es, s) - (if i == 0 { aug as int } else { 0 })
            &&& es[id] == e0[id]
            &&& es[partner(id)].2.cur >= aug
        }),
{
    reveal(separated);
    let id = ids[i] as int;
    let p = partner(id);
    lemma_partner(id, es.len() as int);
    let mid = es.update(id, shifted(es[id], aug as int));
    let after = mid.update(p, shifted(es[p], -aug));
    lemma_residual_update(es, s, id, shifted(es[id], aug as int));
    lemma_residual_update(mid, s, p, shifted(es[p], -aug));
    assert(mid[p] == es[p]);
    assert(es[id] == e0[id]);
    assert(e0[partner(ids[i] as int)].0 != s);
    assert(es[p].0 == e0[p].0);
    if i > 0 {
        assert(e0[ids[i] as int].0 != s);
    }
    assert forall|e: int| #![trigger after[e]] 0 <= e < after.len() implies {
        &&& after[e].0 < n
        &&& after[e].1 < n
        &&& after[e].2.cur <= after[e].2.max
        &&& after[partner(e)].0 == after[e].1
        &&& after[partner(e)].1 == after[e].0
        &&& after[partner(e)].2.max == after[e].2.max
        &&& after[e].2.cur + after[partner(e)].2.cur == after[e].2.max
    } by {
        lemma_partner(e, es.len() as int);
        assert(es[e].2.cur + es[partner(e)].2.cur == es[e].2.max);
        if e == id || e == p {
            assert(partner(p) == id);
        }
    }
    assert forall|m: int| #![trigger ids[m]] i < m < ids.len() implies after[ids[m] as int] == e0[ids[m] as int] by {
        assert(ids[m] != ids[i]);
        assert(ids[m] != partner(ids[i] as int));
    }
}

/// Step `i` of a push changes the residual capacity leaving a node only at
/// the two ends of path edge `ids[i]`: the source loses `aug`, the target
/// gains it.
proof fn lemma_push_step_all(n: nat, e0: Seq<FlowEdge>, es: Seq<FlowEdge>, ids: Seq<usize>, aug: u64, i: int, s: usize)
    requires
        balanced(n, es),
        same_shape(e0, es),
        separated(e0, ids, s),
        0 <= i < ids.len(),
        e0[ids[0] as int].0 == s,
        forall|m: int| #![trigger ids[m]] 0 <= m < ids.len() ==> ids[m] < e0.len() && aug <= e0[ids[m] as int].2.max
            - e0[ids[m] as int].2.cur,
        forall|m: int| #![trigger ids[m]] i <= m < ids.len() ==> es[ids[m] as int] == e0[ids[m] as int],
    ensures
        ({
            let id = ids[i] as int;
            let after = es.update(id, shifted(es[id], aug as int)).update(partner(id), shifted(es[partner(id)], -aug));
            forall|x: usize| #[trigger] residual_from(after, x) == residual_from(es, x) - (if x == e0[id].0 { aug as int } else { 0 }) + (
            if x == e0[id].1 { aug as int } else { 0 })
        }),
{
    lemma_push_step(n, e0, es, ids, aug, i, s);
    let id = ids[i] as int;
    let p = partner(id);
    lemma_partner(id, es.len() as int);
    let mid = es.update(id, shifted(es[id], aug as int));
    let after = mid.update(p, shifted(es[p], -aug));
    assert(mid[p] == es[p]);
    assert(es[id] == e0[id]);
    assert(es[p].0 == es[id].1);
    assert forall|x: usize| #[trigger] residual_from(after, x) == residual_from(es, x) - (if x == e0[id].0 { aug as int } else { 0 }) + (
    if x == e0[id].1 { aug as int } else { 0 }) by {
        lemma_residual_update(es, x, id, shifted(es[id], aug as int));
        lemma_residual_update(mid, x, p, shifted(es[p], -aug));
    }
}

/// With the ends and capacities of a well-formed network, balanced edges
/// make a well-formed network.
proof fn lemma_shape_wf(n: nat, e0: Seq<FlowEdge>, es: Seq<FlowEdge>, out: Seq<Vec<usize>>)
    requires
        flow_wf(n, e0, out),
        balanced(n, es),
        same_shape(e0, es),
    ensures
        flow_wf(n, es, out),
{
    assert forall|u: int, k: int| #![trigger out[u]@[k]] 0 <= u < n && 0 <= k < out[u]@.len() implies out[u]@[k] < es.len()
        && es[out[u]@[k] as int].0 == u by {
        assert(es[out[u]@[k] as int].0 == e0[out[u]@[k] as int].0);
    }
}

impl<K: Copy + PartialEq> FlowGraph<K> {
    /// Pushes `aug` units along the augmenting path `ids` from `si` to `ti`.
    fn augment(&mut self, ids: &Vec<usize>, aug: u64, Ghost(si): Ghost<usize>, Ghost(ti): Ghost<usize>)
        requires
            old(self).wf(),
            augmenting(old(self).edges@, ids@, si, ti),
            aug >= 1,
            forall|i: int| #![trigger ids@[i]] 0 <= i < ids@.len() ==> aug <= old(self).edges@[ids@[i] as int].2.max
                - old(self).edges@[ids@[i] as int].2.cur,
        ensures
            final(self).wf(),
            final(self).keys@ == old(self).keys@,
            final(self).edges@.len() == old(self).edges@.len(),
            residual_from(final(self).edges@, si) == residual_from(old(self).edges@, si) - aug,
            same_shape(old(self).edges@, final(self).edges@),
            forall|x: usize| x != si && x != ti ==> #[trigger] residual_from(final(self).edges@, x) == residual_from(old(self).edges@, x),
    {
        let ghost e0 = self.edges@;
        let ghost n = self.keys@.len();
        proof {
            lemma_push_start(n, e0, self.out@, ids@, aug, si, ti);
        }
        let mut i: usize = 0;
        while i < ids.len()
            invariant
                push_state(n, e0, self.edges@, ids@, aug, i as int, si, ti),
                i <= ids@.len(),
                n == self.keys@.len(),
                self.keys@ == old(self).keys@,
                self.out@ == old(self).out@,
                e0 == old(self).edges@,
            decreases ids@.len() - i,
        {
            let id = ids[i];
            let ghost before = self.edges@;
            proof {
                lemma_push_next(n, e0, before, ids@, aug, i as int, si, ti);
            }
            let p = partner_of(id);
            let e = self.edges[id];
            let q = self.edges[p];
            self.edges.set(id, (e.0, e.1, Flow { max: e.2.max, cur: e.2.cur + aug }));
            self.edges.set(p, (q.0, q.1, Flow { max: q.2.max, cur: q.2.cur - aug }));
            proof {
                assert(self.edges@ == before.update(id as int, shifted(before[id as int], aug as int)).update(
                    partner(id as int),
                    shifted(before[partner(id as int)], -aug),
                ));
            }
            i = i + 1;
        }
        proof {
            lemma_push_done(n, e0, self.edges@, self.out@, ids@, aug, si, ti);
        }
    }
}

/// The state of a push of `aug` along `ids` after its first `i` steps:
/// the edges keep the ends and capacities of `e0` and stay balanced, the
/// path edges from step `i` on are untouched, and the residual capacity
/// leaving a node has moved by `aug` from `s` to the end of step `i - 1`.
#[verifier::opaque]
spec fn push_state(n: nat, e0: Seq<FlowEdge>, es: Seq<FlowEdge>, ids: Seq<usize>, aug: u64, i: int, s: usize, t: usize) -> bool {
    &&& balanced(n, e0)
    &&& separated(e0, ids, s)
    &&& augmenting(e0, ids, s, t)
    &&& forall|m: int| #![trigger ids[m]] 0 <= m < ids.len() ==> ids[m] < e0.len() && aug <= e0[ids[m] as int].2.max
        - e0[ids[m] as int].2.cur
    &&& 0 <= i <= ids.len()
    &&& balanced(n, es)
    &&& same_shape(e0, es)
    &&& forall|m: int| #![trigger ids[m]] i <= m < ids.len() ==> es[ids[m] as int] == e0[ids[m] as int]
    &&& forall|x: usize| #[trigger] residual_from(es, x) == residual_from(e0, x) - (if i > 0 && x == s { aug as int } else { 0 }) + (
    if i > 0 && x == e0[ids[i - 1] as int].1 { aug as int } else { 0 })
}

proof fn lemma_push_start(n: nat, e0: Seq<FlowEdge>, out: Seq<Vec<usize>>, ids: Seq<usize>, aug: u64, s: usize, t: usize)
    requires
        flow_wf(n, e0, out),
        augmenting(e0, ids, s, t),
        forall|m: int| #![trigger ids[m]] 0 <= m < ids.len() ==> aug <= e0[ids[m] as int].2.max - e0[ids[m] as int].2.cur,
    ensures
        push_state(n, e0, e0, ids, aug, 0, s, t),
{
    reveal(push_state);
    lemma_separated(n, e0, out, ids, s, t);
}

/// One step more: the exec updates of step `i` are in range, and the state
/// after them is that of `i + 1` steps.
#[verifier::spinoff_prover]
#[verifier::rlimit(100)]
proof fn lemma_push_next(n: nat, e0: Seq<FlowEdge>, es: Seq<FlowEdge>, ids: Seq<usize>, aug: u64, i: int, s: usize, t: usize)
    requires
        push_state(n, e0, es, ids, aug, i, s, t),
        i < ids.len(),
    ensures
        ({
            let id = ids[i] as int;
            &&& id < es.len()
            &&& partner(id) < es.len()
            &&& (id % 2 == 1 || id < usize::MAX)
            &&& es[id].2.cur + aug <= es[id].2.max
            &&& es[partner(id)].2.cur >= aug
            &&& push_state(
                n,
                e0,
                es.update(id, shifted(es[id], aug as int)).update(partner(id), shifted(es[partner(id)], -aug)),
                ids,
                aug,
                i + 1,
                s,
                t,
            )
        }),
{
    lemma_push_state_elim(n, e0, es, ids, aug, i, s, t);
    let id = ids[i] as int;
    let after = es.update(id, shifted(es[id], aug as int)).update(partner(id), shifted(es[partner(id)], -aug));
    lemma_push_step(n, e0, es, ids, aug, i, s);
    lemma_partner(id, e0.len() as int);
    lemma_push_residual(n, e0, es, ids, aug, i, s, t);
    assert(ids[i + 1 - 1] == ids[i]);
    lemma_push_state_intro(n, e0, after, ids, aug, i + 1, s, t);
}

proof fn lemma_push_state_elim(n: nat, e0: Seq<FlowEdge>, es: Seq<FlowEdge>, ids: Seq<usize>, aug: u64, i: int, s: usize, t: usize)
    requires
        push_state(n, e0, es, ids, aug, i, s, t),
    ensures
        balanced(n, e0),
        separated(e0, ids, s),
        augmenting(e0, ids, s, t),
        forall|m: int| #![trigger ids[m]] 0 <= m < ids.len() ==> ids[m] < e0.len() && aug <= e0[ids[m] as int].2.max
            - e0[ids[m] as int].2.cur,
        0 <= i <= ids.len(),
        balanced(n, es),
        same_shape(e0, es),
        forall|m: int| #![trigger ids[m]] i <= m < ids.len() ==> es[ids[m] as int] == e0[ids[m] as int],
        forall|x: usize| #[trigger] residual_from(es, x) == residual_from(e0, x) - (if i > 0 && x == s { aug as int } else { 0 }) + (
        if i > 0 && x == e0[ids[i - 1] as int].1 { aug as int } else { 0 }),
{
    reveal(push_state);
}

proof fn lemma_push_state_intro(n: nat, e0: Seq<FlowEdge>, es: Seq<FlowEdge>, ids: Seq<usize>, aug: u64, i: int, s: usize, t: usize)
    requires
        balanced(n, e0),
        separated(e0, ids, s),
        augmenting(e0, ids, s, t),
        forall|m: int| #![trigger ids[m]] 0 <= m < ids.len() ==> ids[m] < e0.len() && aug <= e0[ids[m] as int].2.max
            - e0[ids[m] as int].2.cur,
        0 <= i <= ids.len(),
        balanced(n, es),
        same_shape(e0, es),
        forall|m: int| #![trigger ids[m]] i <= m < ids.len() ==> es[ids[m] as int] == e0[ids[m] as int],
        forall|x: usize| #[trigger] residual_from(es, x) == residual_from(e0, x) - (if i > 0 && x == s { aug as int } else { 0 }) + (
        if i > 0 && x == e0[ids[i - 1] as int].1 { aug as int } else { 0 }),
    ensures
        push_state(n, e0, es, ids, aug, i, s, t),
{
    reveal(push_state);
}

/// The residual capacity moved by the first `i + 1` steps of a push.
#[verifier::spinoff_prover]
proof fn lemma_push_residual(n: nat, e0: Seq<FlowEdge>, es: Seq<FlowEdge>, ids: Seq<usize>, aug: u64, i: int, s: usize, t: usize)
    requires
        balanced(n, es),
        same_shape(e0, es),
        separated(e0, ids, s),
        augmenting(e0, ids, s, t),
        0 <= i < ids.len(),
        e0[ids[0] as int].0 == s,
        forall|m: int| #![trigger ids[m]] 0 <= m < ids.len() ==> ids[m] < e0.len() && aug <= e0[ids[m] as int].2.max
            - e0[ids[m] as int].2.cur,
        forall|m: int| #![trigger ids[m]] i <= m < ids.len() ==> es[ids[m] as int] == e0[ids[m] as int],
        forall|x: usize| #[trigger] residual_from(es, x) == residual_from(e0, x) - (if i > 0 && x == s { aug as int } else { 0 }) + (
        if i > 0 && x == e0[ids[i - 1] as int].1 { aug as int } else { 0 }),
    ensures
        ({
            let id = ids[i] as int;
            let after = es.update(id, shifted(es[id], aug as int)).update(partner(id), shifted(es[partner(id)], -aug));
            forall|x: usize| #[trigger] residual_from(after, x) == residual_from(e0, x) - (if x == s { aug as int } else { 0 }) + (
            if x == e0[ids[i] as int].1 { aug as int } else { 0 })
        }),
{
    let id = ids[i] as int;
    let after = es.update(id, shifted(es[id], aug as int)).update(partner(id), shifted(es[partner(id)], -aug));
    lemma_push_step_all(n, e0, es, ids, aug, i, s);
    if i > 0 {
        assert(e0[ids[i - 1] as int].1 == e0[ids[i] as int].0);
    }
    assert forall|x: usize| #[trigger] residual_from(after, x) == residual_from(e0, x) - (if x == s { aug as int } else { 0 }) + (
    if x == e0[ids[i] as int].1 { aug as int } else { 0 }) by {
        assert(residual_from(after, x) == residual_from(es, x) - (if x == e0[id].0 { aug as int } else { 0 }) + (if x == e0[id].1 {
            aug as int
        } else {
            0
        }));
        assert(residual_from(es, x) == residual_from(e0, x) - (if i > 0 && x == s { aug as int } else { 0 }) + (if i > 0 && x
            == e0[ids[i - 1] as int].1 { aug as int } else { 0 }));
    }
}

/// After the last step the edges are balanced, keep their shape, and only
/// `s` and `t` see the residual capacity leaving them change.
proof fn lemma_push_done(n: nat, e0: Seq<FlowEdge>, es: Seq<FlowEdge>, out: Seq<Vec<usize>>, ids: Seq<usize>, aug: u64, s: usize, t: usize)
    requires
        push_state(n, e0, es, ids, aug, ids.len() as int, s, t),
        flow_wf(n, e0, out),
        edges_listed(e0, out),
    ensures
        flow_wf(n, es, out),
        edges_listed(es, out),
        same_shape(e0, es),
        residual_from(es, s) == residual_from(e0, s) - aug,
        forall|x: usize| x != s && x != t ==> #[trigger] residual_from(es, x) == residual_from(e0, x),
{
    reveal(push_state);
    lemma_shape_wf(n, e0, es, out);
    assert forall|e: int| #![trigger es[e]] 0 <= e < es.len() implies out[es[e].0 as int]@.contains(e as usize) by {
        assert(e0[e].0 == es[e].0);
    }
    assert(residual_from(es, s) == residual_from(e0, s) - aug as int + (if s == e0[ids[ids.len() - 1] as int].1 { aug as int } else { 0 }));
    assert(path_nodes(e0, ids)[0] == s);
    assert(path_nodes(e0, ids)[ids.len() as int] == e0[ids[ids.len() - 1] as int].1);
}

/// The residual capacity leaving the nodes of `cut` below `m`, summed node
/// by node.
pub open spec fn node_residual_sum(es: Seq<FlowEdge>, cut: Set<usize>, m: usize) -> int
    decreases m,
{
    if m == 0 {
        0
    } else {
        node_residual_sum(es, cut, (m - 1) as usize) + if cut.contains((m - 1) as usize) {
            residual_from(es, (m - 1) as usize)
        } else {
            0
        }
    }
}

/// The residual capacity of edge `e` when it leaves a node of `cut` below
/// `m` and, with `inside`, ends in `cut` (without, ends outside it).
pub open spec fn cut_share(e: FlowEdge, cut: Set<usize>, m: usize, inside: Option<bool>) -> int {
    if cut.contains(e.0) && e.0 < m && (match inside {
        Some(b) => cut.contains(e.1) == b,
        None => true,
    }) {
        e.2.max - e.2.cur
    } else {
        0
    }
}

/// The residual capacity of the edges leaving nodes of `cut` below `m`
/// (with `inside`: only those ending in `cut`, or only those ending outside
/// it), summed edge by edge.
pub open spec fn cut_edge_sum(es: Seq<FlowEdge>, cut: Set<usize>, m: usize, inside: Option<bool>) -> int
    decreases es.len(),
{
    if es.len() == 0 {
        0
    } else {
        cut_edge_sum(es.drop_last(), cut, m, inside) + cut_share(es.last(), cut, m, inside)
    }
}

/// Adding node `m` to the bound adds the residual capacity leaving it.
proof fn lemma_cut_edge_sum_step(es: Seq<FlowEdge>, cut: Set<usize>, m: usize)
    requires
        m < usize::MAX,
    ensures
        cut_edge_sum(es, cut, (m + 1) as usize, None) == cut_edge_sum(es, cut, m, None) + if cut.contains(m) {
            residual_from(es, m)
        } else {
            0
        },
    decreases es.len(),
{
    if es.len() > 0 {
        lemma_cut_edge_sum_step(es.drop_last(), cut, m);
    }
}

/// Summing node by node and summing edge by edge agree.
proof fn lemma_node_sum_is_edge_sum(es: Seq<FlowEdge>, cut: Set<usize>, m: usize)
    ensures
        node_residual_sum(es, cut, m) == cut_edge_sum(es, cut, m, None),
    decreases m,
{
    if m == 0 {
        lemma_cut_edge_sum_zero(es, cut);
    } else {
        lemma_node_sum_is_edge_sum(es, cut, (m - 1) as usize);
        lemma_cut_edge_sum_step(es, cut, (m - 1) as usize);
    }
}

proof fn lemma_cut_edge_sum_zero(es: Seq<FlowEdge>, cut: Set<usize>)
    ensures
        cut_edge_sum(es, cut, 0, None) == 0,
    decreases es.len(),
{
    if es.len() > 0 {
        lemma_cut_edge_sum_zero(es.drop_last(), cut);
    }
}

/// The edges leaving the cut's nodes split into those ending inside and
/// those ending outside.
proof fn lemma_cut_edge_sum_split(es: Seq<FlowEdge>, cut: Set<usize>, m: usize)
    ensures
        cut_edge_sum(es, cut, m, None) == cut_edge_sum(es, cut, m, Some(true)) + cut_edge_sum(es, cut, m, Some(false)),
    decreases es.len(),
{
    if es.len() > 0 {
        lemma_cut_edge_sum_split(es.drop_last(), cut, m);
    }
}

/// Dropping the last pair of a balanced list leaves a balanced list.
proof fn lemma_balanced_prefix(n: nat, es: Seq<FlowEdge>)
    requires
        balanced(n, es),
        es.len() >= 2,
    ensures
        balanced(n, es.subrange(0, es.len() - 2)),
{
    let l = es.len() as int;
    let pe = es.subrange(0, l - 2);
    assert forall|e: int| #![trigger pe[e]] 0 <= e < pe.len() implies {
        &&& pe[e].0 < n
        &&& pe[e].1 < n
        &&& pe[e].2.cur <= pe[e].2.max
        &&& pe[partner(e)].0 == pe[e].1
        &&& pe[partner(e)].1 == pe[e].0
        &&& pe[partner(e)].2.max == pe[e].2.max
        &&& pe[e].2.cur + pe[partner(e)].2.cur == pe[e].2.max
    } by {
        assert(es[e] == pe[e]);
        assert(partner(e) < l - 2);
        assert(es[partner(e)] == pe[partner(e)]);
    }
}

/// Within a balanced list, the edges ending inside the cut pair up, each
/// pair holding its capacity in residual capacity: that sum depends on the
/// ends and capacities alone.
#[verifier::spinoff_prover]
proof fn lemma_inside_sum_shape(n: nat, es: Seq<FlowEdge>, fs: Seq<FlowEdge>, cut: Set<usize>, m: usize)
    requires
        balanced(n, es),
        balanced(n, fs),
        same_shape(es, fs),
        n <= m,
    ensures
        cut_edge_sum(es, cut, m, Some(true)) == cut_edge_sum(fs, cut, m, Some(true)),
    decreases es.len(),
{
    if es.len() > 0 {
        let l = es.len() as int;
        let pe = es.subrange(0, l - 2);
        let pf = fs.subrange(0, l - 2);
        assert(es.drop_last().drop_last() == pe);
        assert(fs.drop_last().drop_last() == pf);
        lemma_balanced_prefix(n, es);
        lemma_balanced_prefix(n, fs);
        assert forall|e: int| #![trigger pf[e]] 0 <= e < pf.len() implies pf[e].0 == pe[e].0 && pf[e].1 == pe[e].1 && pf[e].2.max
            == pe[e].2.max by {
            assert(fs[e] == pf[e]);
            assert(es[e] == pe[e]);
        }
        lemma_inside_sum_shape(n, pe, pf, cut, m);
        assert(partner(l - 2) == l - 1);
        let a = es[l - 2];
        let b = es[l - 1];
        let c = fs[l - 2];
        let d = fs[l - 1];
        assert(es.drop_last().last() == a);
        assert(fs.drop_last().last() == c);
        assert(es.last() == b);
        assert(fs.last() == d);
        assert(cut_edge_sum(es, cut, m, Some(true)) == cut_edge_sum(es.drop_last(), cut, m, Some(true)) + cut_share(b, cut, m, Some(true)));
        assert(cut_edge_sum(es.drop_last(), cut, m, Some(true)) == cut_edge_sum(pe, cut, m, Some(true)) + cut_share(a, cut, m, Some(true)));
        assert(cut_edge_sum(fs, cut, m, Some(true)) == cut_edge_sum(fs.drop_last(), cut, m, Some(true)) + cut_share(d, cut, m, Some(true)));
        assert(cut_edge_sum(fs.drop_last(), cut, m, Some(true)) == cut_edge_sum(pf, cut, m, Some(true)) + cut_share(c, cut, m, Some(true)));
        assert(c.0 == a.0 && c.1 == a.1 && c.2.max == a.2.max);
        assert(d.0 == b.0 && d.1 == b.1 && d.2.max == b.2.max);
        assert(b.0 == a.1 && b.1 == a.0 && b.2.max == a.2.max && a.2.cur + b.2.cur == a.2.max);
        assert(d.0 == c.1 && d.1 == c.0 && c.2.cur + d.2.cur == c.2.max);
    }
}

/// No edge holds more flow than its capacity: the residual capacity
/// leaving the cut is not negative.
proof fn lemma_leaving_sum_nonneg(n: nat, es: Seq<FlowEdge>, cut: Set<usize>, m: usize)
    requires
        forall|e: int| #![trigger es[e]] 0 <= e < es.len() ==> es[e].2.cur <= es[e].2.max,
    ensures
        cut_edge_sum(es, cut, m, Some(false)) >= 0,
    decreases es.len(),
{
    if es.len() > 0 {
        lemma_leaving_sum_nonneg(n, es.drop_last(), cut, m);
        assert(es.last() == es[es.len() - 1]);
    }
}

/// Through a saturated cut, no residual capacity leaves it.
proof fn lemma_leaving_sum_saturated(es: Seq<FlowEdge>, cut: Set<usize>, m: usize, s: usize, t: usize)
    requires
        saturated_cut(es, cut, s, t),
    ensures
        cut_edge_sum(es, cut, m, Some(false)) == 0,
    decreases es.len(),
{
    if es.len() > 0 {
        let p = es.drop_last();
        assert forall|e: int| #![trigger p[e]] 0 <= e < p.len() && cut.contains(p[e].0) && !cut.contains(p[e].1) implies p[e].2.cur
            == p[e].2.max by {
            assert(es[e] == p[e]);
        }
        lemma_leaving_sum_saturated(p, cut, m, s, t);
        assert(es.last() == es[es.len() - 1]);
    }
}

/// Where two edge lists agree on the residual capacity leaving every node
/// but `s` and `t`, and the cut holds `s` but not `t`, their node sums
/// differ by what leaves `s`.
proof fn lemma_node_sum_balanced(es: Seq<FlowEdge>, fs: Seq<FlowEdge>, cut: Set<usize>, m: usize, s: usize, t: usize)
    requires
        forall|x: usize| x != s && x != t ==> #[trigger] residual_from(fs, x) == residual_from(es, x),
        cut.contains(s),
        !cut.contains(t),
    ensures
        node_residual_sum(es, cut, m) - node_residual_sum(fs, cut, m) == if s < m {
            residual_from(es, s) - residual_from(fs, s)
        } else {
            0
        },
    decreases m,
{
    if m > 0 {
        lemma_node_sum_balanced(es, fs, cut, (m - 1) as usize, s, t);
        let x = (m - 1) as usize;
        if x != s && x != t {
            assert(residual_from(fs, x) == residual_from(es, x));
        }
    }
}

/// What Edmonds-Karp from node `si` to node `ti` in a network of `n`
/// nodes leaves: the edges keep their ends and capacities and stay
/// balanced; it pushed `r` units, which the residual capacity leaving `si`
/// lost, while the residual capacity leaving every other node but `ti` is
/// as it was; when `si` and `ti` differ, no residual walk leads from `si`
/// to `ti` any more and a set of nodes holding `si` but not `ti` has every
/// edge leaving it saturated; where no residual walk led there to begin
/// with, it pushed nothing and changed nothing.
pub open spec fn max_flow_outcome(n: nat, e0: Seq<FlowEdge>, e1: Seq<FlowEdge>, si: usize, ti: usize, r: u64) -> bool {
    &&& balanced(n, e1)
    &&& same_shape(e0, e1)
    &&& r == residual_from(e0, si) - residual_from(e1, si)
    &&& forall|x: usize| x != si && x != ti ==> #[trigger] residual_from(e1, x) == residual_from(e0, x)
    &&& si != ti ==> no_residual_walk(e1, si, ti)
    &&& si != ti ==> exists|cut: Set<usize>| saturated_cut(e1, cut, si, ti)
    &&& no_residual_walk(e0, si, ti) ==> r == 0 && e1 == e0
}

/// No way of moving flow through a network of `n` nodes from `si` to `ti`
/// pushes more than Edmonds-Karp does: any edge list `e2` with the ends
/// and capacities of `e0`, balanced, and leaving the residual capacity
/// leaving each node but `si` and `ti` as in `e0`, takes from `si` at most
/// the `r` units Edmonds-Karp pushed.
pub proof fn law_max_flow_is_maximum(
    n: usize,
    e0: Seq<FlowEdge>,
    e1: Seq<FlowEdge>,
    e2: Seq<FlowEdge>,
    si: usize,
    ti: usize,
    r: u64,
)
    requires
        balanced(n as nat, e0),
        max_flow_outcome(n as nat, e0, e1, si, ti, r),
        si != ti,
        si < n,
        balanced(n as nat, e2),
        same_shape(e0, e2),
        forall|x: usize| x != si && x != ti ==> #[trigger] residual_from(e2, x) == residual_from(e0, x),
    ensures
        residual_from(e0, si) - residual_from(e2, si) <= r,
{
    let cut = choose|cut: Set<usize>| saturated_cut(e1, cut, si, ti);
    lemma_node_sum_is_edge_sum(e0, cut, n);
    lemma_node_sum_is_edge_sum(e1, cut, n);
    lemma_node_sum_is_edge_sum(e2, cut, n);
    lemma_cut_edge_sum_split(e0, cut, n);
    lemma_cut_edge_sum_split(e1, cut, n);
    lemma_cut_edge_sum_split(e2, cut, n);
    lemma_inside_sum_shape(n as nat, e0, e1, cut, n);
    lemma_inside_sum_shape(n as nat, e0, e2, cut, n);
    lemma_leaving_sum_saturated(e1, cut, n, si, ti);
    lemma_leaving_sum_nonneg(n as nat, e2, cut, n);
    lemma_node_sum_balanced(e0, e1, cut, n, si, ti);
    lemma_node_sum_balanced(e0, e2, cut, n, si, ti);
}

/// The source's index and the target's, when both are nodes.
fn terminals<K: Copy + PartialEq>(g: &FlowGraph<K>, s: &K, t: &K) -> (r: Option<(usize, usize)>)
    requires
        keys_compare::<K>(),
    ensures
        match r {
            Some((si, ti)) => si < g.node_keys().len() && ti < g.node_keys().len() && g.node_keys()[si as int] == *s
                && g.node_keys()[ti as int] == *t,
            None => !g.node_keys().contains(*s) || !g.node_keys().contains(*t),
        },
{
    match g.index_of(s) {
        Some(si) => match g.index_of(t) {
            Some(ti) => Some((si, ti)),
            None => None,
        },
        None => None,
    }
}

/// The flow through the network from `s` to `t` by Edmonds-Karp, run with
/// the plain or the parallel breadth-first traversal.
#[verifier::rlimit(40)]
fn edmonds_karp<K: Copy + PartialEq>(g: &mut FlowGraph<K>, si: usize, ti: usize, parallel: bool) -> (r: u64)
    requires
        old(g).wf(),
        si < old(g).node_keys().len(),
        ti < old(g).node_keys().len(),
        residual_from(old(g).edge_seq(), si) <= u64::MAX,
    ensures
        final(g).wf(),
        final(g).node_keys() == old(g).node_keys(),
        final(g).edge_seq().len() == old(g).edge_seq().len(),
        r == residual_from(old(g).edge_seq(), si) - residual_from(final(g).edge_seq(), si),
        si != ti ==> no_residual_walk(final(g).edge_seq(), si, ti),
        si != ti ==> exists|cut: Set<usize>| saturated_cut(final(g).edge_seq(), cut, si, ti),
        no_residual_walk(old(g).edge_seq(), si, ti) ==> r == 0 && final(g).edge_seq() == old(g).edge_seq(),
        same_shape(old(g).edge_seq(), final(g).edge_seq()),
        forall|x: usize| x != si && x != ti ==> #[trigger] residual_from(final(g).edge_seq(), x) == residual_from(old(g).edge_seq(), x),
{
    let ghost r0 = residual_from(g.edges@, si);
    let mut total: u64 = 0;
    loop
        invariant
            g.wf(),
            si < g.keys@.len(),
            ti < g.keys@.len(),
            g.keys@ == old(g).keys@,
            g.edges@.len() == old(g).edges@.len(),
            r0 == residual_from(old(g).edges@, si),
            r0 <= u64::MAX,
            total == r0 - residual_from(g.edges@, si),
            no_residual_walk(old(g).edges@, si, ti) ==> total == 0 && g.edges@ == old(g).edges@,
            same_shape(old(g).edges@, g.edges@),
            forall|x: usize| x != si && x != ti ==> #[trigger] residual_from(g.edges@, x) == residual_from(old(g).edges@, x),
        decreases residual_from(g.edges@, si),
    {
        proof {
            lemma_residual_nonneg(g.edges@, si);
        }
        match g.find_augmenting_path(si, ti, parallel) {
            None => {
                return total;
            },
            Some(ids) => {
                proof {
                    assert(residual_walk(g.edges@, ids@, si, ti));
                    if no_residual_walk(old(g).edges@, si, ti) {
                        reveal(no_residual_walk);
                        assert(!residual_walk(old(g).edges@, ids@, si, ti));
                    }
                }
                let aug = g.bottleneck(&ids, Ghost(si), Ghost(ti));
                let ghost before = g.edges@;
                g.augment(&ids, aug, Ghost(si), Ghost(ti));
                proof {
                    assert forall|e: int| #![trigger g.edges@[e]] 0 <= e < g.edges@.len() implies g.edges@[e].0 == old(g).edges@[e].0
                        && g.edges@[e].1 == old(g).edges@[e].1 && g.edges@[e].2.max == old(g).edges@[e].2.max by {
                        assert(before[e].0 == old(g).edges@[e].0);
                    }
                    assert forall|x: usize| x != si && x != ti implies #[trigger] residual_from(g.edges@, x) == residual_from(old(g).edges@, x) by {
                        assert(residual_from(g.edges@, x) == residual_from(before, x));
                    }
                }
                proof {
                    lemma_residual_nonneg(g.edges@, si);
                }
                total = total + aug;
            },
        }
    }
}

/// The maximum flow from `s` to `t` by Edmonds-Karp: while a breadth-first
/// traversal through edges with residual capacity reaches `t`, pushes the
/// path's bottleneck along it. Returns the total pushed, which is what
/// the residual capacity leaving `s` lost; 0 when `s` is not a node. When
/// it returns, no walk through edges with residual capacity left leads
/// from `s` to `t`, and some set of nodes holding `s` but not `t` has every
/// edge leaving it saturated.
pub fn maximum_flow_edmonds_karp<K: Copy + PartialEq>(g: &mut FlowGraph<K>, s: &K, t: &K) -> (r: u64)
    requires
        keys_compare::<K>(),
        old(g).wf(),
        old(g).node_keys().contains(*t),
        forall|si: int| #![trigger old(g).node_keys()[si]] 0 <= si < old(g).node_keys().len() && old(g).node_keys()[si] == *s
            ==> residual_from(old(g).edge_seq(), si as usize) <= u64::MAX,
    ensures
        final(g).wf(),
        final(g).node_keys() == old(g).node_keys(),
        final(g).edge_seq().len() == old(g).edge_seq().len(),
        !old(g).node_keys().contains(*s) ==> r == 0 && final(g).edge_seq() == old(g).edge_seq(),
        old(g).node_keys().contains(*s) ==> exists|si: usize, ti: usize|
            si < old(g).node_keys().len() && ti < old(g).node_keys().len() && old(g).node_keys()[si as int] == *s
                && old(g).node_keys()[ti as int] == *t && #[trigger] max_flow_outcome(
                old(g).node_keys().len(),
                old(g).edge_seq(),
                final(g).edge_seq(),
                si,
                ti,
                r,
            ),
{
    match terminals(g, s, t) {
        None => 0,
        Some((si, ti)) => {
            let r = edmonds_karp(g, si, ti, false);
            proof {
                assert(max_flow_outcome(old(g).node_keys().len(), old(g).edge_seq(), g.edge_seq(), si, ti, r));
            }
            r
        },
    }
}

/// `maximum_flow_edmonds_karp` with each breadth-first traversal run in
/// parallel.
pub fn parallel_maximum_flow_edmonds_karp<K: Copy + PartialEq>(g: &mut FlowGraph<K>, s: &K, t: &K) -> (r: u64)
    requires
        keys_compare::<K>(),
        old(g).wf(),
        old(g).node_keys().contains(*t),
        forall|si: int| #![trigger old(g).node_keys()[si]] 0 <= si < old(g).node_keys().len() && old(g).node_keys()[si] == *s
            ==> residual_from(old(g).edge_seq(), si as usize) <= u64::MAX,
    ensures
        final(g).wf(),
        final(g).node_keys() == old(g).node_keys(),
        final(g).edge_seq().len() == old(g).edge_seq().len(),
        !old(g).node_keys().contains(*s) ==> r == 0 && final(g).edge_seq() == old(g).edge_seq(),
        old(g).node_keys().contains(*s) ==> exists|si: usize, ti: usize|
            si < old(g).node_keys().len() && ti < old(g).node_keys().len() && old(g).node_keys()[si as int] == *s
                && old(g).node_keys()[ti as int] == *t && #[trigger] max_flow_outcome(
                old(g).node_keys().len(),
                old(g).edge_seq(),
                final(g).edge_seq(),
                si,
                ti,
                r,
            ),
{
    match terminals(g, s, t) {
        None => 0,
        Some((si, ti)) => {
            let r = edmonds_karp(g, si, ti, true);
            proof {
                assert(max_flow_outcome(old(g).node_keys().len(), old(g).edge_seq(), g.edge_seq(), si, ti, r));
            }
            r
        },
    }
}

} // verus!
