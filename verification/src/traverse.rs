//! Breadth-first traversal driven by an explorer: for each edge to a node
//! not yet reached, the explorer decides whether to go through it
//! (`Include`), not to (`Skip`), or to go through it and stop (`Finish`).
//! The frontier of each level can be explored in parallel.
use vstd::prelude::*;
use ahash::AHashSet;
use rayon::iter::{IntoParallelRefIterator, ParallelIterator};
use crate::keys_compare;
use crate::order::depths_sorted;
use crate::search::{
    Snapshot, backtrack, is_step, rooted, reached_before, reached_node, extends, chained, edges_from,
    visited_indices, visited_ok, visited_new, visited_insert, visited_contains, lemma_visited_len,
    lemma_extends_trans, lemma_reached_extends, index_of_key, key_visited, pending_in, is_walk, reached_by,
};

verus! {

broadcast use vstd::set::group_set_axioms, vstd::set_lib::group_set_lib_default;

/// What an explorer decides for an edge.
#[derive(Clone, Copy, Debug, PartialEq, Eq, Structural)]
pub enum Traverse {
    /// Go through the edge and go on.
    Include,
    /// Do not go through the edge.
    Skip,
    /// Go through the edge and stop.
    Finish,
}

/// The explorer `f` answers `t` for the edge `(u, v, e)`.
pub open spec fn explored<K, E, F: Fn(K, K, E) -> Traverse>(f: F, u: K, v: K, e: E, t: Traverse) -> bool {
    call_ensures(f, (u, v, e), t)
}

/// `t` is a list of traversed edges of a traversal from `source` driven by
/// `f`: each is an edge of the snapshot the explorer let through, starting
/// at `source` or where an earlier one ends.
pub open spec fn is_traversal<K, E, F: Fn(K, K, E) -> Traverse>(
    keys: Seq<K>,
    adj: Seq<Vec<(K, E)>>,
    source: K,
    f: F,
    t: Seq<(K, K, E)>,
) -> bool {
    &&& rooted(t, source)
    &&& forall|j: int| #![trigger t[j]] 0 <= j < t.len() ==> is_step(keys, adj, t[j].0, t[j].1, t[j].2) && (explored(
        f,
        t[j].0,
        t[j].1,
        t[j].2,
        Traverse::Include,
    ) || explored(f, t[j].0, t[j].1, t[j].2, Traverse::Finish))
}

proof fn lemma_traversal_push<K, E, F: Fn(K, K, E) -> Traverse>(
    keys: Seq<K>,
    adj: Seq<Vec<(K, E)>>,
    source: K,
    f: F,
    t: Seq<(K, K, E)>,
    x: (K, K, E),
)
    requires
        is_traversal(keys, adj, source, f, t),
        is_step(keys, adj, x.0, x.1, x.2),
        explored(f, x.0, x.1, x.2, Traverse::Include) || explored(f, x.0, x.1, x.2, Traverse::Finish),
        x.0 == source || reached_before(t, t.len() as int, x.0),
    ensures
        is_traversal(keys, adj, source, f, t.push(x)),
        extends(t.push(x), t),
        reached_before(t.push(x), t.len() + 1int, x.1),
{
    let t2 = t.push(x);
    assert forall|j: int| #![trigger t2[j]] 0 <= j < t2.len() implies (t2[j].0 == source || reached_before(t2, j, t2[j].0)) by {
        if j < t.len() {
            assert(t2[j] == t[j]);
            if t[j].0 != source {
                let q = choose|q: int| #![trigger t[q]] 0 <= q < j && q < t.len() && t[q].1 == t[j].0;
                assert(t2[q] == t[q]);
            }
        } else {
            if x.0 != source {
                let q = choose|q: int| #![trigger t[q]] 0 <= q < t.len() && q < t.len() && t[q].1 == x.0;
                assert(t2[q] == t[q]);
            }
        }
    }
    assert(t2[t.len() as int] == x);
}

/// An edge leaving node `u` towards the node of index `.3`, with the
/// explorer's answer `.4`, seen before it is taken.
pub type Candidate<K, E> = (K, K, E, usize, Traverse);

/// `w` is the first index of its key.
pub open spec fn first_index<K>(keys: Seq<K>, w: usize) -> bool {
    (w as int) < keys.len() && forall|i: int| 0 <= i < w ==> keys[i] != keys[w as int]
}

/// The edge `x` leaving the node with key `uk` is settled: it leads out of
/// the snapshot or to a reached node, or the explorer skips it.
pub open spec fn edge_settled<K, E, F: Fn(K, K, E) -> Traverse>(keys: Seq<K>, f: F, vis: Set<usize>, uk: K, x: (K, E)) -> bool {
    !keys.contains(x.0) || key_visited(keys, vis, x.0) || explored(f, uk, x.0, x.1, Traverse::Skip)
}

/// Every edge leaving node `u` is settled.
pub open spec fn settled<K, E, F: Fn(K, K, E) -> Traverse>(keys: Seq<K>, adj: Seq<Vec<(K, E)>>, f: F, vis: Set<usize>, u: usize) -> bool {
    forall|i: int| 0 <= i < adj[u as int]@.len() ==> #[trigger] edge_settled(keys, f, vis, keys[u as int], adj[u as int]@[i])
}

/// The explorer answered `Include` for some edge into node `w`.
pub open spec fn included<K, E, F: Fn(K, K, E) -> Traverse>(keys: Seq<K>, f: F, w: usize) -> bool {
    exists|a: K, e: E| #[trigger] explored(f, a, keys[w as int], e, Traverse::Include)
}

/// A traversal from node `src` that ended without finishing: it reached
/// the nodes of `vis`, each through an edge the explorer included (the
/// source aside), and every edge leaving them is settled.
pub open spec fn traversal_closed<K, E, F: Fn(K, K, E) -> Traverse>(
    keys: Seq<K>,
    adj: Seq<Vec<(K, E)>>,
    f: F,
    src: usize,
    vis: Set<usize>,
) -> bool {
    &&& (src as int) < keys.len()
    &&& vis.contains(src)
    &&& forall|w: usize| #[trigger] vis.contains(w) ==> (w as int) < keys.len() && settled(keys, adj, f, vis, w) && (w == src
        || included(keys, f, w))
}

/// No two edges of `t` end at the same node, and none ends at `source`.
pub open spec fn fresh_targets<K, E>(t: Seq<(K, K, E)>, source: K) -> bool {
    &&& forall|q: int| #![trigger t[q]] 0 <= q < t.len() ==> t[q].1 != source
    &&& forall|q1: int, q2: int| #![trigger t[q1], t[q2]] 0 <= q1 < q2 < t.len() ==> t[q1].1 != t[q2].1
}

/// Every edge of `t` ends at a reached node.
pub open spec fn targets_visited<K, E>(keys: Seq<K>, vis: Set<usize>, t: Seq<(K, K, E)>) -> bool {
    forall|q: int| #![trigger t[q]] 0 <= q < t.len() ==> key_visited(keys, vis, t[q].1)
}

/// How many edges of `t` lead to the node with key `k`: none when no edge
/// ends at `k`; else one more than lead to the start of the latest edge
/// ending at `k`.
pub open spec fn depth<K, E>(t: Seq<(K, K, E)>, k: K) -> nat
    decreases t.len(),
{
    if t.len() == 0 {
        0
    } else if t.last().1 == k {
        1 + depth(t.drop_last(), t.last().0)
    } else {
        depth(t.drop_last(), k)
    }
}

/// `source` lies at depth 0, and each edge of `t` ends one deeper than it
/// starts.
pub open spec fn depth_ok<K, E>(t: Seq<(K, K, E)>, source: K) -> bool {
    &&& depth(t, source) == 0
    &&& forall|q: int| #![trigger t[q]] 0 <= q < t.len() ==> depth(t, t[q].1) == depth(t, t[q].0) + 1
}

/// `q` is a non-empty walk of the snapshot from `from` along edges the
/// explorer never skips.
pub open spec fn open_walk<K, E, F: Fn(K, K, E) -> Traverse>(
    keys: Seq<K>,
    adj: Seq<Vec<(K, E)>>,
    f: F,
    q: Seq<(K, K, E)>,
    from: K,
) -> bool {
    &&& q.len() > 0
    &&& q[0].0 == from
    &&& chained(q)
    &&& forall|j: int| #![trigger q[j]] 0 <= j < q.len() ==> is_step(keys, adj, q[j].0, q[j].1, q[j].2) && !explored(
        f,
        q[j].0,
        q[j].1,
        q[j].2,
        Traverse::Skip,
    )
}

/// Growing a tree by an edge to a fresh node keeps the depths it had and
/// puts the new node one deeper than the edge's start.
pub(crate) proof fn lemma_depth_push<K, E>(t: Seq<(K, K, E)>, source: K, x: (K, K, E))
    requires
        depth_ok(t, source),
        rooted(t, source),
        fresh_targets(t.push(x), source),
        x.0 == source || reached_before(t, t.len() as int, x.0),
    ensures
        depth_ok(t.push(x), source),
        forall|k: K| k != x.1 ==> #[trigger] depth(t.push(x), k) == depth(t, k),
        depth(t.push(x), x.1) == depth(t, x.0) + 1,
{
    let t2 = t.push(x);
    assert(t2.drop_last() == t);
    assert(t2.last() == x);
    assert(t2[t.len() as int] == x);
    assert forall|k: K| k != x.1 implies #[trigger] depth(t2, k) == depth(t, k) by {}
    assert(x.0 != x.1) by {
        if x.0 != source {
            let q = choose|q: int| #![trigger t[q]] 0 <= q < t.len() && q < t.len() && t[q].1 == x.0;
            assert(t2[q] == t[q]);
        }
    }
    assert forall|q: int| #![trigger t2[q]] 0 <= q < t2.len() implies depth(t2, t2[q].1) == depth(t2, t2[q].0) + 1 by {
        if q < t.len() {
            assert(t2[q] == t[q]);
            assert(t[q].1 != x.1);
            if t[q].0 != source {
                let q2 = choose|q2: int| #![trigger t[q2]] 0 <= q2 < q && q2 < t.len() && t[q2].1 == t[q].0;
                assert(t2[q2] == t[q2]);
            }
            assert(t[q].0 != x.1);
        }
    }
}

/// Along a path backtracked through a tree from its root, the `m`-th edge
/// ends at depth `m + 1`.
pub proof fn lemma_path_depth<K, E>(t: Seq<(K, K, E)>, source: K, p: Seq<(K, K, E)>, m: int)
    requires
        depth_ok(t, source),
        p.len() > 0,
        p[0].0 == source,
        chained(p),
        edges_from(p, t),
        0 <= m < p.len(),
    ensures
        depth(t, p[m].1) == m + 1,
    decreases m,
{
    assert(t.contains(p[m]));
    let q = choose|q: int| 0 <= q < t.len() && t[q] == p[m];
    assert(t[q] == p[m]);
    if m > 0 {
        lemma_path_depth(t, source, p, m - 1);
        assert(p[m - 1].1 == p[m].0);
    }
}

/// A candidate covers the edge `x`: it leads out of the snapshot, or to a
/// reached node, or some candidate is that edge.
pub open spec fn covered<K, E>(keys: Seq<K>, vis: Set<usize>, c: Seq<Candidate<K, E>>, x: (K, E)) -> bool {
    !keys.contains(x.0) || key_visited(keys, vis, x.0) || exists|m: int| #![trigger c[m]] 0 <= m < c.len() && c[m].1 == x.0
        && c[m].2 == x.1
}

/// The candidates `c` cover every edge leaving node `u`.
pub open spec fn covers<K, E>(keys: Seq<K>, adj: Seq<Vec<(K, E)>>, vis: Set<usize>, u: usize, c: Seq<Candidate<K, E>>) -> bool {
    forall|i: int| 0 <= i < adj[u as int]@.len() ==> #[trigger] covered(keys, vis, c, adj[u as int]@[i])
}

/// Each node of `newly` lies in `t` one deeper than `u` in `t0`, and is
/// among the nodes of `vis` but not of `vis0`.
pub open spec fn newly_deeper<K, E>(
    keys: Seq<K>,
    t: Seq<(K, K, E)>,
    t0: Seq<(K, K, E)>,
    u: usize,
    newly: Seq<usize>,
    vis0: Set<usize>,
    vis: Set<usize>,
) -> bool {
    forall|m: int| #![trigger newly[m]] 0 <= m < newly.len() ==> depth(t, keys[newly[m] as int]) == depth(t0, keys[u as int]) + 1
        && !vis0.contains(newly[m]) && vis.contains(newly[m])
}

/// When every visited index is the first of its key, a node index that is
/// the first of its key and not visited has a key no visited node has.
proof fn lemma_fresh_key<K>(keys: Seq<K>, vis: Set<usize>, j: usize)
    requires
        forall|w: usize| #[trigger] vis.contains(w) ==> first_index(keys, w),
        first_index(keys, j),
        !vis.contains(j),
    ensures
        !key_visited(keys, vis, keys[j as int]),
{
    if key_visited(keys, vis, keys[j as int]) {
        let w = choose|w: usize| #[trigger] vis.contains(w) && (w as int) < keys.len() && keys[w as int] == keys[j as int];
        assert(first_index(keys, w));
        if w < j {
            assert(keys[w as int] != keys[j as int]);
        } else {
            assert(keys[j as int] != keys[w as int]);
        }
    }
}

/// Each candidate is an edge of the snapshot leaving node `u`, towards the
/// node it names (the first of that key), with the explorer's answer for it.
pub open spec fn candidates_ok<K, E, F: Fn(K, K, E) -> Traverse>(
    keys: Seq<K>,
    adj: Seq<Vec<(K, E)>>,
    u: usize,
    f: F,
    c: Seq<Candidate<K, E>>,
) -> bool {
    forall|m: int| #![trigger c[m]] 0 <= m < c.len() ==> {
        &&& u < keys.len()
        &&& c[m].0 == keys[u as int]
        &&& is_step(keys, adj, c[m].0, c[m].1, c[m].2)
        &&& c[m].3 < keys.len()
        &&& keys[c[m].3 as int] == c[m].1
        &&& first_index(keys, c[m].3)
        &&& explored(f, c[m].0, c[m].1, c[m].2, c[m].4)
    }
}

/// The edge `x` comes, in the list it belongs to, after what the
/// candidates before the `m`-th cover: it leaves the snapshot, leads to a
/// node of `vis`, or is one of the first `m` candidates.
pub open spec fn earlier_covered<K, E>(keys: Seq<K>, vis: Set<usize>, c: Seq<Candidate<K, E>>, m: int, x: (K, E)) -> bool {
    !keys.contains(x.0) || key_visited(keys, vis, x.0) || exists|k: int| 0 <= k < m && c[k].1 == x.0 && c[k].2 == x.1
}

/// The candidates `c` of node `u` come in the order of its edge list: each
/// stands at a place of the list before which every edge is covered by the
/// candidates before it.
#[verifier::opaque]
pub open spec fn cands_in_order<K, E>(keys: Seq<K>, adj: Seq<Vec<(K, E)>>, vis: Set<usize>, u: usize, c: Seq<Candidate<K, E>>) -> bool {
    forall|m: int| #![trigger c[m]] 0 <= m < c.len() ==> exists|p: int|
        0 <= p < adj[u as int]@.len() && adj[u as int]@[p] == (c[m].1, c[m].2) && forall|q: int|
            0 <= q < p ==> #[trigger] earlier_covered(keys, vis, c, m, adj[u as int]@[q])
}

/// Node `v` was explored within the first `n` edges of `t`: every edge
/// leaving it to a node of the snapshot, unless the explorer skips it,
/// ends at the source or at a node one of those edges reached.
pub open spec fn explored_by<K, E, F: Fn(K, K, E) -> Traverse>(
    keys: Seq<K>,
    adj: Seq<Vec<(K, E)>>,
    f: F,
    t: Seq<(K, K, E)>,
    source: K,
    v: int,
    n: int,
) -> bool {
    forall|w: K, e: E| #[trigger] adj[v]@.contains((w, e)) && keys.contains(w) && !explored(f, keys[v], w, e, Traverse::Skip) ==> reached_by(
        t,
        source,
        n,
        w,
    )
}

/// Level by level: by the time an edge of `t` leaves a node, every node
/// the traversal reaches at a smaller depth has been explored.
#[verifier::opaque]
pub open spec fn levels_explored<K, E, F: Fn(K, K, E) -> Traverse>(keys: Seq<K>, adj: Seq<Vec<(K, E)>>, f: F, source: K, t: Seq<(K, K, E)>) -> bool {
    forall|b: int, u: int|
        #![trigger t[b], keys[u]]
        0 <= b < t.len() && 0 <= u < keys.len() && reached_by(t, source, t.len() as int, keys[u]) && depth(t, keys[u]) < depth(t, t[b].0)
            ==> explored_by(keys, adj, f, t, source, u, b)
}

/// Before the last edge of `t`, in the edge list of its source, stand only
/// edges that leave the snapshot, that the explorer skips, or that lead to
/// the source or to a node reached by an earlier edge of `t`.
#[verifier::opaque]
pub open spec fn finish_prefix<K, E, F: Fn(K, K, E) -> Traverse>(keys: Seq<K>, adj: Seq<Vec<(K, E)>>, f: F, source: K, t: Seq<(K, K, E)>) -> bool {
    t.len() > 0 ==> forall|u: int| #![trigger keys[u]] 0 <= u < keys.len() && keys[u] == t[t.len() - 1].0 ==> exists|p: int|
        0 <= p < adj[u]@.len() && adj[u]@[p] == (t[t.len() - 1].1, t[t.len() - 1].2) && forall|q: int|
            0 <= q < p ==> !keys.contains(#[trigger] adj[u]@[q].0) || explored(f, keys[u], adj[u]@[q].0, adj[u]@[q].1, Traverse::Skip)
                || reached_by(t, source, t.len() - 1, adj[u]@[q].0)
}

/// Each edge of `t` stands in the edge list of its source after edges that,
/// by the time it was taken, were all dealt with: they leave the snapshot,
/// the explorer skips them, or they lead to the source or to a node an
/// earlier edge of `t` reached.
#[verifier::opaque]
pub open spec fn edges_in_list_order<K, E, F: Fn(K, K, E) -> Traverse>(keys: Seq<K>, adj: Seq<Vec<(K, E)>>, f: F, source: K, t: Seq<(K, K, E)>) -> bool {
    forall|b: int, u: int| #![trigger t[b], keys[u]] 0 <= b < t.len() && 0 <= u < keys.len() && keys[u] == t[b].0 ==> exists|p: int|
        0 <= p < adj[u]@.len() && adj[u]@[p] == (t[b].1, t[b].2) && forall|q: int|
            0 <= q < p ==> !keys.contains(#[trigger] adj[u]@[q].0) || explored(f, keys[u], adj[u]@[q].0, adj[u]@[q].1, Traverse::Skip)
                || reached_by(t, source, b, adj[u]@[q].0)
}

/// An edge taken after everything before it in its source's list keeps
/// the tree in list order.
proof fn lemma_list_order_push<K, E, F: Fn(K, K, E) -> Traverse>(
    keys: Seq<K>,
    adj: Seq<Vec<(K, E)>>,
    f: F,
    source: K,
    t1: Seq<(K, K, E)>,
    x: (K, K, E),
)
    requires
        edges_in_list_order(keys, adj, f, source, t1),
        finish_prefix(keys, adj, f, source, t1.push(x)),
    ensures
        edges_in_list_order(keys, adj, f, source, t1.push(x)),
{
    reveal(edges_in_list_order);
    reveal(finish_prefix);
    let t2 = t1.push(x);
    assert forall|b: int, u: int| #![trigger t2[b], keys[u]] 0 <= b < t2.len() && 0 <= u < keys.len() && keys[u] == t2[b].0 implies exists|p: int|
        0 <= p < adj[u]@.len() && adj[u]@[p] == (t2[b].1, t2[b].2) && forall|q: int|
            0 <= q < p ==> !keys.contains(#[trigger] adj[u]@[q].0) || explored(f, keys[u], adj[u]@[q].0, adj[u]@[q].1, Traverse::Skip)
                || reached_by(t2, source, b, adj[u]@[q].0) by {
        if b < t1.len() {
            assert(t2[b] == t1[b]);
            let p = choose|p: int| 0 <= p < adj[u]@.len() && adj[u]@[p] == (t1[b].1, t1[b].2) && forall|q: int|
                0 <= q < p ==> !keys.contains(#[trigger] adj[u]@[q].0) || explored(f, keys[u], adj[u]@[q].0, adj[u]@[q].1, Traverse::Skip)
                    || reached_by(t1, source, b, adj[u]@[q].0);
            assert forall|q: int| 0 <= q < p implies !keys.contains(#[trigger] adj[u]@[q].0) || explored(f, keys[u], adj[u]@[q].0, adj[u]@[q].1, Traverse::Skip)
                || reached_by(t2, source, b, adj[u]@[q].0) by {
                let w = adj[u]@[q].0;
                if reached_by(t1, source, b, w) && w != source {
                    let q2 = choose|q2: int| #![trigger t1[q2]] 0 <= q2 < b && q2 < t1.len() && t1[q2].1 == w;
                    assert(t2[q2] == t1[q2]);
                }
            }
        } else {
            assert(t2[t2.len() - 1] == t2[b]);
        }
    }
}

/// Every visited node is the source or the end of an edge of `t`.
#[verifier::opaque]
pub open spec fn vis_reached<K, E>(keys: Seq<K>, vis: Set<usize>, t: Seq<(K, K, E)>, source: K) -> bool {
    forall|w: usize| #[trigger] vis.contains(w) ==> (w as int) < keys.len() && (keys[w as int] == source || reached_before(t, t.len() as int, keys[w as int]))
}

/// The edges leaving node `u` towards nodes not in `visited`, each with
/// the explorer's answer.
pub fn candidates<K: Copy + PartialEq, E: Copy, F: Fn(K, K, E) -> Traverse>(
    s: &Snapshot<K, E>,
    u: usize,
    visited: &AHashSet<usize>,
    f: &F,
) -> (r: Vec<Candidate<K, E>>)
    requires
        keys_compare::<K>(),
        s.wf(),
        u < s.keys().len(),
        forall|a: K, b: K, c: E| f.requires((a, b, c)),
    ensures
        candidates_ok(s.keys(), s.adj(), u, *f, r@),
        forall|i: int| 0 <= i < s.adj()[u as int]@.len() ==> #[trigger] covered(s.keys(), visited_indices(*visited), r@, s.adj()[u as int]@[i]),
        forall|m: int| 0 <= m < r@.len() ==> !visited_indices(*visited).contains(#[trigger] r@[m].3),
        cands_in_order(s.keys(), s.adj(), visited_indices(*visited), u, r@),
{
    let (keys, adj) = s.lists();
    let ku = keys[u];
    let list = &adj[u];
    let mut r: Vec<Candidate<K, E>> = Vec::new();
    proof {
        reveal(cands_in_order);
    }
    let mut i: usize = 0;
    while i < list.len()
        invariant
            keys_compare::<K>(),
            keys@ == s.keys(),
            adj@ == s.adj(),
            keys@.len() == adj@.len(),
            u < keys@.len(),
            ku == keys@[u as int],
            list@ == adj@[u as int]@,
            i <= list@.len(),
            forall|a: K, b: K, c: E| f.requires((a, b, c)),
            candidates_ok(keys@, adj@, u, *f, r@),
            forall|q: int| 0 <= q < i ==> #[trigger] covered(keys@, visited_indices(*visited), r@, list@[q]),
            forall|m: int| 0 <= m < r@.len() ==> !visited_indices(*visited).contains(#[trigger] r@[m].3),
            cands_in_order(keys@, adj@, visited_indices(*visited), u, r@),
        decreases list@.len() - i,
    {
        proof {
            reveal(cands_in_order);
        }
        let (v, e) = list[i];
        match index_of_key(keys, &v) {
            Some(j) => {
                if !visited_contains(visited, j) {
                    let t = f(ku, v, e);
                    proof {
                        assert(adj@[u as int]@.contains((v, e))) by {
                            assert(list@[i as int] == (v, e));
                        }
                    }
                    let ghost r0 = r@;
                    r.push((ku, v, e, j, t));
                    proof {
                        assert forall|m: int| #![trigger r@[m]] 0 <= m < r@.len() implies {
                            &&& u < keys@.len()
                            &&& r@[m].0 == keys@[u as int]
                            &&& is_step(keys@, adj@, r@[m].0, r@[m].1, r@[m].2)
                            &&& r@[m].3 < keys@.len()
                            &&& keys@[r@[m].3 as int] == r@[m].1
                            &&& first_index(keys@, r@[m].3)
                            &&& explored(*f, r@[m].0, r@[m].1, r@[m].2, r@[m].4)
                        } by {
                            if m < r@.len() - 1 {
                                assert(r@[m] == r@.drop_last()[m]);
                            }
                        }
                        assert forall|m: int| 0 <= m < r@.len() implies !visited_indices(*visited).contains(#[trigger] r@[m].3) by {
                            if m < r@.len() - 1 {
                                assert(r@[m] == r0[m]);
                            }
                        }
                        let vis = visited_indices(*visited);
                        assert forall|m: int| #![trigger r@[m]] 0 <= m < r@.len() implies exists|p: int|
                            0 <= p < adj@[u as int]@.len() && adj@[u as int]@[p] == (r@[m].1, r@[m].2) && forall|q: int|
                                0 <= q < p ==> #[trigger] earlier_covered(keys@, vis, r@, m, adj@[u as int]@[q]) by {
                            if m < r0.len() {
                                assert(r@[m] == r0[m]);
                                let p = choose|p: int| 0 <= p < adj@[u as int]@.len() && adj@[u as int]@[p] == (r0[m].1, r0[m].2) && forall|q: int|
                                    0 <= q < p ==> #[trigger] earlier_covered(keys@, vis, r0, m, adj@[u as int]@[q]);
                                assert forall|q: int| 0 <= q < p implies #[trigger] earlier_covered(keys@, vis, r@, m, adj@[u as int]@[q]) by {
                                    assert(earlier_covered(keys@, vis, r0, m, adj@[u as int]@[q]));
                                    if exists|k: int| 0 <= k < m && r0[k].1 == adj@[u as int]@[q].0 && r0[k].2 == adj@[u as int]@[q].1 {
                                        let k = choose|k: int| 0 <= k < m && r0[k].1 == adj@[u as int]@[q].0 && r0[k].2 == adj@[u as int]@[q].1;
                                        assert(r@[k] == r0[k]);
                                    }
                                }
                            } else {
                                assert(adj@[u as int]@[i as int] == (v, e));
                                assert forall|q: int| 0 <= q < i implies #[trigger] earlier_covered(keys@, vis, r@, m, adj@[u as int]@[q]) by {
                                    assert(list@[q] == adj@[u as int]@[q]);
                                    assert(covered(keys@, vis, r0, list@[q]));
                                    if !keys@.contains(list@[q].0) || key_visited(keys@, vis, list@[q].0) {
                                    } else {
                                        let k = choose|k: int| #![trigger r0[k]] 0 <= k < r0.len() && r0[k].1 == list@[q].0 && r0[k].2 == list@[q].1;
                                        assert(r@[k] == r0[k]);
                                    }
                                }
                            }
                        }
                        assert forall|q: int| 0 <= q < i + 1 implies #[trigger] covered(keys@, visited_indices(*visited), r@, list@[q]) by {
                            if q < i {
                                assert(covered(keys@, visited_indices(*visited), r0, list@[q]));
                                if !keys@.contains(list@[q].0) || key_visited(keys@, visited_indices(*visited), list@[q].0) {
                                } else {
                                    let m = choose|m: int| #![trigger r0[m]] 0 <= m < r0.len() && r0[m].1 == list@[q].0 && r0[m].2 == list@[q].1;
                                    assert(r@[m] == r0[m]);
                                }
                            } else {
                                assert(r@[r0.len() as int] == (ku, v, e, j, t));
                            }
                        }
                    }
                } else {
                    proof {
                        assert(key_visited(keys@, visited_indices(*visited), v));
                    }
                }
            },
            None => {},
        }
        proof {
            assert(list@[i as int] == (v, e));
            assert(covered(keys@, visited_indices(*visited), r@, list@[i as int]));
        }
        i = i + 1;
    }
    r
}

/// No edge of `t` ends deeper than `n`.
pub open spec fn depths_within<K, E>(t: Seq<(K, K, E)>, n: nat) -> bool {
    forall|q: int| 0 <= q < t.len() ==> depth(t, #[trigger] t[q].1) <= n
}

/// What a traversal expanding a node of depth `du` from tree `t0` and
/// visited set `vold` needs for its tree to stay explored level by level.
#[verifier::opaque]
pub open spec fn level_ready<K, E, F: Fn(K, K, E) -> Traverse>(
    keys: Seq<K>,
    adj: Seq<Vec<(K, E)>>,
    f: F,
    source: K,
    t0: Seq<(K, K, E)>,
    vold: Set<usize>,
    du: nat,
) -> bool {
    &&& keys.no_duplicates()
    &&& levels_explored(keys, adj, f, source, t0)
    &&& depths_within(t0, du + 1)
    &&& forall|uu: int| 0 <= uu < keys.len() && reached_by(t0, source, t0.len() as int, #[trigger] keys[uu]) && depth(t0, keys[uu]) < du ==> settled(
        keys,
        adj,
        f,
        vold,
        uu as usize,
    )
}

/// One more edge `x`, out of node `u` of depth `du`, keeps the tree
/// explored level by level.
proof fn lemma_levels_push<K, E, F: Fn(K, K, E) -> Traverse>(
    keys: Seq<K>,
    adj: Seq<Vec<(K, E)>>,
    f: F,
    source: K,
    t0: Seq<(K, K, E)>,
    t1: Seq<(K, K, E)>,
    x: (K, K, E),
    vold: Set<usize>,
    u: usize,
    du: nat,
)
    requires
        level_ready(keys, adj, f, source, t0, vold, du),
        levels_explored(keys, adj, f, source, t1),
        depth_ok(t1, source),
        rooted(t1, source),
        extends(t1, t0),
        (u as int) < keys.len(),
        x.0 == keys[u as int],
        depth(t0, keys[u as int]) == du,
        depth(t1, keys[u as int]) == du,
        keys[u as int] == source || reached_before(t0, t0.len() as int, keys[u as int]),
        forall|q: int| t0.len() <= q < t1.len() ==> depth(t1, #[trigger] t1[q].1) == du + 1,
        forall|q: int| 0 <= q < t0.len() ==> depth(t1, #[trigger] t1[q].1) == depth(t0, t0[q].1),
        forall|q: int| #![trigger t1[q]] 0 <= q < t1.len() ==> t1[q].1 != x.1,
        x.1 != source,
        forall|k: K| key_visited(keys, vold, k) ==> #[trigger] depth(t1, k) == depth(t0, k),
        targets_visited(keys, vold, t0),
        key_visited(keys, vold, source),
        vis_reached(keys, vold, t0, source),
    ensures
        levels_explored(keys, adj, f, source, t1.push(x)),
{
    reveal(vis_reached);
    reveal(levels_explored);
    reveal(level_ready);
    let t2 = t1.push(x);
    assert(t2.drop_last() =~= t1);
    assert forall|k: K| k != x.1 implies #[trigger] depth(t2, k) == depth(t1, k) by {}
    assert forall|b: int, uu: int|
        #![trigger t2[b], keys[uu]]
        0 <= b < t2.len() && 0 <= uu < keys.len() && reached_by(t2, source, t2.len() as int, keys[uu]) && depth(t2, keys[uu]) < depth(t2, t2[b].0)
            implies explored_by(keys, adj, f, t2, source, uu, b) by {
        let k = keys[uu];
        let sb = t2[b].0;
        assert(sb == source || reached_before(t2, b, sb)) by {
            if b < t1.len() {
                assert(t2[b] == t1[b]);
                if t1[b].0 != source {
                    assert(reached_before(t1, b, t1[b].0));
                    let q = choose|q: int| #![trigger t1[q]] 0 <= q < b && q < t1.len() && t1[q].1 == t1[b].0;
                    assert(t2[q] == t1[q]);
                }
            } else {
                if keys[u as int] != source {
                    let q = choose|q: int| #![trigger t0[q]] 0 <= q < t0.len() && q < t0.len() && t0[q].1 == keys[u as int];
                    assert(t2[q] == t0[q]);
                }
            }
        }
        assert(sb != x.1) by {
            if sb != source {
                let q = choose|q: int| #![trigger t2[q]] 0 <= q < b && q < t2.len() && t2[q].1 == sb;
                assert(t2[q] == t1[q]);
            }
        }
        assert(depth(t2, sb) <= du) by {
            if b < t1.len() {
                assert(t2[b] == t1[b]);
                assert(depth(t1, t1[b].1) == depth(t1, t1[b].0) + 1);
                if b < t0.len() {
                    assert(depth(t1, t1[b].1) == depth(t0, t0[b].1));
                    assert(depth(t0, t0[b].1) <= du + 1);
                } else {
                    assert(depth(t1, t1[b].1) == du + 1);
                }
            }
        }
        assert(k != x.1);
        assert(reached_by(t1, source, t1.len() as int, k)) by {
            if k != source {
                let q = choose|q: int| #![trigger t2[q]] 0 <= q < t2.len() && q < t2.len() && t2[q].1 == k;
                assert(q < t1.len());
                assert(t2[q] == t1[q]);
            }
        }
        if b < t1.len() {
            assert(t2[b] == t1[b]);
            assert(explored_by(keys, adj, f, t1, source, uu, b));
            assert forall|w: K, e: E| #[trigger] adj[uu]@.contains((w, e)) && keys.contains(w) && !explored(f, keys[uu], w, e, Traverse::Skip)
                implies reached_by(t2, source, b, w) by {
                assert(reached_by(t1, source, b, w));
                if w != source {
                    let q = choose|q: int| #![trigger t1[q]] 0 <= q < b && q < t1.len() && t1[q].1 == w;
                    assert(t2[q] == t1[q]);
                }
            }
        } else {
            assert(reached_by(t0, source, t0.len() as int, k)) by {
                if k != source {
                    let q = choose|q: int| #![trigger t1[q]] 0 <= q < t1.len() && q < t1.len() && t1[q].1 == k;
                    if q >= t0.len() {
                        assert(depth(t1, t1[q].1) == du + 1);
                    }
                    assert(t1[q] == t0[q]);
                }
            }
            assert(key_visited(keys, vold, k)) by {
                if k != source {
                    let q = choose|q: int| #![trigger t0[q]] 0 <= q < t0.len() && q < t0.len() && t0[q].1 == k;
                    assert(key_visited(keys, vold, t0[q].1));
                }
            }
            assert(depth(t0, k) < du);
            assert(settled(keys, adj, f, vold, uu as usize));
            assert forall|w: K, e: E| #[trigger] adj[uu]@.contains((w, e)) && keys.contains(w) && !explored(f, keys[uu], w, e, Traverse::Skip)
                implies reached_by(t2, source, b, w) by {
                let ii = choose|ii: int| 0 <= ii < adj[uu]@.len() && adj[uu]@[ii] == (w, e);
                assert(edge_settled(keys, f, vold, keys[uu], adj[uu]@[ii]));
                let z = choose|z: usize| #[trigger] vold.contains(z) && (z as int) < keys.len() && keys[z as int] == w;
                assert(keys[z as int] == source || reached_before(t0, t0.len() as int, keys[z as int]));
                if w != source {
                    let q = choose|q: int| #![trigger t0[q]] 0 <= q < t0.len() && q < t0.len() && t0[q].1 == w;
                    assert(t2[q] == t0[q]);
                }
            }
        }
    }
}

/// The edge `x`, taken as candidate `i` of node `u` when every earlier
/// candidate was dealt with, stands in `u`'s list after edges that are all
/// dealt with.
proof fn lemma_finish_prefix<K, E, F: Fn(K, K, E) -> Traverse>(
    keys: Seq<K>,
    adj: Seq<Vec<(K, E)>>,
    f: F,
    source: K,
    t1: Seq<(K, K, E)>,
    x: (K, K, E),
    u: usize,
    i: int,
    cands: Seq<Candidate<K, E>>,
    vc: Set<usize>,
    vis1: Set<usize>,
)
    requires
        keys.no_duplicates(),
        (u as int) < keys.len(),
        keys[u as int] == x.0,
        candidates_ok(keys, adj, u, f, cands),
        cands_in_order(keys, adj, vc, u, cands),
        0 <= i < cands.len(),
        cands[i].1 == x.1,
        cands[i].2 == x.2,
        vc.subset_of(vis1),
        vis_reached(keys, vis1, t1, source),
        forall|m: int| #![trigger cands[m]] 0 <= m < i ==> key_visited(keys, vis1, cands[m].1) || cands[m].4 == Traverse::Skip,
    ensures
        finish_prefix(keys, adj, f, source, t1.push(x)),
{
    reveal(vis_reached);
    reveal(cands_in_order);
    reveal(finish_prefix);
    let t2 = t1.push(x);
    assert(t2[t2.len() - 1] == x);
    assert forall|uu: int| #![trigger keys[uu]] 0 <= uu < keys.len() && keys[uu] == t2[t2.len() - 1].0 implies exists|p: int|
        0 <= p < adj[uu]@.len() && adj[uu]@[p] == (t2[t2.len() - 1].1, t2[t2.len() - 1].2) && forall|q: int|
            0 <= q < p ==> !keys.contains(#[trigger] adj[uu]@[q].0) || explored(f, keys[uu], adj[uu]@[q].0, adj[uu]@[q].1, Traverse::Skip)
                || reached_by(t2, source, t2.len() - 1, adj[uu]@[q].0) by {
        assert(uu == u as int);
        assert(cands[i] == cands[i]);
        let p = choose|p: int| 0 <= p < adj[u as int]@.len() && adj[u as int]@[p] == (cands[i].1, cands[i].2) && forall|q: int|
            0 <= q < p ==> #[trigger] earlier_covered(keys, vc, cands, i, adj[u as int]@[q]);
        assert forall|q: int| 0 <= q < p implies !keys.contains(#[trigger] adj[uu]@[q].0) || explored(f, keys[uu], adj[uu]@[q].0, adj[uu]@[q].1, Traverse::Skip)
            || reached_by(t2, source, t2.len() - 1, adj[uu]@[q].0) by {
            let y = adj[u as int]@[q];
            assert(earlier_covered(keys, vc, cands, i, y));
            if keys.contains(y.0) {
                let w0: K = y.0;
                if key_visited(keys, vc, w0) || exists|k: int| 0 <= k < i && cands[k].1 == w0 && cands[k].2 == y.1 && key_visited(keys, vis1, cands[k].1) {
                    let z = if key_visited(keys, vc, w0) {
                        choose|z: usize| #[trigger] vc.contains(z) && (z as int) < keys.len() && keys[z as int] == w0
                    } else {
                        let k = choose|k: int| 0 <= k < i && cands[k].1 == w0 && cands[k].2 == y.1 && key_visited(keys, vis1, cands[k].1);
                        choose|z: usize| #[trigger] vis1.contains(z) && (z as int) < keys.len() && keys[z as int] == cands[k].1
                    };
                    assert(vis1.contains(z));
                    assert(keys[z as int] == source || reached_before(t1, t1.len() as int, keys[z as int]));
                    if w0 != source {
                        let q2 = choose|q2: int| #![trigger t1[q2]] 0 <= q2 < t1.len() && q2 < t1.len() && t1[q2].1 == w0;
                        assert(t2[q2] == t1[q2]);
                    }
                } else {
                    let k = choose|k: int| 0 <= k < i && cands[k].1 == w0 && cands[k].2 == y.1;
                    assert(key_visited(keys, vis1, cands[k].1) || cands[k].4 == Traverse::Skip);
                    assert(cands[k].4 == Traverse::Skip);
                    assert(cands[k].0 == keys[u as int]);
                    assert(explored(f, cands[k].0, cands[k].1, cands[k].2, cands[k].4));
                }
            }
        }
    }
}

/// Takes the candidates in order: one towards a node not yet visited is
/// taken unless the explorer said `Skip`; its node is visited, its edge
/// appended to `tree` and, for `Include`, the node added to the returned
/// list. Stops at once at a taken `Finish` (result `true`).
#[verifier::rlimit(60)]
/// Visiting node `j` as the end of a new last edge keeps every visited
/// node reached.
proof fn lemma_vis_reached_push<K, E>(keys: Seq<K>, v0: Set<usize>, v1: Set<usize>, t1: Seq<(K, K, E)>, t2: Seq<(K, K, E)>, j: usize, source: K)
    requires
        vis_reached(keys, v0, t1, source),
        v1 == v0.insert(j),
        (j as int) < keys.len(),
        t2.len() == t1.len() + 1,
        forall|q: int| 0 <= q < t1.len() ==> t2[q] == t1[q],
        t2[t1.len() as int].1 == keys[j as int],
    ensures
        vis_reached(keys, v1, t2, source),
{
    reveal(vis_reached);
    assert forall|w: usize| #[trigger] v1.contains(w) implies (w as int) < keys.len() && (keys[w as int] == source || reached_before(
        t2,
        t2.len() as int,
        keys[w as int],
    )) by {
        if w == j {
            assert(t2[t1.len() as int].1 == keys[j as int]);
        } else {
            assert(v0.contains(w));
            if keys[w as int] != source {
                let q = choose|q: int| #![trigger t1[q]] 0 <= q < t1.len() && q < t1.len() && t1[q].1 == keys[w as int];
                assert(t2[q] == t1[q]);
            }
        }
    }
}

#[verifier::rlimit(100)]
fn take_candidates<K: Copy + PartialEq, E: Copy, F: Fn(K, K, E) -> Traverse>(
    keys: &Vec<K>,
    adj: &Vec<Vec<(K, E)>>,
    cands: &Vec<Candidate<K, E>>,
    u: usize,
    f: &F,
    visited: &mut AHashSet<usize>,
    tree: &mut Vec<(K, K, E)>,
    Ghost(source): Ghost<K>,
    Ghost(vc): Ghost<Set<usize>>,
) -> (r: (bool, Vec<usize>))
    requires
        keys@.len() == adj@.len(),
        candidates_ok(keys@, adj@, u, *f, cands@),
        is_traversal(keys@, adj@, source, *f, old(tree)@),
        reached_node(keys@, source, old(tree)@, u),
        visited_ok(visited_indices(*old(visited)), keys@.len()),
        forall|w: usize| #[trigger] visited_indices(*old(visited)).contains(w) ==> first_index(keys@, w),
        fresh_targets(old(tree)@, source),
        targets_visited(keys@, visited_indices(*old(visited)), old(tree)@),
        key_visited(keys@, visited_indices(*old(visited)), source),
        depth_ok(old(tree)@, source),
        key_visited(keys@, visited_indices(*old(visited)), keys@[u as int]),
        cands_in_order(keys@, adj@, vc, u, cands@),
        vc.subset_of(visited_indices(*old(visited))),
        vis_reached(keys@, visited_indices(*old(visited)), old(tree)@, source),
    ensures
        vis_reached(keys@, visited_indices(*final(visited)), final(tree)@, source),
        r.0 && keys@.no_duplicates() ==> finish_prefix(keys@, adj@, *f, source, final(tree)@),
        keys@.no_duplicates() && edges_in_list_order(keys@, adj@, *f, source, old(tree)@) ==> edges_in_list_order(keys@, adj@, *f, source, final(tree)@),
        level_ready(keys@, adj@, *f, source, old(tree)@, visited_indices(*old(visited)), depth(old(tree)@, keys@[u as int])) ==> levels_explored(
            keys@,
            adj@,
            *f,
            source,
            final(tree)@,
        ),
        depths_sorted(old(tree)@) && depths_within(old(tree)@, depth(old(tree)@, keys@[u as int]) + 1) ==> depths_sorted(final(tree)@),
        forall|q: int| old(tree)@.len() <= q < final(tree)@.len() ==> depth(final(tree)@, #[trigger] final(tree)@[q].1) == depth(
            old(tree)@,
            keys@[u as int],
        ) + 1,
        forall|q: int| 0 <= q < old(tree)@.len() ==> depth(final(tree)@, #[trigger] final(tree)@[q].1) == depth(old(tree)@, old(tree)@[q].1),
        depth_ok(final(tree)@, source),
        forall|k: K| key_visited(keys@, visited_indices(*old(visited)), k) ==> #[trigger] depth(final(tree)@, k) == depth(old(tree)@, k),
        forall|i: int| 0 <= i < r.1@.len() ==> #[trigger] depth(final(tree)@, keys@[r.1@[i] as int]) == depth(old(tree)@, keys@[u as int])
            + 1 && !visited_indices(*old(visited)).contains(r.1@[i]) && visited_indices(*final(visited)).contains(r.1@[i]),
        r.0 ==> depth(final(tree)@, final(tree)@[final(tree)@.len() - 1].1) == depth(old(tree)@, keys@[u as int]) + 1 && !key_visited(
            keys@,
            visited_indices(*old(visited)),
            final(tree)@[final(tree)@.len() - 1].1,
        ) && keys@.contains(final(tree)@[final(tree)@.len() - 1].1),
        forall|w: usize| #[trigger] visited_indices(*final(visited)).contains(w) ==> first_index(keys@, w),
        fresh_targets(final(tree)@, source),
        targets_visited(keys@, visited_indices(*final(visited)), final(tree)@),
        key_visited(keys@, visited_indices(*final(visited)), source),
        !r.0 ==> forall|m: int| #![trigger cands@[m]] 0 <= m < cands@.len() ==> key_visited(keys@, visited_indices(*final(visited)), cands@[m].1)
            || cands@[m].4 == Traverse::Skip,
        !r.0 ==> forall|k: usize| #[trigger] visited_indices(*final(visited)).contains(k) ==> visited_indices(*old(visited)).contains(k)
            || r.1@.contains(k),
        !r.0 ==> forall|k: usize| #[trigger] visited_indices(*final(visited)).contains(k) ==> visited_indices(*old(visited)).contains(k)
            || included(keys@, *f, k),
        is_traversal(keys@, adj@, source, *f, final(tree)@),
        extends(final(tree)@, old(tree)@),
        visited_ok(visited_indices(*final(visited)), keys@.len()),
        visited_indices(*old(visited)).subset_of(visited_indices(*final(visited))),
        !r.0 ==> visited_indices(*final(visited)).len() == visited_indices(*old(visited)).len() + r.1@.len(),
        forall|i: int| 0 <= i < r.1@.len() ==> #[trigger] reached_node(keys@, source, final(tree)@, r.1@[i]),
        r.0 ==> final(tree)@.len() > 0 && {
            let l = final(tree)@[final(tree)@.len() - 1];
            explored(*f, l.0, l.1, l.2, Traverse::Finish)
        },
{
    let ghost t0 = tree@;
    proof {
        if level_ready(keys@, adj@, *f, source, t0, visited_indices(*old(visited)), depth(t0, keys@[u as int])) {
            reveal(level_ready);
        }
    }
    let mut newly: Vec<usize> = Vec::new();
    let mut i: usize = 0;
    while i < cands.len()
        invariant
            keys@.len() == adj@.len(),
            u < keys@.len(),
            candidates_ok(keys@, adj@, u, *f, cands@),
            i <= cands@.len(),
            is_traversal(keys@, adj@, source, *f, tree@),
            extends(tree@, t0),
            t0 == old(tree)@,
            keys@[u as int] == source || reached_before(tree@, tree@.len() as int, keys@[u as int]),
            visited_ok(visited_indices(*visited), keys@.len()),
            visited_indices(*old(visited)).subset_of(visited_indices(*visited)),
            visited_indices(*visited).len() == visited_indices(*old(visited)).len() + newly@.len(),
            forall|j: int| 0 <= j < newly@.len() ==> #[trigger] reached_node(keys@, source, tree@, newly@[j]),
            forall|w: usize| #[trigger] visited_indices(*visited).contains(w) ==> first_index(keys@, w),
            fresh_targets(tree@, source),
            targets_visited(keys@, visited_indices(*visited), tree@),
            key_visited(keys@, visited_indices(*visited), source),
            forall|m: int| #![trigger cands@[m]] 0 <= m < i ==> key_visited(keys@, visited_indices(*visited), cands@[m].1)
                || cands@[m].4 == Traverse::Skip,
            forall|k: usize| #[trigger] visited_indices(*visited).contains(k) ==> visited_indices(*old(visited)).contains(k)
                || newly@.contains(k),
            forall|k: usize| #[trigger] visited_indices(*visited).contains(k) ==> visited_indices(*old(visited)).contains(k)
                || included(keys@, *f, k),
            depth_ok(tree@, source),
            key_visited(keys@, visited_indices(*old(visited)), keys@[u as int]),
            forall|k: K| key_visited(keys@, visited_indices(*old(visited)), k) ==> #[trigger] depth(tree@, k) == depth(t0, k),
            newly_deeper(keys@, tree@, t0, u, newly@, visited_indices(*old(visited)), visited_indices(*visited)),
            forall|q: int| t0.len() <= q < tree@.len() ==> depth(tree@, #[trigger] tree@[q].1) == depth(t0, keys@[u as int]) + 1,
            forall|q: int| 0 <= q < t0.len() ==> depth(tree@, #[trigger] tree@[q].1) == depth(t0, t0[q].1),
            depths_sorted(t0) && depths_within(t0, depth(t0, keys@[u as int]) + 1) ==> depths_sorted(tree@),
            cands_in_order(keys@, adj@, vc, u, cands@),
            vc.subset_of(visited_indices(*visited)),
            vis_reached(keys@, visited_indices(*old(visited)), t0, source),
            keys@.no_duplicates() && edges_in_list_order(keys@, adj@, *f, source, t0) ==> edges_in_list_order(keys@, adj@, *f, source, tree@),
            targets_visited(keys@, visited_indices(*old(visited)), t0),
            key_visited(keys@, visited_indices(*old(visited)), source),
            vis_reached(keys@, visited_indices(*visited), tree@, source),
            level_ready(keys@, adj@, *f, source, t0, visited_indices(*old(visited)), depth(t0, keys@[u as int])) ==> levels_explored(
                keys@,
                adj@,
                *f,
                source,
                tree@,
            ),
        decreases cands@.len() - i,
    {
        let c = cands[i];
        assert(candidates_ok(keys@, adj@, u, *f, cands@) && cands@[i as int] == c);
        let j = c.3;
        let ghost vis0 = visited_indices(*visited);
        let ghost n0 = newly@;
        if !visited_contains(visited, j) && c.4 != Traverse::Skip {
            let ghost t1 = tree@;
            proof {
                lemma_fresh_key(keys@, vis0, j);
                assert(keys@[j as int] == c.1);
                assert forall|q: int| #![trigger t1[q]] 0 <= q < t1.len() implies t1[q].1 != c.1 by {
                    assert(key_visited(keys@, vis0, t1[q].1));
                }
                let t2 = t1.push((c.0, c.1, c.2));
                assert forall|q1: int, q2: int| #![trigger t2[q1], t2[q2]] 0 <= q1 < q2 < t2.len() implies t2[q1].1 != t2[q2].1 by {
                    assert(t2[q1] == t1[q1]);
                    if q2 < t1.len() {
                        assert(t2[q2] == t1[q2]);
                    }
                }
                assert forall|q: int| #![trigger t2[q]] 0 <= q < t2.len() implies t2[q].1 != source by {
                    if q < t1.len() {
                        assert(t2[q] == t1[q]);
                    }
                }
            }
            proof {
                lemma_traversal_push(keys@, adj@, source, *f, t1, (c.0, c.1, c.2));
                lemma_extends_trans(t1.push((c.0, c.1, c.2)), t1, t0);
                assert forall|k: int| 0 <= k < newly@.len() implies #[trigger] reached_node(keys@, source, t1.push((c.0, c.1, c.2)), newly@[k]) by {
                    assert(reached_node(keys@, source, t1, newly@[k]));
                    if keys@[newly@[k] as int] != source {
                        lemma_reached_extends(t1.push((c.0, c.1, c.2)), t1, keys@[newly@[k] as int]);
                    }
                }
            }
            proof {
                if c.0 != source {
                    assert(reached_before(t1, t1.len() as int, c.0));
                }
                lemma_depth_push(t1, source, (c.0, c.1, c.2));
                assert forall|k: K| key_visited(keys@, visited_indices(*old(visited)), k) implies #[trigger] depth(t1.push((c.0, c.1, c.2)), k)
                    == depth(t0, k) by {
                    if k == c.1 {
                        let w = choose|w: usize| #[trigger] visited_indices(*old(visited)).contains(w) && (w as int) < keys@.len()
                            && keys@[w as int] == k;
                        assert(vis0.contains(w));
                    }
                }
                assert forall|m: int| 0 <= m < n0.len() implies #[trigger] depth(t1.push((c.0, c.1, c.2)), keys@[n0[m] as int])
                    == depth(t0, keys@[u as int]) + 1 && vis0.contains(n0[m]) && !visited_indices(*old(visited)).contains(n0[m]) by {
                    assert(depth(t1, keys@[n0[m] as int]) == depth(t0, keys@[u as int]) + 1);
                    assert(vis0.contains(n0[m]));
                    assert(key_visited(keys@, vis0, keys@[n0[m] as int]));
                }
                assert(depth(t1, c.0) == depth(t0, keys@[u as int]));
            }
            proof {
                if level_ready(keys@, adj@, *f, source, t0, visited_indices(*old(visited)), depth(t0, keys@[u as int])) {
                    assert forall|q: int| #![trigger t1[q]] 0 <= q < t1.len() implies t1[q].1 != c.1 by {}
                    assert(vis_reached(keys@, visited_indices(*old(visited)), t0, source));
                    lemma_levels_push(keys@, adj@, *f, source, t0, t1, (c.0, c.1, c.2), visited_indices(*old(visited)), u, depth(t0, keys@[u as int]));
                }
                if keys@.no_duplicates() {
                    lemma_finish_prefix(keys@, adj@, *f, source, t1, (c.0, c.1, c.2), u, i as int, cands@, vc, vis0);
                    if edges_in_list_order(keys@, adj@, *f, source, t0) {
                        lemma_list_order_push(keys@, adj@, *f, source, t1, (c.0, c.1, c.2));
                    }
                }
            }
            proof {
                let t2 = t1.push((c.0, c.1, c.2));
                let du = depth(t0, keys@[u as int]);
                assert(t2.drop_last() =~= t1);
                assert(depth(t2, c.1) == du + 1);
                assert forall|q: int| 0 <= q < t1.len() implies depth(t2, #[trigger] t2[q].1) == depth(t1, t1[q].1) by {
                    assert(t2[q] == t1[q]);
                    assert(t1[q].1 != c.1);
                }
                assert forall|q: int| t0.len() <= q < t2.len() implies depth(t2, #[trigger] t2[q].1) == du + 1 by {
                    if q < t1.len() {
                        assert(depth(t2, t2[q].1) == depth(t1, t1[q].1));
                    }
                }
                assert forall|q: int| 0 <= q < t0.len() implies depth(t2, #[trigger] t2[q].1) == depth(t0, t0[q].1) by {
                    assert(depth(t2, t2[q].1) == depth(t1, t1[q].1));
                }
                if depths_sorted(t0) && depths_within(t0, du + 1) {
                    assert forall|a: int, b: int| #![trigger t2[a], t2[b]] 0 <= a <= b < t2.len() implies depth(t2, t2[a].1) <= depth(t2, t2[b].1) by {
                        if b < t1.len() {
                            assert(depth(t2, t2[a].1) == depth(t1, t1[a].1));
                            assert(depth(t2, t2[b].1) == depth(t1, t1[b].1));
                            assert(depth(t1, t1[a].1) <= depth(t1, t1[b].1));
                        } else if a < t1.len() {
                            assert(depth(t2, t2[a].1) == depth(t1, t1[a].1));
                            if a < t0.len() {
                                assert(depth(t1, t1[a].1) == depth(t0, t0[a].1));
                                assert(depth(t0, t0[a].1) <= du + 1);
                            }
                        }
                    }
                }
            }
            visited_insert(visited, j);
            tree.push((c.0, c.1, c.2));
            proof {
                let v1 = visited_indices(*visited);
                lemma_vis_reached_push(keys@, vis0, v1, t1, tree@, j, source);
                assert(v1.contains(j));
                assert(key_visited(keys@, v1, c.1));
                assert forall|q: int| #![trigger tree@[q]] 0 <= q < tree@.len() implies key_visited(keys@, v1, tree@[q].1) by {
                    if q < t1.len() {
                        assert(tree@[q] == t1[q]);
                        assert(key_visited(keys@, vis0, t1[q].1));
                        let w = choose|w: usize| #[trigger] vis0.contains(w) && (w as int) < keys@.len() && keys@[w as int] == t1[q].1;
                        assert(v1.contains(w));
                    }
                }
                let ws = choose|w: usize| #[trigger] vis0.contains(w) && (w as int) < keys@.len() && keys@[w as int] == source;
                assert(v1.contains(ws));
                assert forall|m: int| #![trigger cands@[m]] 0 <= m < i implies key_visited(keys@, v1, cands@[m].1)
                    || cands@[m].4 == Traverse::Skip by {
                    if key_visited(keys@, vis0, cands@[m].1) {
                        let w = choose|w: usize| #[trigger] vis0.contains(w) && (w as int) < keys@.len() && keys@[w as int] == cands@[m].1;
                        assert(v1.contains(w));
                    }
                }
            }
            if c.4 == Traverse::Finish {
                proof {
                    assert(t0 == old(tree)@);
                    assert forall|m: int| 0 <= m < newly@.len() implies #[trigger] depth(tree@, keys@[newly@[m] as int]) == depth(
                        old(tree)@,
                        keys@[u as int],
                    ) + 1 && !visited_indices(*old(visited)).contains(newly@[m]) && visited_indices(*visited).contains(newly@[m]) by {
                        assert(newly@[m] == n0[m]);
                        assert(depth(t1.push((c.0, c.1, c.2)), keys@[n0[m] as int]) == depth(t0, keys@[u as int]) + 1);
                    }
                    assert(tree@[tree@.len() - 1].1 == c.1);
                    assert(keys@[j as int] == c.1);
                    lemma_fresh_key(keys@, vis0, j);
                    if key_visited(keys@, visited_indices(*old(visited)), c.1) {
                        let w = choose|w: usize| #[trigger] visited_indices(*old(visited)).contains(w) && (w as int) < keys@.len()
                            && keys@[w as int] == c.1;
                        assert(vis0.contains(w));
                    }
                }
                return (true, newly);
            }
            let ghost nw = newly@;
            newly.push(j);
            proof {
                assert forall|m: int| 0 <= m < newly@.len() implies #[trigger] depth(tree@, keys@[newly@[m] as int]) == depth(t0, keys@[u as int])
                    + 1 && !visited_indices(*old(visited)).contains(newly@[m]) && visited_indices(*visited).contains(newly@[m]) by {
                    if m < nw.len() {
                        assert(newly@[m] == n0[m]);
                        assert(depth(t1.push((c.0, c.1, c.2)), keys@[n0[m] as int]) == depth(t0, keys@[u as int]) + 1);
                    } else {
                        assert(newly@[m] == j);
                        assert(!vis0.contains(j));
                        assert(keys@[j as int] == c.1);
                        assert(depth(tree@, keys@[j as int]) == depth(t0, keys@[u as int]) + 1);
                    }
                }
                assert(n0 == nw);
            }
            proof {
                let v1 = visited_indices(*visited);
                assert(explored(*f, c.0, c.1, c.2, Traverse::Include));
                assert(included(keys@, *f, j));
                assert forall|k: usize| #[trigger] v1.contains(k) implies visited_indices(*old(visited)).contains(k) || newly@.contains(k) by {
                    if k == j {
                        assert(newly@[newly@.len() - 1] == j);
                    } else if !visited_indices(*old(visited)).contains(k) {
                        assert(vis0.contains(k));
                        assert(n0.contains(k));
                        let q = choose|q: int| 0 <= q < n0.len() && n0[q] == k;
                        assert(newly@[q] == k);
                    }
                }
            }
        } else {
            proof {
                if visited_indices(*visited).contains(j) {
                    assert(keys@[j as int] == c.1);
                    assert(key_visited(keys@, visited_indices(*visited), c.1));
                }
            }
        }
        proof {
            if keys@[u as int] != source {
                assert(reached_before(tree@, tree@.len() as int, keys@[u as int]));
            }
        }
        i = i + 1;
    }
    (false, newly)
}

/// Breadth-first traversal from `source` through the edges of `s`, level by
/// level; within a level, nodes in the order they were reached and edges in
/// list order. Returns every traversed edge, in order, when an edge the
/// explorer answered `Finish` for is reached (it is the last one); they
/// come by non-decreasing depth (`depths_sorted`); with distinct keys each
/// node of a level is explored in full before an edge leaves the next
/// (`levels_explored`), and the last edge follows in its source's list only
/// edges already dealt with (`finish_prefix`), as every edge does in its
/// source's list (`edges_in_list_order`); no two of them end at
/// the same node or at the source, and when the node keys
/// are distinct no walk from the source along edges the explorer does not
/// skip reaches the last edge's end in fewer edges than lead to it through
/// the traversed ones. `None` when the
/// traversal ends without one: then every edge leaving a reached node
/// leaves the snapshot, leads to a reached node, or was skipped. The source
/// counts as reached from the start.
pub fn directed_breadth_first_traversal<K: Copy + PartialEq, E: Copy, F: Fn(K, K, E) -> Traverse>(
    s: &Snapshot<K, E>,
    source: &K,
    explorer: &F,
) -> (r: Option<Vec<(K, K, E)>>)
    requires
        keys_compare::<K>(),
        s.wf(),
        forall|a: K, b: K, c: E| explorer.requires((a, b, c)),
    ensures
        r matches Some(t) ==> is_traversal(s.keys(), s.adj(), *source, *explorer, t@) && t@.len() > 0 && {
            let l = t@[t@.len() - 1];
            explored(*explorer, l.0, l.1, l.2, Traverse::Finish)
        } && fresh_targets(t@, *source) && depth_ok(t@, *source) && depths_sorted(t@) && (s.keys().no_duplicates() ==> forall|q: Seq<(K, K, E)>|
            #[trigger] open_walk(s.keys(), s.adj(), *explorer, q, *source) && q[q.len() - 1].1 == t@[t@.len() - 1].1 ==> q.len()
            >= depth(t@, t@[t@.len() - 1].1)),
        r matches Some(t) ==> (s.keys().no_duplicates() ==> levels_explored(s.keys(), s.adj(), *explorer, *source, t@) && finish_prefix(
            s.keys(),
            s.adj(),
            *explorer,
            *source,
            t@,
        )),
        r matches Some(t) ==> (s.keys().no_duplicates() ==> edges_in_list_order(s.keys(), s.adj(), *explorer, *source, t@)),
        r is None && s.keys().contains(*source) ==> exists|src: usize, vis: Set<usize>|
            s.keys()[src as int] == *source && #[trigger] traversal_closed(s.keys(), s.adj(), *explorer, src, vis),
        traversal_outcome(s.keys(), s.adj(), *explorer, *source, match r {
            Some(t) => Some(t@),
            None => None,
        }),
{
    traverse_levels(s, source, explorer)
}

/// The same traversal as `directed_breadth_first_traversal`, where the
/// edges leaving the nodes of a level are examined in parallel; they are
/// then taken in the same order.
pub fn parallel_directed_breadth_first_traversal<
    K: Copy + PartialEq + Send + Sync,
    E: Copy + Send + Sync,
    F: Fn(K, K, E) -> Traverse + Sync,
>(s: &Snapshot<K, E>, source: &K, explorer: &F) -> (r: Option<Vec<(K, K, E)>>)
    requires
        keys_compare::<K>(),
        s.wf(),
        forall|a: K, b: K, c: E| explorer.requires((a, b, c)),
    ensures
        r matches Some(t) ==> is_traversal(s.keys(), s.adj(), *source, *explorer, t@) && t@.len() > 0 && {
            let l = t@[t@.len() - 1];
            explored(*explorer, l.0, l.1, l.2, Traverse::Finish)
        } && fresh_targets(t@, *source) && depth_ok(t@, *source) && depths_sorted(t@) && (s.keys().no_duplicates() ==> forall|q: Seq<(K, K, E)>|
            #[trigger] open_walk(s.keys(), s.adj(), *explorer, q, *source) && q[q.len() - 1].1 == t@[t@.len() - 1].1 ==> q.len()
            >= depth(t@, t@[t@.len() - 1].1)),
        r matches Some(t) ==> (s.keys().no_duplicates() ==> levels_explored(s.keys(), s.adj(), *explorer, *source, t@) && finish_prefix(
            s.keys(),
            s.adj(),
            *explorer,
            *source,
            t@,
        )),
        r matches Some(t) ==> (s.keys().no_duplicates() ==> edges_in_list_order(s.keys(), s.adj(), *explorer, *source, t@)),
        r is None && s.keys().contains(*source) ==> exists|src: usize, vis: Set<usize>|
            s.keys()[src as int] == *source && #[trigger] traversal_closed(s.keys(), s.adj(), *explorer, src, vis),
        traversal_outcome(s.keys(), s.adj(), *explorer, *source, match r {
            Some(t) => Some(t@),
            None => None,
        }),
{
    traverse_levels_par(s, source, explorer)
}

/// The path through the traversed edges to the last one: from the source
/// of the traversal to the edge that finished it, as many edges long as
/// lead to its end through the traversed edges.
pub fn backtrack_edges<K: Copy + PartialEq, E: Copy>(edges: &Vec<(K, K, E)>) -> (r: Vec<(K, K, E)>)
    requires
        keys_compare::<K>(),
        edges@.len() > 0,
    ensures
        r@.len() > 0,
        r@[r@.len() - 1] == edges@[edges@.len() - 1],
        chained(r@),
        edges_from(r@, edges@),
        forall|root: K| #[trigger] rooted(edges@, root) ==> r@[0].0 == root,
        forall|root: K| #[trigger] depth_ok(edges@, root) && rooted(edges@, root) ==> r@.len() == depth(edges@, edges@[edges@.len() - 1].1),
{
    let r = backtrack(edges);
    proof {
        assert forall|root: K| #[trigger] depth_ok(edges@, root) && rooted(edges@, root) implies r@.len() == depth(edges@, edges@[edges@.len() - 1].1) by {
            lemma_path_depth(edges@, root, r@, r@.len() - 1);
        }
    }
    r
}

/// The path backtracked from the edges of a breadth-first traversal that
/// finished is a shortest open walk from the source to where it ends: no
/// walk from the source along edges the explorer does not skip reaches
/// that node in fewer edges.
pub proof fn law_backtracked_path_is_shortest<K, E, F: Fn(K, K, E) -> Traverse>(
    keys: Seq<K>,
    adj: Seq<Vec<(K, E)>>,
    f: F,
    source: K,
    t: Seq<(K, K, E)>,
    p: Seq<(K, K, E)>,
    q: Seq<(K, K, E)>,
)
    requires
        t.len() > 0,
        keys.no_duplicates() ==> forall|q2: Seq<(K, K, E)>| #[trigger] open_walk(keys, adj, f, q2, source) && q2[q2.len() - 1].1 == t[t.len() - 1].1
            ==> q2.len() >= depth(t, t[t.len() - 1].1),
        p.len() == depth(t, t[t.len() - 1].1),
        p.len() > 0,
        p[p.len() - 1] == t[t.len() - 1],
        keys.no_duplicates(),
        open_walk(keys, adj, f, q, source),
        q[q.len() - 1].1 == p[p.len() - 1].1,
    ensures
        p.len() <= q.len(),
{
}

/// Every open walk from the source of at most `d` edges ends at a node of
/// `vs` (when it ends at a node of the snapshot).
pub open spec fn reached_within<K, E, F: Fn(K, K, E) -> Traverse>(
    keys: Seq<K>,
    adj: Seq<Vec<(K, E)>>,
    f: F,
    source: K,
    vs: Set<usize>,
    d: nat,
) -> bool {
    forall|q: Seq<(K, K, E)>| #[trigger] open_walk(keys, adj, f, q, source) && q.len() <= d && keys.contains(q[q.len() - 1].1)
        ==> key_visited(keys, vs, q[q.len() - 1].1)
}

/// Once every node reached within `d` edges is settled, every node
/// reached within `d + 1` edges is reached.
proof fn lemma_reached_next<K, E, F: Fn(K, K, E) -> Traverse>(
    keys: Seq<K>,
    adj: Seq<Vec<(K, E)>>,
    f: F,
    source: K,
    vs: Set<usize>,
    vis: Set<usize>,
    d: nat,
)
    requires
        keys.no_duplicates(),
        keys.len() == adj.len(),
        key_visited(keys, vs, source),
        reached_within(keys, adj, f, source, vs, d),
        forall|w: usize| #[trigger] vs.contains(w) ==> (w as int) < keys.len() && settled(keys, adj, f, vis, w),
        vs.subset_of(vis),
    ensures
        reached_within(keys, adj, f, source, vis, d + 1),
{
    assert forall|q: Seq<(K, K, E)>| #[trigger] open_walk(keys, adj, f, q, source) && q.len() <= d + 1 && keys.contains(q[q.len() - 1].1)
        implies key_visited(keys, vis, q[q.len() - 1].1) by {
        let l = q.len() - 1;
        let v = q[l].1;
        if q.len() <= d {
            let w = choose|w: usize| #[trigger] vs.contains(w) && (w as int) < keys.len() && keys[w as int] == v;
            assert(vis.contains(w));
        } else {
            let x = q[l].0;
            assert(is_step(keys, adj, q[l].0, q[l].1, q[l].2));
            let i = choose|i: int| #![trigger adj[i]] 0 <= i < keys.len() && i < adj.len() && keys[i] == x && adj[i]@.contains((v, q[l].2));
            assert(key_visited(keys, vs, x)) by {
                if l == 0 {
                    assert(x == source);
                } else {
                    let p = q.subrange(0, l);
                    assert(p[l - 1] == q[l - 1]);
                    assert(q[l - 1].1 == q[l].0);
                    assert(keys.contains(x)) by {
                        assert(keys[i] == x);
                    }
                    assert forall|j: int| #![trigger p[j]] 0 <= j < p.len() implies is_step(keys, adj, p[j].0, p[j].1, p[j].2) && !explored(
                        f,
                        p[j].0,
                        p[j].1,
                        p[j].2,
                        Traverse::Skip,
                    ) by {
                        assert(p[j] == q[j]);
                    }
                    assert forall|j: int| #![trigger p[j]] 0 <= j < p.len() - 1 implies p[j].1 == p[j + 1].0 by {
                        assert(p[j] == q[j]);
                        assert(p[j + 1] == q[j + 1]);
                    }
                    assert(open_walk(keys, adj, f, p, source));
                }
            }
            let w = choose|w: usize| #[trigger] vs.contains(w) && (w as int) < keys.len() && keys[w as int] == x;
            assert(i == w as int);
            assert(settled(keys, adj, f, vis, w));
            let k = choose|k: int| 0 <= k < adj[i]@.len() && adj[i]@[k] == (v, q[l].2);
            assert(edge_settled(keys, f, vis, keys[w as int], adj[w as int]@[k]));
        }
    }
}

proof fn lemma_settled_grow<K, E, F: Fn(K, K, E) -> Traverse>(
    keys: Seq<K>,
    adj: Seq<Vec<(K, E)>>,
    f: F,
    vis: Set<usize>,
    vis2: Set<usize>,
    u: usize,
)
    requires
        settled(keys, adj, f, vis, u),
        vis.subset_of(vis2),
    ensures
        settled(keys, adj, f, vis2, u),
{
    assert forall|i: int| 0 <= i < adj[u as int]@.len() implies #[trigger] edge_settled(keys, f, vis2, keys[u as int], adj[u as int]@[i]) by {
        let x = adj[u as int]@[i];
        assert(edge_settled(keys, f, vis, keys[u as int], x));
        if key_visited(keys, vis, x.0) {
            let w = choose|w: usize| #[trigger] vis.contains(w) && (w as int) < keys.len() && keys[w as int] == x.0;
            assert(vis2.contains(w));
        }
    }
}

/// After node `level[k]` is expanded, every reached node is settled, waits
/// later in the level, or waits in the next level.
proof fn lemma_level_step<K, E, F: Fn(K, K, E) -> Traverse>(
    keys: Seq<K>,
    adj: Seq<Vec<(K, E)>>,
    f: F,
    vcand: Set<usize>,
    vis0: Set<usize>,
    vis1: Set<usize>,
    level: Seq<usize>,
    k: int,
    next0: Seq<usize>,
    newly: Seq<usize>,
    u: usize,
    cands: Seq<Candidate<K, E>>,
)
    requires
        keys.len() == adj.len(),
        0 <= k < level.len(),
        level[k] == u,
        u < keys.len(),
        forall|w: usize| #[trigger] vis0.contains(w) ==> settled(keys, adj, f, vis0, w) || pending_in(level, k, w) || next0.contains(w),
        vcand.subset_of(vis0),
        vis0.subset_of(vis1),
        forall|i: int| 0 <= i < adj[u as int]@.len() ==> #[trigger] covered(keys, vcand, cands, adj[u as int]@[i]),
        candidates_ok(keys, adj, u, f, cands),
        forall|m: int| #![trigger cands[m]] 0 <= m < cands.len() ==> key_visited(keys, vis1, cands[m].1) || cands[m].4 == Traverse::Skip,
        forall|w: usize| #[trigger] vis1.contains(w) ==> vis0.contains(w) || newly.contains(w),
    ensures
        forall|w: usize| #[trigger] vis1.contains(w) ==> settled(keys, adj, f, vis1, w) || pending_in(level, k + 1, w) || (next0
            + newly).contains(w),
{
    assert forall|i: int| 0 <= i < adj[u as int]@.len() implies #[trigger] edge_settled(keys, f, vis1, keys[u as int], adj[u as int]@[i]) by {
        let x = adj[u as int]@[i];
        assert(covered(keys, vcand, cands, x));
        if !keys.contains(x.0) {
        } else if key_visited(keys, vcand, x.0) {
            let w = choose|w: usize| #[trigger] vcand.contains(w) && (w as int) < keys.len() && keys[w as int] == x.0;
            assert(vis1.contains(w));
        } else {
            let m = choose|m: int| #![trigger cands[m]] 0 <= m < cands.len() && cands[m].1 == x.0 && cands[m].2 == x.1;
            assert(cands[m].0 == keys[u as int]);
            assert(explored(f, cands[m].0, cands[m].1, cands[m].2, cands[m].4));
        }
    }
    assert(settled(keys, adj, f, vis1, u));
    let nx = next0 + newly;
    assert forall|w: usize| #[trigger] vis1.contains(w) implies settled(keys, adj, f, vis1, w) || pending_in(level, k + 1, w)
        || nx.contains(w) by {
        if vis0.contains(w) {
            if settled(keys, adj, f, vis0, w) {
                lemma_settled_grow(keys, adj, f, vis0, vis1, w);
            } else if pending_in(level, k, w) {
                let q = choose|q: int| k <= q < level.len() && #[trigger] level[q] == w;
                if q > k {
                    assert(pending_in(level, k + 1, w));
                }
            } else {
                let q = choose|q: int| 0 <= q < next0.len() && next0[q] == w;
                assert(nx[q] == w);
            }
        } else {
            let q = choose|q: int| 0 <= q < newly.len() && newly[q] == w;
            assert(nx[next0.len() + q] == w);
        }
    }
}

#[verifier::rlimit(100)]
fn traverse_levels<K: Copy + PartialEq, E: Copy, F: Fn(K, K, E) -> Traverse>(
    s: &Snapshot<K, E>,
    source: &K,
    explorer: &F,
) -> (r: Option<Vec<(K, K, E)>>)
    requires
        keys_compare::<K>(),
        s.wf(),
        forall|a: K, b: K, c: E| explorer.requires((a, b, c)),
    ensures
        r matches Some(t) ==> is_traversal(s.keys(), s.adj(), *source, *explorer, t@) && t@.len() > 0 && {
            let l = t@[t@.len() - 1];
            explored(*explorer, l.0, l.1, l.2, Traverse::Finish)
        } && fresh_targets(t@, *source) && depth_ok(t@, *source) && (s.keys().no_duplicates() ==> forall|q: Seq<(K, K, E)>|
            #[trigger] open_walk(s.keys(), s.adj(), *explorer, q, *source) && q[q.len() - 1].1 == t@[t@.len() - 1].1 ==> q.len()
            >= depth(t@, t@[t@.len() - 1].1)),
        r matches Some(t) ==> depths_sorted(t@),
        r matches Some(t) ==> (s.keys().no_duplicates() ==> levels_explored(s.keys(), s.adj(), *explorer, *source, t@) && finish_prefix(
            s.keys(),
            s.adj(),
            *explorer,
            *source,
            t@,
        )),
        r matches Some(t) ==> (s.keys().no_duplicates() ==> edges_in_list_order(s.keys(), s.adj(), *explorer, *source, t@)),
        r is None && s.keys().contains(*source) ==> exists|src: usize, vis: Set<usize>|
            s.keys()[src as int] == *source && #[trigger] traversal_closed(s.keys(), s.adj(), *explorer, src, vis),
{
    let (keys, adj) = s.lists();
    let n = keys.len();
    let src = match index_of_key(keys, source) {
        Some(i) => i,
        None => {
            return None;
        },
    };
    let mut visited = visited_new();
    visited_insert(&mut visited, src);
    let mut tree: Vec<(K, K, E)> = Vec::new();
    let mut level: Vec<usize> = Vec::new();
    level.push(src);
    proof {
        assert(level@[0] == src);
        assert(pending_in(level@, 0, src));
        assert(visited_indices(visited).contains(src));
        assert(key_visited(keys@, visited_indices(visited), *source));
        assert(forall|w: usize| #[trigger] visited_indices(visited).contains(w) ==> w == src);
        assert(depth(tree@, keys@[src as int]) == 0);
    }
    proof {
        reveal(levels_explored);
        reveal(vis_reached);
        reveal(edges_in_list_order);
        assert(vis_reached(keys@, visited_indices(visited), tree@, *source));
    }
    let ghost mut d: nat = 0;
    loop
        invariant
            keys_compare::<K>(),
            s.wf(),
            keys@ == s.keys(),
            adj@ == s.adj(),
            keys@.len() == adj@.len(),
            n == keys@.len(),
            forall|a: K, b: K, c: E| explorer.requires((a, b, c)),
            is_traversal(keys@, adj@, *source, *explorer, tree@),
            visited_ok(visited_indices(visited), n as nat),
            level@.len() > 0,
            level@.len() <= visited_indices(visited).len(),
            forall|i: int| 0 <= i < level@.len() ==> #[trigger] reached_node(keys@, *source, tree@, level@[i]),
            src < n,
            keys@[src as int] == *source,
            visited_indices(visited).contains(src),
            forall|w: usize| #[trigger] visited_indices(visited).contains(w) ==> first_index(keys@, w),
            fresh_targets(tree@, *source),
            targets_visited(keys@, visited_indices(visited), tree@),
            key_visited(keys@, visited_indices(visited), *source),
            forall|w: usize| #[trigger] visited_indices(visited).contains(w) ==> w == src || included(keys@, *explorer, w),
            forall|w: usize| #[trigger] visited_indices(visited).contains(w) ==> settled(keys@, adj@, *explorer, visited_indices(visited), w)
                || pending_in(level@, 0, w),
            depth_ok(tree@, *source),
            forall|i: int| 0 <= i < level@.len() ==> visited_indices(visited).contains(#[trigger] level@[i]) && depth(
                tree@,
                keys@[level@[i] as int],
            ) == d,
            keys@.no_duplicates() ==> reached_within(keys@, adj@, *explorer, *source, visited_indices(visited), d),
            depths_sorted(tree@),
            depths_within(tree@, d),
            vis_reached(keys@, visited_indices(visited), tree@, *source),
            keys@.no_duplicates() ==> levels_explored(keys@, adj@, *explorer, *source, tree@),
            keys@.no_duplicates() ==> edges_in_list_order(keys@, adj@, *explorer, *source, tree@),
        decreases n - visited_indices(visited).len() + level@.len(),
    {
        proof {
            lemma_visited_len(visited_indices(visited), n);
        }
        let ghost v_start = visited_indices(visited).len();
        let ghost vs = visited_indices(visited);
        let mut next: Vec<usize> = Vec::new();
        let mut k: usize = 0;
        while k < level.len()
            invariant
                keys_compare::<K>(),
                keys@ == s.keys(),
                adj@ == s.adj(),
                keys@.len() == adj@.len(),
                n == keys@.len(),
                s.wf(),
                k <= level@.len(),
                forall|a: K, b: K, c: E| explorer.requires((a, b, c)),
                is_traversal(keys@, adj@, *source, *explorer, tree@),
                visited_ok(visited_indices(visited), n as nat),
                visited_indices(visited).len() == v_start + next@.len(),
                forall|i: int| 0 <= i < level@.len() ==> #[trigger] reached_node(keys@, *source, tree@, level@[i]),
                forall|i: int| 0 <= i < next@.len() ==> #[trigger] reached_node(keys@, *source, tree@, next@[i]),
                src < n,
                keys@[src as int] == *source,
                visited_indices(visited).contains(src),
                forall|w: usize| #[trigger] visited_indices(visited).contains(w) ==> first_index(keys@, w),
                fresh_targets(tree@, *source),
                targets_visited(keys@, visited_indices(visited), tree@),
                key_visited(keys@, visited_indices(visited), *source),
                forall|w: usize| #[trigger] visited_indices(visited).contains(w) ==> w == src || included(keys@, *explorer, w),
                forall|w: usize| #[trigger] visited_indices(visited).contains(w) ==> settled(
                    keys@,
                    adj@,
                    *explorer,
                    visited_indices(visited),
                    w,
                ) || pending_in(level@, k as int, w) || next@.contains(w),
                depth_ok(tree@, *source),
                forall|i: int| 0 <= i < level@.len() ==> visited_indices(visited).contains(#[trigger] level@[i]) && depth(
                    tree@,
                    keys@[level@[i] as int],
                ) == d,
                forall|i: int| 0 <= i < next@.len() ==> depth(tree@, keys@[#[trigger] next@[i] as int]) == d + 1 && !vs.contains(next@[i])
                    && visited_indices(visited).contains(next@[i]),
                vs.subset_of(visited_indices(visited)),
                key_visited(keys@, vs, *source),
                keys@.no_duplicates() ==> reached_within(keys@, adj@, *explorer, *source, vs, d),
                depths_sorted(tree@),
                depths_within(tree@, d + 1),
                vis_reached(keys@, visited_indices(visited), tree@, *source),
                keys@.no_duplicates() ==> levels_explored(keys@, adj@, *explorer, *source, tree@),
                keys@.no_duplicates() ==> edges_in_list_order(keys@, adj@, *explorer, *source, tree@),
            decreases level@.len() - k,
        {
            let u = level[k];
            assert(reached_node(keys@, *source, tree@, level@[k as int]));
            let cands = candidates(s, u, &visited, explorer);
            let ghost t0 = tree@;
            let ghost vis0 = visited_indices(visited);
            proof {
                assert(visited_indices(visited).contains(level@[k as int]) && depth(tree@, keys@[level@[k as int] as int]) == d);
                assert(key_visited(keys@, vis0, keys@[u as int]));
            }
            proof {
                if keys@.no_duplicates() {
                    assert forall|uu: int| 0 <= uu < keys@.len() && reached_by(t0, *source, t0.len() as int, #[trigger] keys@[uu]) && depth(t0, keys@[uu])
                        < d implies settled(keys@, adj@, *explorer, vis0, uu as usize) by {
                        assert(key_visited(keys@, vis0, keys@[uu])) by {
                            if keys@[uu] != *source {
                                let q = choose|q: int| #![trigger t0[q]] 0 <= q < t0.len() && q < t0.len() && t0[q].1 == keys@[uu];
                                assert(key_visited(keys@, vis0, t0[q].1));
                            }
                        }
                        let z = choose|z: usize| #[trigger] vis0.contains(z) && (z as int) < keys@.len() && keys@[z as int] == keys@[uu];
                        assert(z as int == uu);
                        if pending_in(level@, k as int, z) {
                            let jj = choose|jj: int| k <= jj < level@.len() && level@[jj] == z;
                            assert(depth(t0, keys@[level@[jj] as int]) == d);
                        }
                        if next@.contains(z) {
                            let jj = choose|jj: int| 0 <= jj < next@.len() && next@[jj] == z;
                            assert(depth(t0, keys@[next@[jj] as int]) == d + 1);
                        }
                    }
                    assert(depth(t0, keys@[u as int]) == d);
                    reveal(level_ready);
                    assert(level_ready(keys@, adj@, *explorer, *source, t0, vis0, depth(t0, keys@[u as int])));
                }
            }
            let (finish, newly) = take_candidates(keys, adj, &cands, u, explorer, &mut visited, &mut tree, Ghost(*source), Ghost(vis0));
            proof {
                assert(depth(t0, keys@[u as int]) == d);
                assert forall|q: int| 0 <= q < tree@.len() implies depth(tree@, #[trigger] tree@[q].1) <= d + 1 by {
                    if q < t0.len() {
                        assert(depth(tree@, tree@[q].1) == depth(t0, t0[q].1));
                    }
                }
            }
            if finish {
                proof {
                    let v = tree@[tree@.len() - 1].1;
                    if keys@.no_duplicates() {
                        assert forall|q: Seq<(K, K, E)>| #[trigger] open_walk(keys@, adj@, *explorer, q, *source) && q[q.len() - 1].1 == v
                            implies q.len() >= depth(tree@, v) by {
                            if q.len() <= d {
                                assert(key_visited(keys@, vs, v));
                                let w = choose|w: usize| #[trigger] vs.contains(w) && (w as int) < keys@.len() && keys@[w as int] == v;
                                assert(vis0.contains(w));
                            }
                        }
                    }
                }
                return Some(tree);
            }
            proof {
                assert forall|i: int| 0 <= i < level@.len() implies visited_indices(visited).contains(#[trigger] level@[i]) && depth(
                    tree@,
                    keys@[level@[i] as int],
                ) == d by {
                    assert(vis0.contains(level@[i]) && depth(t0, keys@[level@[i] as int]) == d);
                    assert(key_visited(keys@, vis0, keys@[level@[i] as int]));
                }
                assert forall|i: int| 0 <= i < next@.len() implies depth(tree@, keys@[#[trigger] next@[i] as int]) == d + 1 && !vs.contains(next@[i])
                    && visited_indices(visited).contains(next@[i]) by {
                    assert(depth(t0, keys@[next@[i] as int]) == d + 1 && vis0.contains(next@[i]));
                    assert(key_visited(keys@, vis0, keys@[next@[i] as int]));
                }
            }
            proof {
                assert forall|i: int| 0 <= i < level@.len() implies #[trigger] reached_node(keys@, *source, tree@, level@[i]) by {
                    assert(reached_node(keys@, *source, t0, level@[i]));
                    if keys@[level@[i] as int] != *source {
                        lemma_reached_extends(tree@, t0, keys@[level@[i] as int]);
                    }
                }
                assert forall|i: int| 0 <= i < next@.len() implies #[trigger] reached_node(keys@, *source, tree@, next@[i]) by {
                    assert(reached_node(keys@, *source, t0, next@[i]));
                    if keys@[next@[i] as int] != *source {
                        lemma_reached_extends(tree@, t0, keys@[next@[i] as int]);
                    }
                }
            }
            let mut m: usize = 0;
            let ghost nx = next@;
            while m < newly.len()
                invariant
                    m <= newly@.len(),
                    next@ == nx + newly@.subrange(0, m as int),
                    forall|i: int| 0 <= i < newly@.len() ==> #[trigger] reached_node(keys@, *source, tree@, newly@[i]),
                    forall|i: int| 0 <= i < nx.len() ==> #[trigger] reached_node(keys@, *source, tree@, nx[i]),
                decreases newly@.len() - m,
            {
                next.push(newly[m]);
                proof {
                    assert(newly@.subrange(0, m + 1) == newly@.subrange(0, m as int).push(newly@[m as int]));
                }
                m = m + 1;
            }
            proof {
                assert(newly@.subrange(0, newly@.len() as int) == newly@);
                assert forall|i: int| 0 <= i < next@.len() implies #[trigger] reached_node(keys@, *source, tree@, next@[i]) by {
                    if i < nx.len() {
                        assert(next@[i] == nx[i]);
                    } else {
                        assert(next@[i] == newly@[i - nx.len()]);
                    }
                }
                assert forall|i: int| 0 <= i < next@.len() implies depth(tree@, keys@[#[trigger] next@[i] as int]) == d + 1 && !vs.contains(next@[i])
                    && visited_indices(visited).contains(next@[i]) by {
                    if i < nx.len() {
                        assert(next@[i] == nx[i]);
                    } else {
                        let m = i - nx.len();
                        assert(next@[i] == newly@[m]);
                        assert(depth(tree@, keys@[newly@[m] as int]) == depth(t0, keys@[u as int]) + 1);
                    }
                }
                lemma_level_step(keys@, adj@, *explorer, vis0, vis0, visited_indices(visited), level@, k as int, nx, newly@, u, cands@);
            }
            k = k + 1;
        }
        if next.len() == 0 {
            proof {
                assert(traversal_closed(keys@, adj@, *explorer, src, visited_indices(visited)));
            }
            return None;
        }
        proof {
            lemma_visited_len(visited_indices(visited), n);
            assert forall|w: usize| #[trigger] vs.contains(w) implies (w as int) < keys@.len() && settled(keys@, adj@, *explorer, visited_indices(visited), w) by {
                assert(visited_indices(visited).contains(w));
                if next@.contains(w) {
                    let q = choose|q: int| 0 <= q < next@.len() && next@[q] == w;
                    assert(!vs.contains(next@[q]));
                }
            }
            if keys@.no_duplicates() {
                lemma_reached_next(keys@, adj@, *explorer, *source, vs, visited_indices(visited), d);
            }
            assert forall|w: usize| #[trigger] visited_indices(visited).contains(w) implies settled(keys@, adj@, *explorer, visited_indices(visited), w)
                || pending_in(next@, 0, w) by {
                if next@.contains(w) {
                    let q = choose|q: int| 0 <= q < next@.len() && next@[q] == w;
                    assert(next@[q] == w);
                }
            }
        }
        level = next;
        proof {
            d = d + 1;
        }
    }
}

/// Examines the nodes of a level in parallel with rayon's
/// `par_iter().map(..).collect()`: entry `i` of the result is what
/// `candidates` gives for `level[i]` (an indexed parallel iterator collects
/// in order).
#[verifier::external_body]
fn par_candidates<K: Copy + PartialEq + Send + Sync, E: Copy + Send + Sync, F: Fn(K, K, E) -> Traverse + Sync>(
    s: &Snapshot<K, E>,
    level: &Vec<usize>,
    visited: &AHashSet<usize>,
    f: &F,
) -> (r: Vec<Vec<Candidate<K, E>>>)
    requires
        keys_compare::<K>(),
        s.wf(),
        forall|i: int| 0 <= i < level@.len() ==> level@[i] < s.keys().len(),
        forall|a: K, b: K, c: E| f.requires((a, b, c)),
    ensures
        r@.len() == level@.len(),
        forall|i: int| 0 <= i < level@.len() ==> #[trigger] candidates_ok(s.keys(), s.adj(), level@[i], *f, r@[i]@),
        forall|i: int| 0 <= i < level@.len() ==> #[trigger] covers(s.keys(), s.adj(), visited_indices(*visited), level@[i], r@[i]@),
        forall|i: int| 0 <= i < level@.len() ==> #[trigger] cands_in_order(s.keys(), s.adj(), visited_indices(*visited), level@[i], r@[i]@),
{
    level.par_iter().map(|u| candidates(s, *u, visited, f)).collect()
}

#[verifier::rlimit(100)]
fn traverse_levels_par<
    K: Copy + PartialEq + Send + Sync,
    E: Copy + Send + Sync,
    F: Fn(K, K, E) -> Traverse + Sync,
>(
    s: &Snapshot<K, E>,
    source: &K,
    explorer: &F,
) -> (r: Option<Vec<(K, K, E)>>)
    requires
        keys_compare::<K>(),
        s.wf(),
        forall|a: K, b: K, c: E| explorer.requires((a, b, c)),
    ensures
        r matches Some(t) ==> is_traversal(s.keys(), s.adj(), *source, *explorer, t@) && t@.len() > 0 && {
            let l = t@[t@.len() - 1];
            explored(*explorer, l.0, l.1, l.2, Traverse::Finish)
        } && fresh_targets(t@, *source) && depth_ok(t@, *source) && (s.keys().no_duplicates() ==> forall|q: Seq<(K, K, E)>|
            #[trigger] open_walk(s.keys(), s.adj(), *explorer, q, *source) && q[q.len() - 1].1 == t@[t@.len() - 1].1 ==> q.len()
            >= depth(t@, t@[t@.len() - 1].1)),
        r matches Some(t) ==> depths_sorted(t@),
        r matches Some(t) ==> (s.keys().no_duplicates() ==> levels_explored(s.keys(), s.adj(), *explorer, *source, t@) && finish_prefix(
            s.keys(),
            s.adj(),
            *explorer,
            *source,
            t@,
        )),
        r matches Some(t) ==> (s.keys().no_duplicates() ==> edges_in_list_order(s.keys(), s.adj(), *explorer, *source, t@)),
        r is None && s.keys().contains(*source) ==> exists|src: usize, vis: Set<usize>|
            s.keys()[src as int] == *source && #[trigger] traversal_closed(s.keys(), s.adj(), *explorer, src, vis),
{
    let (keys, adj) = s.lists();
    let n = keys.len();
    let src = match index_of_key(keys, source) {
        Some(i) => i,
        None => {
            return None;
        },
    };
    let mut visited = visited_new();
    visited_insert(&mut visited, src);
    let mut tree: Vec<(K, K, E)> = Vec::new();
    let mut level: Vec<usize> = Vec::new();
    level.push(src);
    proof {
        assert(level@[0] == src);
        assert(pending_in(level@, 0, src));
        assert(visited_indices(visited).contains(src));
        assert(key_visited(keys@, visited_indices(visited), *source));
        assert(forall|w: usize| #[trigger] visited_indices(visited).contains(w) ==> w == src);
        assert(depth(tree@, keys@[src as int]) == 0);
    }
    proof {
        reveal(levels_explored);
        reveal(vis_reached);
        reveal(edges_in_list_order);
        assert(vis_reached(keys@, visited_indices(visited), tree@, *source));
    }
    let ghost mut d: nat = 0;
    loop
        invariant
            keys_compare::<K>(),
            s.wf(),
            keys@ == s.keys(),
            adj@ == s.adj(),
            keys@.len() == adj@.len(),
            n == keys@.len(),
            forall|a: K, b: K, c: E| explorer.requires((a, b, c)),
            is_traversal(keys@, adj@, *source, *explorer, tree@),
            visited_ok(visited_indices(visited), n as nat),
            level@.len() > 0,
            level@.len() <= visited_indices(visited).len(),
            forall|i: int| 0 <= i < level@.len() ==> #[trigger] reached_node(keys@, *source, tree@, level@[i]),
            src < n,
            keys@[src as int] == *source,
            visited_indices(visited).contains(src),
            forall|w: usize| #[trigger] visited_indices(visited).contains(w) ==> first_index(keys@, w),
            fresh_targets(tree@, *source),
            targets_visited(keys@, visited_indices(visited), tree@),
            key_visited(keys@, visited_indices(visited), *source),
            forall|w: usize| #[trigger] visited_indices(visited).contains(w) ==> w == src || included(keys@, *explorer, w),
            forall|w: usize| #[trigger] visited_indices(visited).contains(w) ==> settled(keys@, adj@, *explorer, visited_indices(visited), w)
                || pending_in(level@, 0, w),
            depth_ok(tree@, *source),
            forall|i: int| 0 <= i < level@.len() ==> visited_indices(visited).contains(#[trigger] level@[i]) && depth(
                tree@,
                keys@[level@[i] as int],
            ) == d,
            keys@.no_duplicates() ==> reached_within(keys@, adj@, *explorer, *source, visited_indices(visited), d),
            depths_sorted(tree@),
            depths_within(tree@, d),
            vis_reached(keys@, visited_indices(visited), tree@, *source),
            keys@.no_duplicates() ==> levels_explored(keys@, adj@, *explorer, *source, tree@),
            keys@.no_duplicates() ==> edges_in_list_order(keys@, adj@, *explorer, *source, tree@),
        decreases n - visited_indices(visited).len() + level@.len(),
    {
        proof {
            lemma_visited_len(visited_indices(visited), n);
        }
        let ghost v_start = visited_indices(visited).len();
        let ghost vs = visited_indices(visited);
        assert forall|i: int| 0 <= i < level@.len() implies level@[i] < s.keys().len() by {
            assert(reached_node(keys@, *source, tree@, level@[i]));
        }
        let all = par_candidates(s, &level, &visited, explorer);
        let mut next: Vec<usize> = Vec::new();
        let mut k: usize = 0;
        while k < level.len()
            invariant
                keys_compare::<K>(),
                keys@ == s.keys(),
                adj@ == s.adj(),
                keys@.len() == adj@.len(),
                n == keys@.len(),
                s.wf(),
                k <= level@.len(),
                forall|a: K, b: K, c: E| explorer.requires((a, b, c)),
                is_traversal(keys@, adj@, *source, *explorer, tree@),
                visited_ok(visited_indices(visited), n as nat),
                visited_indices(visited).len() == v_start + next@.len(),
                forall|i: int| 0 <= i < level@.len() ==> #[trigger] reached_node(keys@, *source, tree@, level@[i]),
                forall|i: int| 0 <= i < next@.len() ==> #[trigger] reached_node(keys@, *source, tree@, next@[i]),
                src < n,
                keys@[src as int] == *source,
                visited_indices(visited).contains(src),
                forall|w: usize| #[trigger] visited_indices(visited).contains(w) ==> first_index(keys@, w),
                fresh_targets(tree@, *source),
                targets_visited(keys@, visited_indices(visited), tree@),
                key_visited(keys@, visited_indices(visited), *source),
                forall|w: usize| #[trigger] visited_indices(visited).contains(w) ==> w == src || included(keys@, *explorer, w),
                forall|w: usize| #[trigger] visited_indices(visited).contains(w) ==> settled(
                    keys@,
                    adj@,
                    *explorer,
                    visited_indices(visited),
                    w,
                ) || pending_in(level@, k as int, w) || next@.contains(w),
                depth_ok(tree@, *source),
                forall|i: int| 0 <= i < level@.len() ==> visited_indices(visited).contains(#[trigger] level@[i]) && depth(
                    tree@,
                    keys@[level@[i] as int],
                ) == d,
                forall|i: int| 0 <= i < next@.len() ==> depth(tree@, keys@[#[trigger] next@[i] as int]) == d + 1 && !vs.contains(next@[i])
                    && visited_indices(visited).contains(next@[i]),
                vs.subset_of(visited_indices(visited)),
                key_visited(keys@, vs, *source),
                keys@.no_duplicates() ==> reached_within(keys@, adj@, *explorer, *source, vs, d),
                depths_sorted(tree@),
                depths_within(tree@, d + 1),
                vis_reached(keys@, visited_indices(visited), tree@, *source),
                keys@.no_duplicates() ==> levels_explored(keys@, adj@, *explorer, *source, tree@),
                keys@.no_duplicates() ==> edges_in_list_order(keys@, adj@, *explorer, *source, tree@),
                forall|ii: int| 0 <= ii < level@.len() ==> #[trigger] cands_in_order(keys@, adj@, vs, level@[ii], all@[ii]@),
                vs.subset_of(visited_indices(visited)),
                all@.len() == level@.len(),
                forall|i: int| 0 <= i < level@.len() ==> #[trigger] candidates_ok(keys@, adj@, level@[i], *explorer, all@[i]@),
                forall|i: int| 0 <= i < level@.len() ==> #[trigger] covers(keys@, adj@, vs, level@[i], all@[i]@),
            decreases level@.len() - k,
        {
            let u = level[k];
            assert(reached_node(keys@, *source, tree@, level@[k as int]));
            let cands = &all[k];
            assert(candidates_ok(keys@, adj@, level@[k as int], *explorer, all@[k as int]@));
            assert(covers(keys@, adj@, vs, level@[k as int], all@[k as int]@));
            let ghost t0 = tree@;
            let ghost vis0 = visited_indices(visited);
            proof {
                assert(visited_indices(visited).contains(level@[k as int]) && depth(tree@, keys@[level@[k as int] as int]) == d);
                assert(key_visited(keys@, vis0, keys@[u as int]));
            }
            proof {
                if keys@.no_duplicates() {
                    assert forall|uu: int| 0 <= uu < keys@.len() && reached_by(t0, *source, t0.len() as int, #[trigger] keys@[uu]) && depth(t0, keys@[uu])
                        < d implies settled(keys@, adj@, *explorer, vis0, uu as usize) by {
                        assert(key_visited(keys@, vis0, keys@[uu])) by {
                            if keys@[uu] != *source {
                                let q = choose|q: int| #![trigger t0[q]] 0 <= q < t0.len() && q < t0.len() && t0[q].1 == keys@[uu];
                                assert(key_visited(keys@, vis0, t0[q].1));
                            }
                        }
                        let z = choose|z: usize| #[trigger] vis0.contains(z) && (z as int) < keys@.len() && keys@[z as int] == keys@[uu];
                        assert(z as int == uu);
                        if pending_in(level@, k as int, z) {
                            let jj = choose|jj: int| k <= jj < level@.len() && level@[jj] == z;
                            assert(depth(t0, keys@[level@[jj] as int]) == d);
                        }
                        if next@.contains(z) {
                            let jj = choose|jj: int| 0 <= jj < next@.len() && next@[jj] == z;
                            assert(depth(t0, keys@[next@[jj] as int]) == d + 1);
                        }
                    }
                    assert(depth(t0, keys@[u as int]) == d);
                    reveal(level_ready);
                    assert(level_ready(keys@, adj@, *explorer, *source, t0, vis0, depth(t0, keys@[u as int])));
                }
            }
            let (finish, newly) = take_candidates(keys, adj, cands, u, explorer, &mut visited, &mut tree, Ghost(*source), Ghost(vs));
            proof {
                assert(depth(t0, keys@[u as int]) == d);
                assert forall|q: int| 0 <= q < tree@.len() implies depth(tree@, #[trigger] tree@[q].1) <= d + 1 by {
                    if q < t0.len() {
                        assert(depth(tree@, tree@[q].1) == depth(t0, t0[q].1));
                    }
                }
            }
            if finish {
                proof {
                    let v = tree@[tree@.len() - 1].1;
                    if keys@.no_duplicates() {
                        assert forall|q: Seq<(K, K, E)>| #[trigger] open_walk(keys@, adj@, *explorer, q, *source) && q[q.len() - 1].1 == v
                            implies q.len() >= depth(tree@, v) by {
                            if q.len() <= d {
                                assert(key_visited(keys@, vs, v));
                                let w = choose|w: usize| #[trigger] vs.contains(w) && (w as int) < keys@.len() && keys@[w as int] == v;
                                assert(vis0.contains(w));
                            }
                        }
                    }
                }
                return Some(tree);
            }
            proof {
                assert forall|i: int| 0 <= i < level@.len() implies visited_indices(visited).contains(#[trigger] level@[i]) && depth(
                    tree@,
                    keys@[level@[i] as int],
                ) == d by {
                    assert(vis0.contains(level@[i]) && depth(t0, keys@[level@[i] as int]) == d);
                    assert(key_visited(keys@, vis0, keys@[level@[i] as int]));
                }
                assert forall|i: int| 0 <= i < next@.len() implies depth(tree@, keys@[#[trigger] next@[i] as int]) == d + 1 && !vs.contains(next@[i])
                    && visited_indices(visited).contains(next@[i]) by {
                    assert(depth(t0, keys@[next@[i] as int]) == d + 1 && vis0.contains(next@[i]));
                    assert(key_visited(keys@, vis0, keys@[next@[i] as int]));
                }
            }
            proof {
                assert forall|i: int| 0 <= i < level@.len() implies #[trigger] reached_node(keys@, *source, tree@, level@[i]) by {
                    assert(reached_node(keys@, *source, t0, level@[i]));
                    if keys@[level@[i] as int] != *source {
                        lemma_reached_extends(tree@, t0, keys@[level@[i] as int]);
                    }
                }
                assert forall|i: int| 0 <= i < next@.len() implies #[trigger] reached_node(keys@, *source, tree@, next@[i]) by {
                    assert(reached_node(keys@, *source, t0, next@[i]));
                    if keys@[next@[i] as int] != *source {
                        lemma_reached_extends(tree@, t0, keys@[next@[i] as int]);
                    }
                }
            }
            let mut m: usize = 0;
            let ghost nx = next@;
            while m < newly.len()
                invariant
                    m <= newly@.len(),
                    next@ == nx + newly@.subrange(0, m as int),
                    forall|i: int| 0 <= i < newly@.len() ==> #[trigger] reached_node(keys@, *source, tree@, newly@[i]),
                    forall|i: int| 0 <= i < nx.len() ==> #[trigger] reached_node(keys@, *source, tree@, nx[i]),
                decreases newly@.len() - m,
            {
                next.push(newly[m]);
                proof {
                    assert(newly@.subrange(0, m + 1) == newly@.subrange(0, m as int).push(newly@[m as int]));
                }
                m = m + 1;
            }
            proof {
                assert(newly@.subrange(0, newly@.len() as int) == newly@);
                assert forall|i: int| 0 <= i < next@.len() implies #[trigger] reached_node(keys@, *source, tree@, next@[i]) by {
                    if i < nx.len() {
                        assert(next@[i] == nx[i]);
                    } else {
                        assert(next@[i] == newly@[i - nx.len()]);
                    }
                }
                assert forall|i: int| 0 <= i < next@.len() implies depth(tree@, keys@[#[trigger] next@[i] as int]) == d + 1 && !vs.contains(next@[i])
                    && visited_indices(visited).contains(next@[i]) by {
                    if i < nx.len() {
                        assert(next@[i] == nx[i]);
                    } else {
                        let m = i - nx.len();
                        assert(next@[i] == newly@[m]);
                        assert(depth(tree@, keys@[newly@[m] as int]) == depth(t0, keys@[u as int]) + 1);
                    }
                }
                lemma_level_step(keys@, adj@, *explorer, vs, vis0, visited_indices(visited), level@, k as int, nx, newly@, u, cands@);
            }
            k = k + 1;
        }
        if next.len() == 0 {
            proof {
                assert(traversal_closed(keys@, adj@, *explorer, src, visited_indices(visited)));
            }
            return None;
        }
        proof {
            lemma_visited_len(visited_indices(visited), n);
            assert forall|w: usize| #[trigger] vs.contains(w) implies (w as int) < keys@.len() && settled(keys@, adj@, *explorer, visited_indices(visited), w) by {
                assert(visited_indices(visited).contains(w));
                if next@.contains(w) {
                    let q = choose|q: int| 0 <= q < next@.len() && next@[q] == w;
                    assert(!vs.contains(next@[q]));
                }
            }
            if keys@.no_duplicates() {
                lemma_reached_next(keys@, adj@, *explorer, *source, vs, visited_indices(visited), d);
            }
            assert forall|w: usize| #[trigger] visited_indices(visited).contains(w) implies settled(keys@, adj@, *explorer, visited_indices(visited), w)
                || pending_in(next@, 0, w) by {
                if next@.contains(w) {
                    let q = choose|q: int| 0 <= q < next@.len() && next@[q] == w;
                    assert(next@[q] == w);
                }
            }
        }
        level = next;
        proof {
            d = d + 1;
        }
    }
}


/// What either traversal returns: a list of traversed edges whose last
/// one the explorer finished on, or nothing once the traversal from the
/// source closed without finishing.
pub open spec fn traversal_outcome<K, E, F: Fn(K, K, E) -> Traverse>(
    keys: Seq<K>,
    adj: Seq<Vec<(K, E)>>,
    f: F,
    source: K,
    r: Option<Seq<(K, K, E)>>,
) -> bool {
    &&& r matches Some(t) ==> is_traversal(keys, adj, source, f, t) && t.len() > 0 && explored(
        f,
        t[t.len() - 1].0,
        t[t.len() - 1].1,
        t[t.len() - 1].2,
        Traverse::Finish,
    )
    &&& r is None && keys.contains(source) ==> exists|src: usize, vis: Set<usize>|
        keys[src as int] == source && #[trigger] traversal_closed(keys, adj, f, src, vis)
}

/// The explorer finishes on the edges into `target` and includes every
/// other edge.
pub open spec fn finds<K, E, F: Fn(K, K, E) -> Traverse>(f: F, target: K) -> bool {
    forall|u: K, v: K, e: E, x: Traverse| #[trigger] explored(f, u, v, e, x) ==> x == (if v == target {
        Traverse::Finish
    } else {
        Traverse::Include
    })
}

/// Every traversed edge ends at a node some walk from the source reaches.
proof fn lemma_traversal_walk<K, E, F: Fn(K, K, E) -> Traverse>(
    keys: Seq<K>,
    adj: Seq<Vec<(K, E)>>,
    f: F,
    source: K,
    t: Seq<(K, K, E)>,
    q: int,
) -> (p: Seq<(K, K, E)>)
    requires
        is_traversal(keys, adj, source, f, t),
        0 <= q < t.len(),
    ensures
        is_walk(keys, adj, p, source, t[q].1),
    decreases q,
{
    if t[q].0 == source {
        let p = seq![t[q]];
        assert(is_step(keys, adj, p[0].0, p[0].1, p[0].2));
        p
    } else {
        let q2 = choose|q2: int| #![trigger t[q2]] 0 <= q2 < q && q2 < t.len() && t[q2].1 == t[q].0;
        let p0 = lemma_traversal_walk(keys, adj, f, source, t, q2);
        let p = p0.push(t[q]);
        assert forall|j: int| #![trigger p[j]] 0 <= j < p.len() implies is_step(keys, adj, p[j].0, p[j].1, p[j].2) by {
            if j < p0.len() {
                assert(p[j] == p0[j]);
            }
        }
        assert forall|j: int| #![trigger p[j]] 0 <= j < p.len() - 1 implies p[j].1 == p[j + 1].0 by {
            if j < p0.len() - 1 {
                assert(p[j] == p0[j]);
                assert(p[j + 1] == p0[j + 1]);
            }
        }
        p
    }
}

/// Along a walk from the source of a closed traversal whose explorer
/// skips nothing, every node is reached.
proof fn lemma_closed_walk_reached<K, E, F: Fn(K, K, E) -> Traverse>(
    keys: Seq<K>,
    adj: Seq<Vec<(K, E)>>,
    f: F,
    src: usize,
    vis: Set<usize>,
    target: K,
    p: Seq<(K, K, E)>,
    m: int,
)
    requires
        keys.no_duplicates(),
        keys.contains(target),
        finds(f, target),
        traversal_closed(keys, adj, f, src, vis),
        is_walk(keys, adj, p, keys[src as int], target),
        0 <= m < p.len(),
    ensures
        key_visited(keys, vis, p[m].1),
    decreases m,
{
    let u = p[m].0;
    let w: usize = if m == 0 {
        assert(vis.contains(src));
        src
    } else {
        lemma_closed_walk_reached(keys, adj, f, src, vis, target, p, m - 1);
        assert(p[m - 1].1 == p[m].0);
        choose|w: usize| #[trigger] vis.contains(w) && (w as int) < keys.len() && keys[w as int] == u
    };
    assert(vis.contains(w) && keys[w as int] == u);
    assert(is_step(keys, adj, p[m].0, p[m].1, p[m].2));
    let i = choose|i: int| #![trigger adj[i]] 0 <= i < keys.len() && i < adj.len() && keys[i] == u && adj[i]@.contains((p[m].1, p[m].2));
    assert(i == w);
    let k = choose|k: int| 0 <= k < adj[i]@.len() && adj[i]@[k] == (p[m].1, p[m].2);
    assert(settled(keys, adj, f, vis, w));
    assert(edge_settled(keys, f, vis, keys[w as int], adj[w as int]@[k]));
    assert(keys.contains(p[m].1)) by {
        if m + 1 < p.len() {
            assert(p[m].1 == p[m + 1].0);
            assert(is_step(keys, adj, p[m + 1].0, p[m + 1].1, p[m + 1].2));
        }
    }
    if explored(f, u, p[m].1, p[m].2, Traverse::Skip) {
        assert(Traverse::Skip == (if p[m].1 == target { Traverse::Finish } else { Traverse::Include }));
    }
}

/// With an explorer that finishes on the edges into `target` and includes
/// every other edge, a traversal from `source` (either of the two, which
/// both return a `traversal_outcome`) finds something exactly when some
/// walk leads from `source` to `target`.
pub proof fn law_traversal_finds_exactly_what_is_reachable<K, E, F: Fn(K, K, E) -> Traverse>(
    keys: Seq<K>,
    adj: Seq<Vec<(K, E)>>,
    f: F,
    source: K,
    target: K,
    r: Option<Seq<(K, K, E)>>,
)
    requires
        keys.no_duplicates(),
        keys.contains(source),
        keys.contains(target),
        source != target,
        finds(f, target),
        traversal_outcome(keys, adj, f, source, r),
    ensures
        r is Some <==> exists|p: Seq<(K, K, E)>| #[trigger] is_walk(keys, adj, p, source, target),
{
    match r {
        Some(t) => {
            let l = t[t.len() - 1];
            assert(Traverse::Finish == (if l.1 == target { Traverse::Finish } else { Traverse::Include }));
            let p = lemma_traversal_walk(keys, adj, f, source, t, t.len() - 1);
            assert(is_walk(keys, adj, p, source, target));
        },
        None => {
            let (src, vis) = choose|src: usize, vis: Set<usize>| keys[src as int] == source && #[trigger] traversal_closed(keys, adj, f, src, vis);
            assert forall|p: Seq<(K, K, E)>| !#[trigger] is_walk(keys, adj, p, source, target) by {
                if is_walk(keys, adj, p, source, target) {
                    lemma_closed_walk_reached(keys, adj, f, src, vis, target, p, p.len() - 1);
                    let w = choose|w: usize| #[trigger] vis.contains(w) && (w as int) < keys.len() && keys[w as int] == target;
                    assert(w != src);
                    assert(included(keys, f, w));
                    let (a, e) = choose|a: K, e: E| #[trigger] explored(f, a, keys[w as int], e, Traverse::Include);
                    assert(Traverse::Include == (if keys[w as int] == target { Traverse::Finish } else { Traverse::Include }));
                }
            }
        },
    }
}

} // verus!
