//! Orderings of the nodes and edges that can be reached from a root:
//! depth-first pre-order and post-order, and breadth-first level order.
use vstd::prelude::*;
use ahash::AHashSet;
use crate::keys_compare;
use crate::search::{
    Snapshot, index_of_key, is_step, accepts, is_tree, reached_before, reached_node, visited_indices, visited_new,
    visited_insert, visited_contains, visited_ok, lemma_visited_len, lemma_tree_push, lemma_reached_extends, extends,
    is_walk, blocked, edge_done, done_with, done_upto, key_visited, closed_search, lemma_closed_search_visits, pending_in,
    lemma_after_expand, lemma_done_grow, rooted,
};
use crate::graph_search::follow_all;
use crate::traverse::{depth, depth_ok, fresh_targets, lemma_depth_push};

verus! {

broadcast use vstd::set::group_set_axioms, vstd::seq_lib::group_seq_properties;

/// `k` is reached from one of the first `n` nodes of `d` along an edge of
/// the snapshot that `f` accepts.
pub open spec fn reached_from<K, E, F: Fn(K, K, E) -> bool>(
    keys: Seq<K>,
    adj: Seq<Vec<(K, E)>>,
    f: F,
    d: Seq<K>,
    n: int,
    k: K,
) -> bool {
    exists|i: int, e: E| 0 <= i < n && i < d.len() && #[trigger] is_step(keys, adj, d[i], k, e) && accepts(f, d[i], k, e)
}

/// `d` lists nodes in an order of discovery from `root`: it starts at
/// `root`, and every later node is reached from an earlier one.
pub open spec fn discovery<K, E, F: Fn(K, K, E) -> bool>(keys: Seq<K>, adj: Seq<Vec<(K, E)>>, f: F, root: K, d: Seq<K>) -> bool {
    &&& d.len() > 0
    &&& d[0] == root
    &&& forall|j: int| 1 <= j < d.len() ==> #[trigger] reached_from(keys, adj, f, d, j, d[j])
}

/// Each edge turned around: `(u, v, e)` becomes `(v, u, e)`.
pub open spec fn flip_all<K, E>(t: Seq<(K, K, E)>) -> Seq<(K, K, E)> {
    t.map_values(|x: (K, K, E)| (x.1, x.0, x.2))
}

/// The edges of `t` end at distinct nodes, none of them `root`.
pub open spec fn fresh_ends<K, E>(t: Seq<(K, K, E)>, root: K) -> bool {
    &&& forall|i: int, j: int| 0 <= i < t.len() && 0 <= j < t.len() && i != j ==> t[i].1 != t[j].1
    &&& forall|j: int| 0 <= j < t.len() ==> t[j].1 != root
}

/// The order in which `Order` lists what it reaches.
#[derive(Clone, Copy, Debug, PartialEq, Eq, Structural)]
pub enum NodeOrder {
    /// Depth first, a node before what is reached from it.
    PreOrder,
    /// Depth first, reversed.
    PostOrder,
    /// Taken as `PreOrder`.
    InOrder,
    /// Breadth first.
    LevelOrder,
}

/// The keys of the nodes that indices `di` name.
pub open spec fn keys_at<K>(keys: Seq<K>, di: Seq<usize>) -> Seq<K> {
    di.map_values(|i: usize| keys[i as int])
}

/// With distinct keys, distinct indices name distinct keys.
proof fn lemma_distinct_keys_at<K>(keys: Seq<K>, di: Seq<usize>)
    requires
        keys.no_duplicates(),
        di.no_duplicates(),
        forall|j: int| 0 <= j < di.len() ==> #[trigger] di[j] < keys.len(),
    ensures
        keys_at(keys, di).no_duplicates(),
{
    let d = keys_at(keys, di);
    assert forall|a: int, b: int| 0 <= a < d.len() && 0 <= b < d.len() && a != b implies d[a] != d[b] by {
        assert(d[a] == keys[di[a] as int]);
        assert(d[b] == keys[di[b] as int]);
    }
}

/// Reaching from a prefix of `d` stays true of any extension of `d`.
proof fn lemma_reached_from_grow<K, E, F: Fn(K, K, E) -> bool>(
    keys: Seq<K>,
    adj: Seq<Vec<(K, E)>>,
    f: F,
    d: Seq<K>,
    d2: Seq<K>,
    n: int,
    m: int,
    k: K,
)
    requires
        reached_from(keys, adj, f, d, n, k),
        n <= m,
        d.len() <= d2.len(),
        forall|i: int| 0 <= i < d.len() ==> #[trigger] d2[i] == d[i],
    ensures
        reached_from(keys, adj, f, d2, m, k),
{
    let (i, e) = choose|i: int, e: E| 0 <= i < n && i < d.len() && #[trigger] is_step(keys, adj, d[i], k, e) && accepts(f, d[i], k, e);
    assert(d2[i] == d[i]);
    assert(is_step(keys, adj, d2[i], k, e));
}

/// Some entry of `stack` names the node with key `v`.
pub open spec fn on_stack<K>(keys: Seq<K>, stack: Seq<usize>, v: K) -> bool {
    exists|q: int| 0 <= q < stack.len() && keys[stack[q] as int] == v
}

/// Each edge leaving node `w` is dealt with or leads to a node on `stack`.
pub open spec fn settled_or_stacked<K, E, F: Fn(K, K, E) -> bool>(
    keys: Seq<K>,
    adj: Seq<Vec<(K, E)>>,
    f: F,
    vis: Set<usize>,
    stack: Seq<usize>,
    w: usize,
) -> bool {
    forall|k: int| #![trigger adj[w as int]@[k]] 0 <= k < adj[w as int]@.len() ==> edge_done(keys, f, vis, keys[w as int], adj[w as int]@[k])
        || on_stack(keys, stack, adj[w as int]@[k].0)
}

/// Every node of the snapshot that a walk from `root` along edges `f`
/// never refuses leads to is in `d`.
pub open spec fn lists_reach<K, E, F: Fn(K, K, E) -> bool>(keys: Seq<K>, adj: Seq<Vec<(K, E)>>, f: F, root: K, d: Seq<K>) -> bool {
    forall|p: Seq<(K, K, E)>, x: K| #[trigger] is_walk(keys, adj, p, root, x) && keys.contains(x) && !blocked(f, p) ==> d.contains(x)
}

/// Popping the top of the stack, once it is visited, and pushing more on
/// top keeps an edge dealt with or stacked.
proof fn lemma_stacked_pop<K, E, F: Fn(K, K, E) -> bool>(
    keys: Seq<K>,
    adj: Seq<Vec<(K, E)>>,
    f: F,
    vis0: Set<usize>,
    vis1: Set<usize>,
    s0: Seq<usize>,
    s1: Seq<usize>,
    u: usize,
)
    requires
        settled_or_stacked(keys, adj, f, vis0, s0, u),
        s0.len() > 0,
        vis0.subset_of(vis1),
        vis1.contains(s0[s0.len() - 1]),
        s0[s0.len() - 1] < keys.len(),
        s1.len() >= s0.len() - 1,
        forall|q: int| 0 <= q < s0.len() - 1 ==> #[trigger] s1[q] == s0[q],
    ensures
        settled_or_stacked(keys, adj, f, vis1, s1, u),
{
    assert forall|k: int| #![trigger adj[u as int]@[k]] 0 <= k < adj[u as int]@.len() implies edge_done(
        keys,
        f,
        vis1,
        keys[u as int],
        adj[u as int]@[k],
    ) || on_stack(keys, s1, adj[u as int]@[k].0) by {
        let v = adj[u as int]@[k].0;
        if key_visited(keys, vis0, v) {
            let w = choose|w: usize| #[trigger] vis0.contains(w) && (w as int) < keys.len() && keys[w as int] == v;
            assert(vis1.contains(w));
        } else if on_stack(keys, s0, v) {
            let q = choose|q: int| 0 <= q < s0.len() && keys[s0[q] as int] == v;
            if q == s0.len() - 1 {
                assert(key_visited(keys, vis1, v));
            } else {
                assert(s1[q] == s0[q]);
            }
        }
    }
}

/// Some edge leaving a node with key `u`, which `f` does not refuse,
/// leads to a node of the snapshot that `listed` does not hold.
pub open spec fn has_unlisted<K, E, F: Fn(K, K, E) -> bool>(keys: Seq<K>, adj: Seq<Vec<(K, E)>>, f: F, u: K, listed: Seq<K>) -> bool {
    exists|i: int, w: K, e: E|
        0 <= i < keys.len() && i < adj.len() && keys[i] == u && #[trigger] adj[i]@.contains((w, e)) && keys.contains(w) && !call_ensures(
            f,
            (u, w, e),
            false,
        ) && !listed.contains(w)
}

/// An edge `f` accepts leads from the node with key `u` to `v`.
pub open spec fn accepted_step<K, E, F: Fn(K, K, E) -> bool>(keys: Seq<K>, adj: Seq<Vec<(K, E)>>, f: F, u: K, v: K) -> bool {
    exists|e: E| #[trigger] is_step(keys, adj, u, v, e) && accepts(f, u, v, e)
}

/// `d` lists nodes in depth-first pre-order: each node after the first is
/// reached by an edge `f` accepts from the latest node listed before it
/// that still had an edge to a node not listed yet.
pub open spec fn pre_ordered<K, E, F: Fn(K, K, E) -> bool>(keys: Seq<K>, adj: Seq<Vec<(K, E)>>, f: F, d: Seq<K>) -> bool {
    forall|j: int| #![trigger d[j]] 1 <= j < d.len() ==> exists|m: int| #![trigger d[m]] 0 <= m < j && accepted_step(keys, adj, f, d[m], d[j]) && forall|m2: int|
        m < m2 < j ==> !#[trigger] has_unlisted(keys, adj, f, d[m2], d.take(j))
}

/// The stack entry at some position pushed by the `m`-th listed node holds
/// the node with key `w`.
pub open spec fn stacked_by<K>(keys: Seq<K>, stack: Seq<usize>, own: Seq<int>, m: int, w: K) -> bool {
    exists|q: int| 0 <= q < stack.len() && q < own.len() && #[trigger] own[q] == m && keys[stack[q] as int] == w
}

/// Depth-first order of discovery from the node at index `r`, a node being
/// discovered when it is taken off the stack for the first time. The nodes
/// reached from it are stacked so that the first of them comes off first
/// (`reverse_children`) or last. Every node reached from `r` is listed.
fn pop_order<K: Copy + PartialEq, E: Copy, F: Fn(K, K, E) -> bool>(
    s: &Snapshot<K, E>,
    r: usize,
    f: &F,
    reverse_children: bool,
) -> (d: Vec<K>)
    requires
        keys_compare::<K>(),
        s.wf(),
        r < s.keys().len(),
        forall|a: K, b: K, c: E| f.requires((a, b, c)),
    ensures
        discovery(s.keys(), s.adj(), *f, s.keys()[r as int], d@),
        s.keys().no_duplicates() ==> d@.no_duplicates(),
        forall|j: int| 0 <= j < d@.len() ==> s.keys().contains(#[trigger] d@[j]),
        s.keys().no_duplicates() ==> lists_reach(s.keys(), s.adj(), *f, s.keys()[r as int], d@),
        s.keys().no_duplicates() ==> pre_ordered(s.keys(), s.adj(), *f, d@),
{
    let (keys, adj) = s.lists();
    let n = keys.len();
    let ghost root = keys@[r as int];
    let mut visited: AHashSet<usize> = visited_new();
    let mut stack: Vec<usize> = Vec::new();
    stack.push(r);
    let mut d: Vec<K> = Vec::new();
    let ghost mut di: Seq<usize> = Seq::empty();
    let ghost mut own: Seq<int> = seq![-1int];
    while stack.len() > 0
        invariant
            own.len() == stack@.len(),
            forall|q1: int, q2: int| 0 <= q1 <= q2 < own.len() ==> #[trigger] own[q1] <= #[trigger] own[q2],
            forall|q: int| #![trigger own[q]] 0 <= q < own.len() ==> (own[q] == -1 ==> d@.len() == 0) && (own[q] != -1 ==> 0 <= own[q] < d@.len()
                && accepted_step(keys@, adj@, *f, d@[own[q]], keys@[stack@[q] as int])),
            forall|m: int, w: K, e: E| #![trigger d@[m], adj@[di[m] as int]@.contains((w, e))]
                0 <= m < d@.len() && adj@[di[m] as int]@.contains((w, e)) && keys@.contains(w) && !call_ensures(*f, (d@[m], w, e), false)
                    && !d@.contains(w) ==> stacked_by(keys@, stack@, own, m, w),
            keys@.no_duplicates() ==> pre_ordered(keys@, adj@, *f, d@),
            keys_compare::<K>(),
            keys@ == s.keys(),
            adj@ == s.adj(),
            keys@.len() == adj@.len(),
            n == keys@.len(),
            r < n,
            root == keys@[r as int],
            forall|a: K, b: K, c: E| f.requires((a, b, c)),
            visited_ok(visited_indices(visited), n as nat),
            visited_indices(visited).len() <= n,
            forall|w: usize| #[trigger] visited_indices(visited).contains(w) <==> di.contains(w),
            di.no_duplicates(),
            forall|j: int| 0 <= j < di.len() ==> #[trigger] di[j] < n,
            d@ == keys_at(keys@, di),
            d@.len() == 0 ==> stack@ == seq![r],
            d@.len() > 0 ==> di[0] == r && discovery(keys@, adj@, *f, root, d@),
            forall|q: int| 0 <= q < stack@.len() ==> #[trigger] stack@[q] < n && (stack@[q] == r || reached_from(
                keys@,
                adj@,
                *f,
                d@,
                d@.len() as int,
                keys@[stack@[q] as int],
            )),
            forall|w: usize| #[trigger] visited_indices(visited).contains(w) ==> settled_or_stacked(
                keys@,
                adj@,
                *f,
                visited_indices(visited),
                stack@,
                w,
            ),
        decreases n - visited_indices(visited).len(), stack@.len(),
    {
        let ghost s0 = stack@;
        let ghost o0 = own;
        let ghost di0 = di;
        let ghost dd0 = d@;
        let ghost v0 = visited_indices(visited);
        let w = stack.pop().unwrap();
        proof {
            assert(w == s0[s0.len() - 1]);
            assert(stack@ == s0.drop_last());
            assert(w < n);
        }
        if !visited_contains(&visited, w) {
            let ghost d0 = d@;
            visited_insert(&mut visited, w);
            d.push(keys[w]);
            proof {
                lemma_visited_len(visited_indices(visited), n);
                assert(!di.contains(w));
                di = di.push(w);
                assert(d@ =~= keys_at(keys@, di));
                assert(visited_indices(visited).len() == v0.len() + 1);
                if d0.len() > 0 {
                    assert(w != r) by {
                        assert(di[0] == r);
                        assert(v0.contains(r));
                    }
                    assert forall|j: int| 1 <= j < d@.len() implies #[trigger] reached_from(keys@, adj@, *f, d@, j, d@[j]) by {
                        if j < d0.len() {
                            lemma_reached_from_grow(keys@, adj@, *f, d0, d@, j, j, d0[j]);
                        } else {
                            lemma_reached_from_grow(keys@, adj@, *f, d0, d@, d0.len() as int, j, keys@[w as int]);
                        }
                    }
                }
                assert forall|q: int| 0 <= q < stack@.len() implies #[trigger] stack@[q] < n && (stack@[q] == r || reached_from(
                    keys@,
                    adj@,
                    *f,
                    d@,
                    d@.len() as int,
                    keys@[stack@[q] as int],
                )) by {
                    assert(stack@[q] == s0[q]);
                    if stack@[q] != r {
                        lemma_reached_from_grow(keys@, adj@, *f, d0, d@, d0.len() as int, d@.len() as int, keys@[stack@[q] as int]);
                    }
                }
            }
            let ghost v1 = visited_indices(visited);
            let ukey = keys[w];
            let list = &adj[w];
            let mut nb: Vec<usize> = Vec::new();
            let mut i: usize = 0;
            while i < list.len()
                invariant
                    keys_compare::<K>(),
                    keys@ == s.keys(),
                    adj@ == s.adj(),
                    keys@.len() == adj@.len(),
                    n == keys@.len(),
                    w < n,
                    ukey == keys@[w as int],
                    d@.len() > 0,
                    d@[d@.len() - 1] == ukey,
                    list@ == adj@[w as int]@,
                    i <= list@.len(),
                    v1 == visited_indices(visited),
                    forall|a: K, b: K, c: E| f.requires((a, b, c)),
                    forall|q: int| 0 <= q < nb@.len() ==> #[trigger] nb@[q] < n && reached_from(
                        keys@,
                        adj@,
                        *f,
                        d@,
                        d@.len() as int,
                        keys@[nb@[q] as int],
                    ),
                    forall|k: int| #![trigger list@[k]] 0 <= k < i ==> edge_done(keys@, *f, v1, ukey, list@[k]) || on_stack(
                        keys@,
                        nb@,
                        list@[k].0,
                    ),
                    forall|q: int| 0 <= q < nb@.len() ==> accepted_step(keys@, adj@, *f, ukey, keys@[#[trigger] nb@[q] as int]),
                decreases list@.len() - i,
            {
                let (v, e) = list[i];
                let ghost nb0 = nb@;
                let keep = f(ukey, v, e);
                if keep {
                    match index_of_key(keys, &v) {
                        Some(j) => {
                            if !visited_contains(&visited, j) {
                                proof {
                                    assert(adj@[w as int]@.contains((v, e))) by {
                                        assert(list@[i as int] == (v, e));
                                    }
                                    assert(is_step(keys@, adj@, d@[d@.len() - 1], v, e));
                                    assert(reached_from(keys@, adj@, *f, d@, d@.len() as int, v));
                                }
                                nb.push(j);
                                proof {
                                    assert(nb@[nb@.len() - 1] == j);
                                    assert(accepts(*f, ukey, v, e));
                                    assert(accepted_step(keys@, adj@, *f, ukey, keys@[j as int]));
                                    assert forall|q: int| 0 <= q < nb@.len() implies accepted_step(keys@, adj@, *f, ukey, keys@[#[trigger] nb@[q] as int]) by {
                                        if q < nb0.len() {
                                            assert(nb@[q] == nb0[q]);
                                        }
                                    }
                                }
                            } else {
                                proof {
                                    assert(key_visited(keys@, v1, v));
                                }
                            }
                        },
                        None => {},
                    }
                }
                proof {
                    assert(list@[i as int] == (v, e));
                    assert forall|k: int| #![trigger list@[k]] 0 <= k < i + 1 implies edge_done(keys@, *f, v1, ukey, list@[k]) || on_stack(
                        keys@,
                        nb@,
                        list@[k].0,
                    ) by {
                        if k < i {
                            if on_stack(keys@, nb0, list@[k].0) {
                                let q = choose|q: int| 0 <= q < nb0.len() && keys@[nb0[q] as int] == list@[k].0;
                                assert(nb@[q] == nb0[q]);
                            }
                        } else if !keep {
                            assert(call_ensures(*f, (ukey, v, e), false));
                        } else if nb@.len() > nb0.len() {
                            assert(keys@[nb@[nb@.len() - 1] as int] == v);
                        }
                    }
                }
                i = i + 1;
            }
            let ghost sb = stack@;
            let mut k: usize = 0;
            while k < nb.len()
                invariant
                    k <= nb@.len(),
                    n == keys@.len(),
                    forall|q: int| 0 <= q < nb@.len() ==> #[trigger] nb@[q] < n && reached_from(
                        keys@,
                        adj@,
                        *f,
                        d@,
                        d@.len() as int,
                        keys@[nb@[q] as int],
                    ),
                    forall|q: int| 0 <= q < stack@.len() ==> #[trigger] stack@[q] < n && (stack@[q] == r || reached_from(
                        keys@,
                        adj@,
                        *f,
                        d@,
                        d@.len() as int,
                        keys@[stack@[q] as int],
                    )),
                    stack@.len() == sb.len() + k,
                    forall|q: int| 0 <= q < nb@.len() ==> accepted_step(keys@, adj@, *f, ukey, keys@[#[trigger] nb@[q] as int]),
                    forall|q: int| 0 <= q < sb.len() ==> #[trigger] stack@[q] == sb[q],
                    forall|q: int| sb.len() <= q < stack@.len() ==> #[trigger] stack@[q] == (if reverse_children {
                        nb@[nb@.len() - 1 - (q - sb.len())]
                    } else {
                        nb@[q - sb.len()]
                    }),
                decreases nb@.len() - k,
            {
                let j = if reverse_children { nb[nb.len() - 1 - k] } else { nb[k] };
                stack.push(j);
                k = k + 1;
            }
            proof {
                let vf = visited_indices(visited);
                assert(vf == v0.insert(w));
                assert forall|u: usize| #[trigger] vf.contains(u) implies settled_or_stacked(keys@, adj@, *f, vf, stack@, u) by {
                    if u == w {
                        assert forall|kk: int| #![trigger adj@[u as int]@[kk]] 0 <= kk < adj@[u as int]@.len() implies edge_done(
                            keys@,
                            *f,
                            vf,
                            keys@[u as int],
                            adj@[u as int]@[kk],
                        ) || on_stack(keys@, stack@, adj@[u as int]@[kk].0) by {
                            assert(list@[kk] == adj@[u as int]@[kk]);
                            if !edge_done(keys@, *f, v1, ukey, list@[kk]) {
                                let q = choose|q: int| 0 <= q < nb@.len() && keys@[nb@[q] as int] == list@[kk].0;
                                let pos = if reverse_children { sb.len() + (nb@.len() - 1 - q) } else { sb.len() + q };
                                assert(stack@[pos] == nb@[q]);
                                assert(keys@[stack@[pos] as int] == list@[kk].0);
                            }
                        }
                    } else {
                        assert(v0.contains(u));
                        assert forall|q: int| 0 <= q < s0.len() - 1 implies #[trigger] stack@[q] == s0[q] by {
                            assert(stack@[q] == sb[q]);
                        }
                        lemma_stacked_pop(keys@, adj@, *f, v0, vf, s0, stack@, u);
                    }
                }
                let j0 = dd0.len() as int;
                let top = s0.len() - 1;
                let own1 = o0.drop_last() + Seq::new(nb@.len(), |x: int| j0);
                assert(s0[top] == w);
                assert(dd0.len() == 0 ==> s0.len() == 1);
                assert(o0[top] == -1 || o0[top] < j0);
                assert(d@[j0] == ukey);
                assert forall|q: int| 0 <= q < sb.len() implies #[trigger] stack@[q] == s0[q] by {
                    assert(stack@[q] == sb[q]);
                }
                assert forall|q1: int, q2: int| 0 <= q1 <= q2 < own1.len() implies #[trigger] own1[q1] <= #[trigger] own1[q2] by {
                    if q2 < top {
                        assert(own1[q1] == o0[q1]);
                        assert(own1[q2] == o0[q2]);
                    } else if q1 < top {
                        assert(own1[q1] == o0[q1]);
                        assert(o0[q1] <= o0[top]);
                    }
                }
                assert forall|q: int| #![trigger own1[q]] 0 <= q < own1.len() implies (own1[q] == -1 ==> d@.len() == 0) && (own1[q] != -1 ==> 0
                    <= own1[q] < d@.len() && accepted_step(keys@, adj@, *f, d@[own1[q]], keys@[stack@[q] as int])) by {
                    if q < top {
                        assert(own1[q] == o0[q]);
                        assert(stack@[q] == s0[q]);
                        assert(o0[q] != -1);
                        assert(d@[o0[q]] == dd0[o0[q]]);
                    } else {
                        assert(own1[q] == j0);
                        let qq = q - sb.len();
                        let x = if reverse_children { nb@.len() - 1 - qq } else { qq };
                        assert(stack@[q] == nb@[x]);
                        assert(accepted_step(keys@, adj@, *f, ukey, keys@[nb@[x] as int]));
                    }
                }
                assert forall|m: int, w2: K, e: E| #![trigger d@[m], adj@[di[m] as int]@.contains((w2, e))]
                    0 <= m < d@.len() && adj@[di[m] as int]@.contains((w2, e)) && keys@.contains(w2) && !call_ensures(*f, (d@[m], w2, e), false)
                        && !d@.contains(w2) implies stacked_by(keys@, stack@, own1, m, w2) by {
                    if m < j0 {
                        assert(d@[m] == dd0[m]);
                        assert(di[m] == di0[m]);
                        assert(!dd0.contains(w2)) by {
                            if dd0.contains(w2) {
                                let x = choose|x: int| 0 <= x < dd0.len() && dd0[x] == w2;
                                assert(d@[x] == w2);
                            }
                        }
                        assert(stacked_by(keys@, s0, o0, m, w2));
                        let q = choose|q: int| 0 <= q < s0.len() && q < o0.len() && #[trigger] o0[q] == m && keys@[s0[q] as int] == w2;
                        if q == top {
                            assert(d@[j0] == w2);
                        }
                        assert(own1[q] == o0[q]);
                        assert(stack@[q] == s0[q]);
                    } else {
                        assert(di[m] == w);
                        assert(d@[m] == ukey);
                        let kk = choose|kk: int| 0 <= kk < adj@[w as int]@.len() && adj@[w as int]@[kk] == (w2, e);
                        assert(list@[kk] == (w2, e));
                        if edge_done(keys@, *f, v1, ukey, list@[kk]) {
                            if key_visited(keys@, v1, w2) {
                                let z = choose|z: usize| #[trigger] v1.contains(z) && (z as int) < keys@.len() && keys@[z as int] == w2;
                                assert(di.contains(z));
                                let x = choose|x: int| 0 <= x < di.len() && di[x] == z;
                                assert(d@[x] == keys@[di[x] as int]);
                            }
                        }
                        assert(on_stack(keys@, nb@, w2));
                        let q2 = choose|q2: int| 0 <= q2 < nb@.len() && keys@[nb@[q2] as int] == w2;
                        let pos = if reverse_children { sb.len() + (nb@.len() - 1 - q2) } else { sb.len() + q2 };
                        assert(stack@[pos] == nb@[q2]);
                        assert(own1[pos] == j0);
                    }
                }
                if keys@.no_duplicates() {
                    assert forall|jj: int| #![trigger d@[jj]] 1 <= jj < d@.len() implies exists|m: int| #![trigger d@[m]] 0 <= m < jj
                        && accepted_step(keys@, adj@, *f, d@[m], d@[jj]) && forall|m2: int| m < m2 < jj ==> !#[trigger] has_unlisted(
                        keys@,
                        adj@,
                        *f,
                        d@[m2],
                        d@.take(jj),
                    ) by {
                        if jj < j0 {
                            assert(dd0[jj] == d@[jj]);
                            let m = choose|m: int| #![trigger dd0[m]] 0 <= m < jj && accepted_step(keys@, adj@, *f, dd0[m], dd0[jj]) && forall|m2: int|
                                m < m2 < jj ==> !#[trigger] has_unlisted(keys@, adj@, *f, dd0[m2], dd0.take(jj));
                            assert(d@.take(jj) =~= dd0.take(jj));
                            assert(d@[m] == dd0[m]);
                            assert forall|m2: int| m < m2 < jj implies !#[trigger] has_unlisted(keys@, adj@, *f, d@[m2], d@.take(jj)) by {
                                assert(d@[m2] == dd0[m2]);
                            }
                        } else {
                            let m = o0[top];
                            assert(m != -1);
                            assert(accepted_step(keys@, adj@, *f, dd0[m], keys@[s0[top] as int]));
                            assert(d@[m] == dd0[m]);
                            assert(d@[jj] == keys@[w as int]);
                            assert(d@.take(jj) =~= dd0);
                            assert forall|m2: int| m < m2 < jj implies !#[trigger] has_unlisted(keys@, adj@, *f, d@[m2], d@.take(jj)) by {
                                if has_unlisted(keys@, adj@, *f, d@[m2], d@.take(jj)) {
                                    let (i, w2, e) = choose|i: int, w2: K, e: E|
                                        0 <= i < keys@.len() && i < adj@.len() && keys@[i] == d@[m2] && #[trigger] adj@[i]@.contains((w2, e))
                                            && keys@.contains(w2) && !call_ensures(*f, (d@[m2], w2, e), false) && !d@.take(jj).contains(w2);
                                    assert(d@[m2] == dd0[m2]);
                                    assert(dd0[m2] == keys@[di0[m2] as int]);
                                    assert(i == di0[m2] as int);
                                    assert(stacked_by(keys@, s0, o0, m2, w2));
                                    let q = choose|q: int| 0 <= q < s0.len() && q < o0.len() && #[trigger] o0[q] == m2 && keys@[s0[q] as int] == w2;
                                    assert(o0[q] <= o0[top]);
                                }
                            }
                        }
                    }
                }
                own = own1;
            }
        } else {
            proof {
                assert forall|u: usize| #[trigger] v0.contains(u) implies settled_or_stacked(keys@, adj@, *f, v0, stack@, u) by {
                    lemma_stacked_pop(keys@, adj@, *f, v0, v0, s0, stack@, u);
                }
                let top = s0.len() - 1;
                let own1 = o0.drop_last();
                assert(di.contains(w));
                assert forall|m: int, w2: K, e: E| #![trigger d@[m], adj@[di[m] as int]@.contains((w2, e))]
                    0 <= m < d@.len() && adj@[di[m] as int]@.contains((w2, e)) && keys@.contains(w2) && !call_ensures(*f, (d@[m], w2, e), false)
                        && !d@.contains(w2) implies stacked_by(keys@, stack@, own1, m, w2) by {
                    assert(stacked_by(keys@, s0, o0, m, w2));
                    let q = choose|q: int| 0 <= q < s0.len() && q < o0.len() && #[trigger] o0[q] == m && keys@[s0[q] as int] == w2;
                    if q == top {
                        let x = choose|x: int| 0 <= x < di.len() && di[x] == w;
                        assert(d@[x] == keys@[w as int]);
                    }
                    assert(own1[q] == o0[q]);
                    assert(stack@[q] == s0[q]);
                }
                assert forall|q: int| #![trigger own1[q]] 0 <= q < own1.len() implies (own1[q] == -1 ==> d@.len() == 0) && (own1[q] != -1 ==> 0
                    <= own1[q] < d@.len() && accepted_step(keys@, adj@, *f, d@[own1[q]], keys@[stack@[q] as int])) by {
                    assert(own1[q] == o0[q]);
                    assert(stack@[q] == s0[q]);
                }
                own = own1;
            }
        }
    }
    proof {
        if keys@.no_duplicates() {
            lemma_distinct_keys_at(keys@, di);
            let vis = visited_indices(visited);
            assert(di[0] == r);
            assert(vis.contains(r));
            assert forall|u: usize| #[trigger] vis.contains(u) implies done_with(keys@, adj@, *f, vis, u) by {
                assert(settled_or_stacked(keys@, adj@, *f, vis, stack@, u));
                assert forall|kk: int| 0 <= kk < adj@[u as int]@.len() implies #[trigger] edge_done(keys@, *f, vis, keys@[u as int], adj@[u as int]@[kk]) by {
                    assert(adj@[u as int]@[kk] == adj@[u as int]@[kk]);
                }
            }
            assert(closed_search(keys@, adj@, *f, r, None, false, vis));
            assert forall|p: Seq<(K, K, E)>, x: K| #[trigger] is_walk(keys@, adj@, p, root, x) && keys@.contains(x) && !blocked(*f, p)
                implies d@.contains(x) by {
                lemma_closed_search_visits(keys@, adj@, *f, r, None, false, vis, p, x);
                let w = choose|w: usize| #[trigger] vis.contains(w) && (w as int) < keys@.len() && keys@[w as int] == x;
                assert(di.contains(w));
                let q = choose|q: int| 0 <= q < di.len() && di[q] == w;
                assert(d@[q] == x);
            }
        }
        assert forall|j: int| 0 <= j < d@.len() implies keys@.contains(#[trigger] d@[j]) by {
            assert(d@[j] == keys@[di[j] as int]);
        }
    }
    d
}

/// The edge `x` leaving the node with key `uk` leads out of the snapshot,
/// or `f` refused it, or it leads to a reached node at most one deeper in
/// `t` than `uk`.
pub open spec fn edge_bounded<K, E, F: Fn(K, K, E) -> bool>(keys: Seq<K>, f: F, t: Seq<(K, K, E)>, vis: Set<usize>, uk: K, x: (K, E)) -> bool {
    !keys.contains(x.0) || call_ensures(f, (uk, x.0, x.1), false) || (key_visited(keys, vis, x.0) && depth(t, x.0) <= depth(t, uk) + 1)
}

/// Every edge leaving node `y` is `edge_bounded`.
pub open spec fn bounded_edges<K, E, F: Fn(K, K, E) -> bool>(
    keys: Seq<K>,
    adj: Seq<Vec<(K, E)>>,
    f: F,
    t: Seq<(K, K, E)>,
    vis: Set<usize>,
    y: usize,
) -> bool {
    forall|k: int| 0 <= k < adj[y as int]@.len() ==> #[trigger] edge_bounded(keys, f, t, vis, keys[y as int], adj[y as int]@[k])
}

/// The edges of `t` end at nodes of non-decreasing depth.
pub open spec fn depths_sorted<K, E>(t: Seq<(K, K, E)>) -> bool {
    forall|a: int, b: int| #![trigger t[a], t[b]] 0 <= a <= b < t.len() ==> depth(t, t[a].1) <= depth(t, t[b].1)
}

/// A breadth-first run expanding nodes of depth `cur`: the waiting nodes
/// lie at depth `cur` or `cur + 1`, in non-decreasing order; no reached
/// node lies deeper than `cur + 1`; every reached node no longer waiting
/// has its edges bounded.
pub open spec fn bfs_levels<K, E, F: Fn(K, K, E) -> bool>(
    keys: Seq<K>,
    adj: Seq<Vec<(K, E)>>,
    f: F,
    t: Seq<(K, K, E)>,
    vis: Set<usize>,
    fr: Seq<usize>,
    head: int,
    cur: nat,
) -> bool {
    &&& forall|i: int| #![trigger fr[i]] head <= i < fr.len() ==> cur <= depth(t, keys[fr[i] as int]) <= cur + 1
    &&& forall|i: int, j: int| #![trigger fr[i], fr[j]] head <= i <= j < fr.len() ==> depth(t, keys[fr[i] as int]) <= depth(
        t,
        keys[fr[j] as int],
    )
    &&& forall|w: usize| #[trigger] vis.contains(w) ==> depth(t, keys[w as int]) <= cur + 1
    &&& forall|w: usize| #[trigger] vis.contains(w) && !pending_in(fr, head, w) ==> bounded_edges(keys, adj, f, t, vis, w)
    &&& depths_sorted(t)
}

/// Pushing an edge to a node not reached yet, from a node at depth `du`
/// when no reached node lies deeper than `du + 1`.
proof fn lemma_bfs_push<K, E>(keys: Seq<K>, t: Seq<(K, K, E)>, vis: Set<usize>, root: K, x: (K, K, E), j: usize, du: nat)
    requires
        keys.no_duplicates(),
        (j as int) < keys.len(),
        keys[j as int] == x.1,
        !vis.contains(j),
        depth(t, x.0) == du,
        depth_ok(t, root),
        rooted(t, root),
        fresh_targets(t, root),
        key_visited(keys, vis, root),
        forall|q: int| 0 <= q < t.len() ==> key_visited(keys, vis, #[trigger] t[q].1),
        x.0 == root || reached_before(t, t.len() as int, x.0),
        depths_sorted(t),
        forall|w: usize| #[trigger] vis.contains(w) ==> depth(t, keys[w as int]) <= du + 1,
    ensures
        depth_ok(t.push(x), root),
        fresh_targets(t.push(x), root),
        forall|k: K| k != x.1 ==> #[trigger] depth(t.push(x), k) == depth(t, k),
        depth(t.push(x), x.1) == du + 1,
        depths_sorted(t.push(x)),
{
    let t2 = t.push(x);
    assert(x.1 != root) by {
        let w = choose|w: usize| #[trigger] vis.contains(w) && (w as int) < keys.len() && keys[w as int] == root;
        if x.1 == root {
            assert(w == j);
        }
    }
    assert forall|q1: int, q2: int| #![trigger t2[q1], t2[q2]] 0 <= q1 < q2 < t2.len() implies t2[q1].1 != t2[q2].1 by {
        assert(t2[q1] == t[q1]);
        if q2 < t.len() {
            assert(t2[q2] == t[q2]);
        } else {
            assert(key_visited(keys, vis, t[q1].1));
            let w = choose|w: usize| #[trigger] vis.contains(w) && (w as int) < keys.len() && keys[w as int] == t[q1].1;
            if t[q1].1 == x.1 {
                assert(w == j);
            }
        }
    }
    assert forall|q: int| #![trigger t2[q]] 0 <= q < t2.len() implies t2[q].1 != root by {
        if q < t.len() {
            assert(t2[q] == t[q]);
        }
    }
    assert(fresh_targets(t2, root));
    lemma_depth_push(t, root, x);
    assert forall|a: int, b: int| #![trigger t2[a], t2[b]] 0 <= a <= b < t2.len() implies depth(t2, t2[a].1) <= depth(t2, t2[b].1) by {
        assert(t2[a] == t[a] || a == t.len());
        if b < t.len() {
            assert(t2[a] == t[a]);
            assert(t2[b] == t[b]);
            assert(t[a].1 != x.1);
            assert(t[b].1 != x.1);
        } else if a < t.len() {
            assert(t2[a] == t[a]);
            assert(t[a].1 != x.1);
            assert(key_visited(keys, vis, t[a].1));
            let w = choose|w: usize| #[trigger] vis.contains(w) && (w as int) < keys.len() && keys[w as int] == t[a].1;
            assert(depth(t, keys[w as int]) <= du + 1);
        }
    }
}

/// Pushing an edge to a node not reached yet, from a node at depth `du`
/// when no reached node lies deeper than `du + 1`, keeps the depths of the
/// other nodes and the order of the edges' depths.
pub(crate) proof fn lemma_level_push<K, E>(keys: Seq<K>, t: Seq<(K, K, E)>, vis: Set<usize>, x: (K, K, E), j: usize, du: nat)
    requires
        keys.no_duplicates(),
        (j as int) < keys.len(),
        keys[j as int] == x.1,
        !vis.contains(j),
        depth(t, x.0) == du,
        forall|q: int| 0 <= q < t.len() ==> key_visited(keys, vis, #[trigger] t[q].1),
        depths_sorted(t),
        forall|w: usize| #[trigger] vis.contains(w) ==> depth(t, keys[w as int]) <= du + 1,
    ensures
        forall|k: K| k != x.1 ==> #[trigger] depth(t.push(x), k) == depth(t, k),
        depth(t.push(x), x.1) == du + 1,
        depths_sorted(t.push(x)),
{
    let t2 = t.push(x);
    assert(t2.drop_last() =~= t);
    assert(t2.last() == x);
    assert forall|k: K| k != x.1 implies #[trigger] depth(t2, k) == depth(t, k) by {}
    assert forall|a: int, b: int| #![trigger t2[a], t2[b]] 0 <= a <= b < t2.len() implies depth(t2, t2[a].1) <= depth(t2, t2[b].1) by {
        if a < t.len() {
            assert(t2[a] == t[a]);
            assert(key_visited(keys, vis, t[a].1));
            let w = choose|w: usize| #[trigger] vis.contains(w) && (w as int) < keys.len() && keys[w as int] == t[a].1;
            assert(t[a].1 != x.1) by {
                if t[a].1 == x.1 {
                    assert(w == j);
                }
            }
            if b < t.len() {
                assert(t2[b] == t[b]);
                assert(key_visited(keys, vis, t[b].1));
                let w2 = choose|w2: usize| #[trigger] vis.contains(w2) && (w2 as int) < keys.len() && keys[w2 as int] == t[b].1;
                assert(t[b].1 != x.1) by {
                    if t[b].1 == x.1 {
                        assert(w2 == j);
                    }
                }
            } else {
                assert(depth(t, keys[w as int]) <= du + 1);
            }
        }
    }
}

/// When every reached node has its edges bounded, a walk from the root
/// along edges `f` never refuses reaches, in `m + 1` edges, a reached node
/// no deeper than `m + 1`.
proof fn lemma_bfs_walk<K, E, F: Fn(K, K, E) -> bool>(
    keys: Seq<K>,
    adj: Seq<Vec<(K, E)>>,
    f: F,
    t: Seq<(K, K, E)>,
    vis: Set<usize>,
    r: usize,
    q: Seq<(K, K, E)>,
    x: K,
    m: int,
)
    requires
        keys.no_duplicates(),
        keys.len() == adj.len(),
        (r as int) < keys.len(),
        vis.contains(r),
        depth(t, keys[r as int]) == 0,
        forall|w: usize| #[trigger] vis.contains(w) ==> (w as int) < keys.len() && bounded_edges(keys, adj, f, t, vis, w),
        is_walk(keys, adj, q, keys[r as int], x),
        keys.contains(x),
        !blocked(f, q),
        0 <= m < q.len(),
    ensures
        key_visited(keys, vis, q[m].1),
        depth(t, q[m].1) <= m + 1,
    decreases m,
{
    let y = q[m].0;
    let w: usize = if m == 0 {
        r
    } else {
        lemma_bfs_walk(keys, adj, f, t, vis, r, q, x, m - 1);
        assert(q[m - 1].1 == q[m].0);
        choose|w: usize| #[trigger] vis.contains(w) && (w as int) < keys.len() && keys[w as int] == y
    };
    assert(vis.contains(w) && keys[w as int] == y);
    assert(depth(t, y) <= m);
    assert(is_step(keys, adj, q[m].0, q[m].1, q[m].2));
    let i = choose|i: int| #![trigger adj[i]] 0 <= i < keys.len() && i < adj.len() && keys[i] == y && adj[i]@.contains((q[m].1, q[m].2));
    assert(i == w);
    let k = choose|k: int| 0 <= k < adj[i]@.len() && adj[i]@[k] == (q[m].1, q[m].2);
    assert(bounded_edges(keys, adj, f, t, vis, w));
    assert(edge_bounded(keys, f, t, vis, keys[w as int], adj[w as int]@[k]));
    assert(keys.contains(q[m].1)) by {
        if m + 1 < q.len() {
            assert(q[m].1 == q[m + 1].0);
            assert(is_step(keys, adj, q[m + 1].0, q[m + 1].1, q[m + 1].2));
        }
    }
    assert(!call_ensures(f, (q[m].0, q[m].1, q[m].2), false));
}

/// After the node at the head of the queue, at depth `du`, is expanded
/// and the nodes it reached are queued, the run is at level `du`.
pub(crate) proof fn lemma_bfs_step<K, E, F: Fn(K, K, E) -> bool>(
    keys: Seq<K>,
    adj: Seq<Vec<(K, E)>>,
    f: F,
    t0: Seq<(K, K, E)>,
    t: Seq<(K, K, E)>,
    vs: Set<usize>,
    vis: Set<usize>,
    fb: Seq<usize>,
    nb: Seq<usize>,
    h0: int,
    cur: nat,
    du: nat,
)
    requires
        bfs_levels(keys, adj, f, t0, vs, fb, h0, cur),
        0 <= h0 < fb.len(),
        du == depth(t0, keys[fb[h0] as int]),
        vs.subset_of(vis),
        forall|k: usize| #[trigger] vis.contains(k) ==> vs.contains(k) || nb.contains(k),
        forall|q: int| 0 <= q < nb.len() ==> vis.contains(#[trigger] nb[q]),
        forall|w: usize| #[trigger] vs.contains(w) ==> depth(t, keys[w as int]) == depth(t0, keys[w as int]),
        forall|q: int| 0 <= q < nb.len() ==> depth(t, keys[#[trigger] nb[q] as int]) == du + 1,
        forall|w: usize| #[trigger] vis.contains(w) ==> depth(t, keys[w as int]) <= du + 1,
        forall|q: int| h0 < q < fb.len() ==> vs.contains(#[trigger] fb[q]),
        bounded_edges(keys, adj, f, t, vis, fb[h0]),
        depths_sorted(t),
    ensures
        bfs_levels(keys, adj, f, t, vis, fb + nb, h0 + 1, du),
{
    let fr = fb + nb;
    assert(cur <= du <= cur + 1) by {
        assert(fb[h0] == fb[h0]);
    }
    assert forall|i: int| #![trigger fr[i]] h0 + 1 <= i < fr.len() implies du <= depth(t, keys[fr[i] as int]) <= du + 1 by {
        if i < fb.len() {
            assert(fr[i] == fb[i]);
            assert(vs.contains(fb[i]));
            assert(depth(t0, keys[fb[h0] as int]) <= depth(t0, keys[fb[i] as int]));
        } else {
            assert(fr[i] == nb[i - fb.len()]);
        }
    }
    assert forall|i: int, j: int| #![trigger fr[i], fr[j]] h0 + 1 <= i <= j < fr.len() implies depth(t, keys[fr[i] as int]) <= depth(
        t,
        keys[fr[j] as int],
    ) by {
        if j < fb.len() {
            assert(fr[i] == fb[i]);
            assert(fr[j] == fb[j]);
            assert(vs.contains(fb[i]));
            assert(vs.contains(fb[j]));
            assert(depth(t0, keys[fb[i] as int]) <= depth(t0, keys[fb[j] as int]));
        } else if i < fb.len() {
            assert(fr[i] == fb[i]);
            assert(vs.contains(fb[i]));
            assert(fr[j] == nb[j - fb.len()]);
        } else {
            assert(fr[i] == nb[i - fb.len()]);
            assert(fr[j] == nb[j - fb.len()]);
        }
    }
    assert forall|w: usize| #[trigger] vis.contains(w) && !pending_in(fr, h0 + 1, w) implies bounded_edges(keys, adj, f, t, vis, w) by {
        if w != fb[h0] {
            if !vs.contains(w) {
                let q = choose|q: int| 0 <= q < nb.len() && nb[q] == w;
                assert(fr[fb.len() + q] == w);
            }
            assert(!pending_in(fb, h0, w)) by {
                if pending_in(fb, h0, w) {
                    let q = choose|q: int| h0 <= q < fb.len() && #[trigger] fb[q] == w;
                    assert(fr[q] == fb[q]);
                }
            }
            assert(bounded_edges(keys, adj, f, t0, vs, w));
            assert forall|k: int| 0 <= k < adj[w as int]@.len() implies #[trigger] edge_bounded(keys, f, t, vis, keys[w as int], adj[w as int]@[k]) by {
                let x = adj[w as int]@[k];
                assert(edge_bounded(keys, f, t0, vs, keys[w as int], x));
                if keys.contains(x.0) && !call_ensures(f, (keys[w as int], x.0, x.1), false) {
                    let z = choose|z: usize| #[trigger] vs.contains(z) && (z as int) < keys.len() && keys[z as int] == x.0;
                    assert(vis.contains(z));
                    assert(depth(t, keys[z as int]) == depth(t0, keys[z as int]));
                }
            }
        }
    }
}

/// `d` lists the nodes reached from `root` along edges `f` accepts in
/// breadth-first order: `root`, then the ends of the edges of a tree from
/// `root` in which each edge ends one deeper than it starts, in order of
/// non-decreasing depth; and a walk of `n` edges `f` never refuses reaches
/// no node deeper than `n`.
pub open spec fn level_order<K, E, F: Fn(K, K, E) -> bool>(keys: Seq<K>, adj: Seq<Vec<(K, E)>>, f: F, root: K, d: Seq<K>) -> bool {
    exists|t: Seq<(K, K, E)>| #[trigger] is_tree(keys, adj, root, f, t) && d == tree_nodes(root, t) && level_tree(keys, adj, f, root, t)
}

/// The tree `t` from `root` has its edges in breadth-first order.
pub open spec fn level_tree<K, E, F: Fn(K, K, E) -> bool>(keys: Seq<K>, adj: Seq<Vec<(K, E)>>, f: F, root: K, t: Seq<(K, K, E)>) -> bool {
    &&& depth_ok(t, root)
    &&& depths_sorted(t)
    &&& forall|q: Seq<(K, K, E)>, x: K| #[trigger] is_walk(keys, adj, q, root, x) && keys.contains(x) && !blocked(f, q) ==> depth(t, x)
        <= q.len()
}

/// A node no edge of `t` ends at lies at depth 0.
proof fn lemma_depth_absent<K, E>(t: Seq<(K, K, E)>, k: K)
    requires
        forall|q: int| 0 <= q < t.len() ==> #[trigger] t[q].1 != k,
    ensures
        depth(t, k) == 0,
    decreases t.len(),
{
    if t.len() > 0 {
        assert(t.last() == t[t.len() - 1]);
        assert forall|q: int| 0 <= q < t.drop_last().len() implies #[trigger] t.drop_last()[q].1 != k by {
            assert(t.drop_last()[q] == t[q]);
        }
        lemma_depth_absent(t.drop_last(), k);
    }
}

/// The tree of a search from the node at index `r` that marks a node as
/// reached when an edge to it is first taken, and expands reached nodes
/// last-in first-out (`depth`) or first-in first-out. A depth-first search
/// stacks the new nodes of an expanded node so that the first of them
/// comes off first (`reverse_children`) or last.
fn push_order<K: Copy + PartialEq, E: Copy, F: Fn(K, K, E) -> bool>(
    s: &Snapshot<K, E>,
    r: usize,
    f: &F,
    depth_first: bool,
    reverse_children: bool,
) -> (t: Vec<(K, K, E)>)
    requires
        keys_compare::<K>(),
        s.wf(),
        r < s.keys().len(),
        forall|a: K, b: K, c: E| f.requires((a, b, c)),
    ensures
        is_tree(s.keys(), s.adj(), s.keys()[r as int], *f, t@),
        s.keys().no_duplicates() ==> fresh_ends(t@, s.keys()[r as int]),
        forall|j: int| 0 <= j < t@.len() ==> s.keys().contains(#[trigger] t@[j].1),
        s.keys().no_duplicates() ==> lists_reach(s.keys(), s.adj(), *f, s.keys()[r as int], tree_nodes(s.keys()[r as int], t@)),
        s.keys().no_duplicates() && !depth_first ==> depth_ok(t@, s.keys()[r as int]) && depths_sorted(t@) && forall|q: Seq<(K, K, E)>, x: K|
            #[trigger] is_walk(s.keys(), s.adj(), q, s.keys()[r as int], x) && s.keys().contains(x) && !blocked(*f, q) ==> tree_nodes(
                s.keys()[r as int],
                t@,
            ).contains(x) && depth(t@, x) <= q.len(),
{
    let (keys, adj) = s.lists();
    let n = keys.len();
    let ghost root = keys@[r as int];
    let mut visited: AHashSet<usize> = visited_new();
    visited_insert(&mut visited, r);
    let mut frontier: Vec<usize> = Vec::new();
    frontier.push(r);
    let mut head: usize = 0;
    let mut t: Vec<(K, K, E)> = Vec::new();
    let ghost mut di: Seq<usize> = seq![r];
    proof {
        assert(visited_indices(visited) =~= Set::<usize>::empty().insert(r));
        lemma_visited_len(visited_indices(visited), n);
        assert(frontier@[0] == r);
        assert(pending_in(frontier@, 0, r));
        assert(frontier@ =~= di);
        assert(depth(t@, keys@[r as int]) == 0);
    }
    let ghost mut cur: nat = 0;
    while head < frontier.len()
        invariant
            keys_compare::<K>(),
            keys@ == s.keys(),
            adj@ == s.adj(),
            keys@.len() == adj@.len(),
            n == keys@.len(),
            r < n,
            root == keys@[r as int],
            forall|a: K, b: K, c: E| f.requires((a, b, c)),
            visited_ok(visited_indices(visited), n as nat),
            visited_indices(visited).len() <= n,
            forall|w: usize| #[trigger] visited_indices(visited).contains(w) <==> di.contains(w),
            di.no_duplicates(),
            di.len() == t@.len() + 1,
            di[0] == r,
            forall|j: int| 0 <= j < di.len() ==> #[trigger] di[j] < n,
            forall|j: int| 0 <= j < t@.len() ==> #[trigger] t@[j].1 == keys@[di[j + 1] as int],
            is_tree(keys@, adj@, root, *f, t@),
            head <= frontier@.len(),
            depth_first ==> head == 0,
            forall|q: int| head <= q < frontier@.len() ==> #[trigger] reached_node(keys@, root, t@, frontier@[q]),
            forall|w: usize| #[trigger] visited_indices(visited).contains(w) ==> done_with(keys@, adj@, *f, visited_indices(visited), w)
                || pending_in(frontier@, head as int, w),
            done_with(keys@, adj@, *f, visited_indices(visited), r) || pending_in(frontier@, head as int, r),
            !depth_first ==> frontier@ == di,
            keys@.no_duplicates() && !depth_first ==> fresh_targets(t@, root) && depth_ok(t@, root) && bfs_levels(
                keys@,
                adj@,
                *f,
                t@,
                visited_indices(visited),
                frontier@,
                head as int,
                cur,
            ),
        decreases n - visited_indices(visited).len(), frontier@.len() - head,
    {
        let ghost fb = frontier@;
        let ghost h0 = head;
        let ghost vs = visited_indices(visited);
        let u = if depth_first {
            frontier.pop().unwrap()
        } else {
            head = head + 1;
            frontier[head - 1]
        };
        let ghost fr0 = frontier@;
        assert(reached_node(keys@, root, t@, u));
        let ukey = keys[u];
        let list = &adj[u];
        let ghost t0 = t@;
        let ghost vlen0 = visited_indices(visited).len();
        let ghost du = depth(t@, ukey);
        proof {
            if keys@.no_duplicates() && !depth_first {
                assert(fb[h0 as int] == u);
                assert(cur <= du);
            }
        }
        let mut nb: Vec<usize> = Vec::new();
        let mut i: usize = 0;
        while i < list.len()
            invariant
                visited_indices(visited).len() == vlen0 + nb@.len(),
                keys_compare::<K>(),
                keys@ == s.keys(),
                adj@ == s.adj(),
                keys@.len() == adj@.len(),
                n == keys@.len(),
                r < n,
                root == keys@[r as int],
                u < n,
                ukey == keys@[u as int],
                ukey == root || reached_before(t@, t@.len() as int, ukey),
                list@ == adj@[u as int]@,
                i <= list@.len(),
                forall|a: K, b: K, c: E| f.requires((a, b, c)),
                visited_ok(visited_indices(visited), n as nat),
                visited_indices(visited).len() <= n,
                forall|w: usize| #[trigger] visited_indices(visited).contains(w) <==> di.contains(w),
                di.no_duplicates(),
                di.len() == t@.len() + 1,
                di[0] == r,
                forall|j: int| 0 <= j < di.len() ==> #[trigger] di[j] < n,
                forall|j: int| 0 <= j < t@.len() ==> #[trigger] t@[j].1 == keys@[di[j + 1] as int],
                is_tree(keys@, adj@, root, *f, t@),
                extends(t@, t0),
                forall|q: int| 0 <= q < nb@.len() ==> #[trigger] reached_node(keys@, root, t@, nb@[q]),
                nb@.len() == t@.len() - t0.len(),
                vs.subset_of(visited_indices(visited)),
                forall|k: usize| #[trigger] visited_indices(visited).contains(k) ==> vs.contains(k) || nb@.contains(k),
                done_upto(keys@, adj@, *f, visited_indices(visited), u, i as int),
                !depth_first ==> di == frontier@ + nb@,
                !depth_first ==> frontier@ == fb,
                keys@.no_duplicates() && !depth_first ==> {
                    &&& depth(t@, ukey) == du
                    &&& fresh_targets(t@, root)
                    &&& depth_ok(t@, root)
                    &&& depths_sorted(t@)
                    &&& forall|w: usize| #[trigger] visited_indices(visited).contains(w) ==> depth(t@, keys@[w as int]) <= du + 1
                    &&& forall|w: usize| #[trigger] vs.contains(w) ==> depth(t@, keys@[w as int]) == depth(t0, keys@[w as int])
                    &&& forall|q: int| 0 <= q < nb@.len() ==> depth(t@, keys@[#[trigger] nb@[q] as int]) == du + 1
                    &&& forall|k: int| 0 <= k < i ==> #[trigger] edge_bounded(keys@, *f, t@, visited_indices(visited), ukey, list@[k])
                },
            decreases list@.len() - i,
        {
            let (v, e) = list[i];
            let ghost vi = visited_indices(visited);
            let ghost nbi = nb@;
            let keep = f(ukey, v, e);
            if keep {
                match index_of_key(keys, &v) {
                    Some(j) => {
                        if !visited_contains(&visited, j) {
                            let ghost tb = t@;
                            let ghost nb0 = nb@;
                            let ghost vb = visited_indices(visited);
                            proof {
                                assert(adj@[u as int]@.contains((v, e))) by {
                                    assert(list@[i as int] == (v, e));
                                }
                                lemma_tree_push(keys@, adj@, root, *f, tb, (ukey, v, e));
                                assert(!di.contains(j));
                                if keys@.no_duplicates() && !depth_first {
                                    assert forall|q: int| 0 <= q < tb.len() implies key_visited(keys@, vb, #[trigger] tb[q].1) by {
                                        assert(tb[q].1 == keys@[di[q + 1] as int]);
                                        assert(vb.contains(di[q + 1]));
                                    }
                                    assert(vb.contains(r));
                                    assert(key_visited(keys@, vb, root));
                                    lemma_bfs_push(keys@, tb, vb, root, (ukey, v, e), j, du);
                                }
                            }
                            visited_insert(&mut visited, j);
                            t.push((ukey, v, e));
                            nb.push(j);
                            proof {
                                di = di.push(j);
                                lemma_visited_len(visited_indices(visited), n);
                                crate::search::lemma_extends_trans(t@, tb, t0);
                                assert(visited_indices(visited).len() == vb.len() + 1);
                                assert forall|q: int| 0 <= q < nb@.len() implies #[trigger] reached_node(keys@, root, t@, nb@[q]) by {
                                    if q < nb@.len() - 1 {
                                        assert(nb@[q] == nb0[q]);
                                        assert(reached_node(keys@, root, tb, nb0[q]));
                                        if keys@[nb@[q] as int] != root {
                                            lemma_reached_extends(t@, tb, keys@[nb@[q] as int]);
                                        }
                                    } else {
                                        assert(nb@[q] == j);
                                        assert(keys@[j as int] == v);
                                    }
                                }
                                if ukey != root {
                                    lemma_reached_extends(t@, tb, ukey);
                                }
                                assert forall|jj: int| 0 <= jj < t@.len() implies #[trigger] t@[jj].1 == keys@[di[jj + 1] as int] by {
                                    if jj < tb.len() {
                                        assert(t@[jj] == tb[jj]);
                                    }
                                }
                                if keys@.no_duplicates() && !depth_first {
                                    let tn = t@;
                                    assert(tn == tb.push((ukey, v, e)));
                                    assert(ukey != v) by {
                                        assert(vb.contains(u));
                                    }
                                    assert forall|w: usize| #[trigger] visited_indices(visited).contains(w) implies depth(tn, keys@[w as int]) <= du + 1 by {
                                        if w != j {
                                            assert(vb.contains(w));
                                            assert(keys@[w as int] != v);
                                        }
                                    }
                                    assert forall|w: usize| #[trigger] vs.contains(w) implies depth(tn, keys@[w as int]) == depth(t0, keys@[w as int]) by {
                                        assert(vb.contains(w));
                                        assert(keys@[w as int] != v);
                                    }
                                    assert forall|q: int| 0 <= q < nb@.len() implies depth(tn, keys@[#[trigger] nb@[q] as int]) == du + 1 by {
                                        if q < nb@.len() - 1 {
                                            assert(nb@[q] == nb0[q]);
                                            assert(vb.contains(nb0[q]));
                                            assert(keys@[nb0[q] as int] != v);
                                        }
                                    }
                                    assert forall|k: int| 0 <= k < i implies #[trigger] edge_bounded(keys@, *f, tn, visited_indices(visited), ukey, list@[k]) by {
                                        assert(edge_bounded(keys@, *f, tb, vb, ukey, list@[k]));
                                        let x = list@[k];
                                        if keys@.contains(x.0) && !call_ensures(*f, (ukey, x.0, x.1), false) {
                                            let z = choose|z: usize| #[trigger] vb.contains(z) && (z as int) < keys@.len() && keys@[z as int] == x.0;
                                            assert(visited_indices(visited).contains(z));
                                            assert(keys@[z as int] != v);
                                        }
                                    }
                                }
                            }
                        }
                        proof {
                            assert(visited_indices(visited).contains(j));
                            assert(key_visited(keys@, visited_indices(visited), v));
                        }
                    },
                    None => {},
                }
            }
            proof {
                let v2 = visited_indices(visited);
                assert(list@[i as int] == (v, e));
                lemma_done_grow(keys@, adj@, *f, vi, v2, u, i as int);
                if keys@.no_duplicates() && !depth_first {
                    assert(edge_bounded(keys@, *f, t@, v2, ukey, (v, e))) by {
                        if !keep {
                            assert(call_ensures(*f, (ukey, v, e), false));
                        } else if keys@.contains(v) {
                            assert(key_visited(keys@, v2, v));
                            let z = choose|z: usize| #[trigger] v2.contains(z) && (z as int) < keys@.len() && keys@[z as int] == v;
                            assert(depth(t@, keys@[z as int]) <= du + 1);
                        }
                    }
                    assert forall|k: int| 0 <= k < i + 1 implies #[trigger] edge_bounded(keys@, *f, t@, v2, ukey, list@[k]) by {
                        if k == i {
                            assert(list@[k] == (v, e));
                        }
                    }
                }
                assert(edge_done(keys@, *f, v2, ukey, (v, e))) by {
                    if !keep {
                        assert(call_ensures(*f, (ukey, v, e), false));
                    }
                }
                assert forall|q: int| 0 <= q < i + 1 && q < adj@[u as int]@.len() implies #[trigger] edge_done(keys@, *f, v2, keys@[u as int], adj@[u as int]@[q]) by {
                    if q == i {
                        assert(adj@[u as int]@[q] == (v, e));
                    }
                }
                assert forall|k: usize| #[trigger] v2.contains(k) implies vs.contains(k) || nb@.contains(k) by {
                    if !vi.contains(k) {
                        assert(nb@[nb@.len() - 1] == k);
                    } else if !vs.contains(k) {
                        let q = choose|q: int| 0 <= q < nbi.len() && nbi[q] == k;
                        assert(nb@[q] == k);
                    }
                }
            }
            i = i + 1;
        }
        proof {
            assert forall|q: int| head <= q < frontier@.len() implies #[trigger] reached_node(keys@, root, t@, frontier@[q]) by {
                assert(reached_node(keys@, root, t0, frontier@[q]));
                if keys@[frontier@[q] as int] != root {
                    lemma_reached_extends(t@, t0, keys@[frontier@[q] as int]);
                }
            }
        }
        let ghost fr1 = frontier@;
        let mut k: usize = 0;
        while k < nb.len()
            invariant
                k <= nb@.len(),
                head <= fr1.len(),
                frontier@.len() == fr1.len() + k,
                forall|q: int| 0 <= q < fr1.len() ==> #[trigger] frontier@[q] == fr1[q],
                forall|q: int| 0 <= q < nb@.len() ==> #[trigger] reached_node(keys@, root, t@, nb@[q]),
                forall|q: int| head <= q < frontier@.len() ==> #[trigger] reached_node(keys@, root, t@, frontier@[q]),
                forall|q: int| fr1.len() <= q < frontier@.len() ==> #[trigger] frontier@[q] == (if depth_first && reverse_children {
                    nb@[nb@.len() - 1 - (q - fr1.len())]
                } else {
                    nb@[q - fr1.len()]
                }),
            decreases nb@.len() - k,
        {
            let j = if depth_first && reverse_children { nb[nb.len() - 1 - k] } else { nb[k] };
            frontier.push(j);
            k = k + 1;
        }
        proof {
            let v2 = visited_indices(visited);
            let newly = frontier@.subrange(fr1.len() as int, frontier@.len() as int);
            assert(frontier@ =~= fr1 + newly);
            if depth_first {
                assert(fr1 =~= fb.drop_last());
                assert(u == fb[fb.len() - 1]);
            } else {
                assert(fr1 == fb);
                assert(u == fb[h0 as int]);
            }
            assert forall|kk: usize| #[trigger] v2.contains(kk) implies vs.contains(kk) || newly.contains(kk) by {
                if !vs.contains(kk) {
                    assert(nb@.contains(kk));
                    let q = choose|q: int| 0 <= q < nb@.len() && nb@[q] == kk;
                    let pos = if depth_first && reverse_children { fr1.len() + (nb@.len() - 1 - q) } else { fr1.len() + q };
                    assert(frontier@[pos] == kk);
                    assert(newly[pos - fr1.len()] == kk);
                }
            }
            assert(done_with(keys@, adj@, *f, v2, u));
            lemma_after_expand(keys@, adj@, *f, vs, v2, fb, h0 as int, frontier@, head as int, u, newly, r, depth_first);
            if !depth_first {
                assert(frontier@ =~= fb + nb@);
                assert(frontier@ == di);
            }
            if keys@.no_duplicates() && !depth_first {
                assert(frontier@ == fb + nb@);
                assert forall|q: int| 0 <= q < nb@.len() implies v2.contains(#[trigger] nb@[q]) by {
                    assert(di[fb.len() + q] == nb@[q]);
                }
                assert forall|q: int| 0 <= q < fb.len() implies vs.contains(#[trigger] fb[q]) by {
                    assert(di[q] == fb[q]);
                }
                assert(bounded_edges(keys@, adj@, *f, t@, v2, fb[h0 as int])) by {
                    assert forall|k: int| 0 <= k < adj@[u as int]@.len() implies #[trigger] edge_bounded(keys@, *f, t@, v2, keys@[u as int], adj@[u as int]@[k]) by {
                        assert(list@[k] == adj@[u as int]@[k]);
                    }
                }
                lemma_bfs_step(keys@, adj@, *f, t0, t@, vs, v2, fb, nb@, h0 as int, cur, du);
                cur = du;
            }
        }
    }
    proof {
        assert forall|j: int| 0 <= j < t@.len() implies keys@.contains(#[trigger] t@[j].1) by {
            assert(t@[j].1 == keys@[di[j + 1] as int]);
        }
        if keys@.no_duplicates() {
            let vis = visited_indices(visited);
            assert forall|w: usize| #[trigger] vis.contains(w) implies done_with(keys@, adj@, *f, vis, w) by {
                if !done_with(keys@, adj@, *f, vis, w) {
                    assert(pending_in(frontier@, head as int, w));
                }
            }
            assert(closed_search(keys@, adj@, *f, r, None, false, vis));
            let tn = tree_nodes(root, t@);
            if !depth_first {
                assert(depth(t@, root) == 0) by {
                    lemma_depth_absent(t@, root);
                }
                assert forall|w: usize| #[trigger] vis.contains(w) implies (w as int) < keys@.len() && bounded_edges(keys@, adj@, *f, t@, vis, w) by {
                    assert(!pending_in(frontier@, head as int, w));
                }
                assert forall|q: Seq<(K, K, E)>, x: K| #[trigger] is_walk(keys@, adj@, q, root, x) && keys@.contains(x) && !blocked(*f, q)
                    implies tn.contains(x) && depth(t@, x) <= q.len() by {
                    lemma_bfs_walk(keys@, adj@, *f, t@, vis, r, q, x, q.len() - 1);
                    let w = choose|w: usize| #[trigger] vis.contains(w) && (w as int) < keys@.len() && keys@[w as int] == x;
                    assert(di.contains(w));
                    let qq = choose|qq: int| 0 <= qq < di.len() && di[qq] == w;
                    if qq == 0 {
                        assert(tn[0] == x);
                    } else {
                        assert(t@[qq - 1].1 == keys@[di[qq] as int]);
                        assert(tn[qq] == t@[qq - 1].1);
                    }
                }
            }
            assert forall|p: Seq<(K, K, E)>, x: K| #[trigger] is_walk(keys@, adj@, p, root, x) && keys@.contains(x) && !blocked(*f, p)
                implies tn.contains(x) by {
                lemma_closed_search_visits(keys@, adj@, *f, r, None, false, vis, p, x);
                let w = choose|w: usize| #[trigger] vis.contains(w) && (w as int) < keys@.len() && keys@[w as int] == x;
                assert(di.contains(w));
                let q = choose|q: int| 0 <= q < di.len() && di[q] == w;
                if q == 0 {
                    assert(tn[0] == x);
                } else {
                    assert(t@[q - 1].1 == keys@[di[q] as int]);
                    assert(tn[q] == t@[q - 1].1);
                }
            }
            lemma_distinct_keys_at(keys@, di);
            let d = keys_at(keys@, di);
            assert forall|a: int, b: int| 0 <= a < t@.len() && 0 <= b < t@.len() && a != b implies t@[a].1 != t@[b].1 by {
                assert(t@[a].1 == d[a + 1]);
                assert(t@[b].1 == d[b + 1]);
            }
            assert forall|b: int| 0 <= b < t@.len() implies t@[b].1 != root by {
                assert(t@[b].1 == d[b + 1]);
                assert(root == d[0]);
            }
        }
    }
    t
}

/// The nodes of a tree from `root` in the order it reached them: `root`,
/// then the end of each edge.
pub open spec fn tree_nodes<K, E>(root: K, t: Seq<(K, K, E)>) -> Seq<K> {
    seq![root] + t.map_values(|x: (K, K, E)| x.1)
}

/// The nodes of a tree, in the order reached, are an order of discovery;
/// with fresh ends, they are distinct.
proof fn lemma_tree_nodes<K, E, F: Fn(K, K, E) -> bool>(keys: Seq<K>, adj: Seq<Vec<(K, E)>>, f: F, root: K, t: Seq<(K, K, E)>)
    requires
        is_tree(keys, adj, root, f, t),
    ensures
        discovery(keys, adj, f, root, tree_nodes(root, t)),
        fresh_ends(t, root) ==> tree_nodes(root, t).no_duplicates(),
{
    let d = tree_nodes(root, t);
    assert forall|j: int| 1 <= j < d.len() implies #[trigger] reached_from(keys, adj, f, d, j, d[j]) by {
        let x = t[j - 1];
        assert(d[j] == x.1);
        if x.0 == root {
            assert(d[0] == root);
            assert(is_step(keys, adj, d[0], d[j], x.2));
        } else {
            let q = choose|q: int| #![trigger t[q]] 0 <= q < j - 1 && q < t.len() && t[q].1 == x.0;
            assert(d[q + 1] == x.0);
            assert(is_step(keys, adj, d[q + 1], d[j], x.2));
        }
    }
    if fresh_ends(t, root) {
        assert forall|a: int, b: int| 0 <= a < d.len() && 0 <= b < d.len() && a != b implies d[a] != d[b] by {
            if a > 0 && b > 0 {
                assert(d[a] == t[a - 1].1);
                assert(d[b] == t[b - 1].1);
            } else if a > 0 {
                assert(d[a] == t[a - 1].1);
            } else {
                assert(d[b] == t[b - 1].1);
            }
        }
    }
}

/// A reversed sequence with distinct elements has distinct elements.
proof fn lemma_reverse_distinct<A>(s: Seq<A>)
    requires
        s.no_duplicates(),
    ensures
        s.reverse().no_duplicates(),
        s.reverse().reverse() == s,
{
    let r = s.reverse();
    assert forall|a: int, b: int| 0 <= a < r.len() && 0 <= b < r.len() && a != b implies r[a] != r[b] by {
        assert(r[a] == s[s.len() - 1 - a]);
        assert(r[b] == s[s.len() - 1 - b]);
    }
    assert(r.reverse() =~= s);
}

/// Reversing twice gives the sequence back.
proof fn lemma_reverse_twice<A>(s: Seq<A>)
    ensures
        s.reverse().reverse() == s,
{
    assert(s.reverse().reverse() =~= s);
}

/// The keys `root`, then the ends of the edges of `t`.
fn nodes_of_tree<K: Copy, E: Copy>(root: K, t: &Vec<(K, K, E)>) -> (r: Vec<K>)
    ensures
        r@ == tree_nodes(root, t@),
{
    let mut r: Vec<K> = Vec::new();
    r.push(root);
    let mut i: usize = 0;
    while i < t.len()
        invariant
            i <= t@.len(),
            r@ == tree_nodes(root, t@.subrange(0, i as int)),
        decreases t@.len() - i,
    {
        r.push(t[i].1);
        proof {
            assert(t@.subrange(0, i + 1) == t@.subrange(0, i as int).push(t@[i as int]));
            assert(r@ =~= tree_nodes(root, t@.subrange(0, i + 1)));
        }
        i = i + 1;
    }
    proof {
        assert(t@.subrange(0, t@.len() as int) == t@);
    }
    r
}

/// Each edge of `t` turned around.
fn flip_edges<K: Copy, E: Copy>(t: &Vec<(K, K, E)>) -> (r: Vec<(K, K, E)>)
    ensures
        r@ == flip_all(t@),
        flip_all(r@) == t@,
{
    let mut r: Vec<(K, K, E)> = Vec::new();
    let mut i: usize = 0;
    while i < t.len()
        invariant
            i <= t@.len(),
            r@ == flip_all(t@.subrange(0, i as int)),
        decreases t@.len() - i,
    {
        let x = t[i];
        r.push((x.1, x.0, x.2));
        proof {
            assert(t@.subrange(0, i + 1) == t@.subrange(0, i as int).push(x));
            assert(r@ =~= flip_all(t@.subrange(0, i + 1)));
        }
        i = i + 1;
    }
    proof {
        assert(t@.subrange(0, t@.len() as int) == t@);
        assert(flip_all(r@) =~= t@);
    }
    r
}

/// The elements of `v` in reverse order.
fn reversed<T: Copy>(v: &Vec<T>) -> (r: Vec<T>)
    ensures
        r@ == v@.reverse(),
{
    let mut r: Vec<T> = Vec::new();
    let mut i: usize = v.len();
    while i > 0
        invariant
            i <= v@.len(),
            r@.len() == v@.len() - i,
            forall|j: int| 0 <= j < r@.len() ==> #[trigger] r@[j] == v@[v@.len() - 1 - j],
        decreases i,
    {
        i = i - 1;
        r.push(v[i]);
    }
    proof {
        assert(r@ =~= v@.reverse());
    }
    r
}

/// A listing of what can be reached from `root`, in the order `order`
/// names.
pub struct Order<K> {
    root: K,
    order: NodeOrder,
}

impl<K: Copy + PartialEq> Order<K> {
    /// The node the listing starts from.
    pub closed spec fn root_key(&self) -> K {
        self.root
    }

    /// The order of the listing.
    pub closed spec fn kind(&self) -> NodeOrder {
        self.order
    }

    /// A pre-order listing from `root`.
    pub fn new(root: &K) -> (r: Self)
        ensures
            r.root_key() == *root,
            r.kind() == NodeOrder::PreOrder,
    {
        Order { root: *root, order: NodeOrder::PreOrder }
    }

    /// The same listing in pre-order.
    pub fn pre(self) -> (r: Self)
        ensures
            r.root_key() == self.root_key(),
            r.kind() == NodeOrder::PreOrder,
    {
        Order { root: self.root, order: NodeOrder::PreOrder }
    }

    /// The same listing in post-order.
    pub fn post(self) -> (r: Self)
        ensures
            r.root_key() == self.root_key(),
            r.kind() == NodeOrder::PostOrder,
    {
        Order { root: self.root, order: NodeOrder::PostOrder }
    }

    /// The nodes reached from the root along edges `f` accepts: each node
    /// once (when the keys are distinct), the root first and every other
    /// node after one it is reached from; in post-order the same reversed.
    /// With distinct keys, every node of the snapshot that a walk from the
    /// root along edges `f` never refuses leads to is listed. In level
    /// order the nodes come by non-decreasing distance from the root
    /// (`level_order`); in pre-order each node after the root is reached
    /// from the latest listed node that still had an edge to a node not
    /// listed yet (`pre_ordered`). A root that is not in the snapshot is
    /// listed alone.
    pub fn search_nodes_filter<E: Copy, F: Fn(K, K, E) -> bool>(&self, s: &Snapshot<K, E>, f: &F) -> (r: Vec<K>)
        requires
            keys_compare::<K>(),
            s.wf(),
            forall|a: K, b: K, c: E| f.requires((a, b, c)),
        ensures
            !s.keys().contains(self.root_key()) ==> r@ == seq![self.root_key()],
            self.kind() == NodeOrder::PostOrder ==> discovery(s.keys(), s.adj(), *f, self.root_key(), r@.reverse()),
            self.kind() != NodeOrder::PostOrder ==> discovery(s.keys(), s.adj(), *f, self.root_key(), r@),
            s.keys().no_duplicates() ==> r@.no_duplicates(),
            s.keys().contains(self.root_key()) ==> forall|j: int| 0 <= j < r@.len() ==> s.keys().contains(#[trigger] r@[j]),
            s.keys().no_duplicates() ==> lists_reach(s.keys(), s.adj(), *f, self.root_key(), r@),
            self.kind() == NodeOrder::PreOrder && s.keys().no_duplicates() && s.keys().contains(self.root_key()) ==> pre_ordered(
                s.keys(),
                s.adj(),
                *f,
                r@,
            ),
            self.kind() == NodeOrder::PostOrder && s.keys().no_duplicates() && s.keys().contains(self.root_key()) ==> pre_ordered(
                s.keys(),
                s.adj(),
                *f,
                r@.reverse(),
            ),
            self.kind() == NodeOrder::LevelOrder && s.keys().no_duplicates() && s.keys().contains(self.root_key()) ==> level_order(
                s.keys(),
                s.adj(),
                *f,
                self.root_key(),
                r@,
            ),
    {
        let i = match s.index_of(&self.root) {
            Some(i) => i,
            None => {
                let mut r: Vec<K> = Vec::new();
                r.push(self.root);
                proof {
                    assert(r@.reverse() =~= r@);
                    assert forall|p: Seq<(K, K, E)>, x: K| #[trigger] is_walk(s.keys(), s.adj(), p, self.root, x) && s.keys().contains(x)
                        && !blocked(*f, p) implies r@.contains(x) by {
                        assert(is_step(s.keys(), s.adj(), p[0].0, p[0].1, p[0].2));
                    }
                }
                return r;
            },
        };
        match self.order {
            NodeOrder::PostOrder => {
                let d = pop_order(s, i, f, false);
                let r = reversed(&d);
                proof {
                    assert forall|j: int| 0 <= j < r@.len() implies s.keys().contains(#[trigger] r@[j]) by {
                        assert(r@[j] == d@[d@.len() - 1 - j]);
                    }
                    lemma_reverse_twice(d@);
                    if s.keys().no_duplicates() {
                        lemma_reverse_distinct(d@);
                        assert forall|p: Seq<(K, K, E)>, x: K| #[trigger] is_walk(s.keys(), s.adj(), p, self.root, x) && s.keys().contains(x)
                            && !blocked(*f, p) implies r@.contains(x) by {
                            assert(d@.contains(x));
                            let q = choose|q: int| 0 <= q < d@.len() && d@[q] == x;
                            assert(r@[d@.len() - 1 - q] == d@[q]);
                        }
                    }
                }
                r
            },
            NodeOrder::LevelOrder => {
                let t = push_order(s, i, f, false, false);
                proof {
                    lemma_tree_nodes(s.keys(), s.adj(), *f, self.root, t@);
                }
                let r = nodes_of_tree(self.root, &t);
                proof {
                    if s.keys().no_duplicates() {
                        assert(level_tree(s.keys(), s.adj(), *f, self.root, t@));
                    }
                    assert forall|j: int| 0 <= j < r@.len() implies s.keys().contains(#[trigger] r@[j]) by {
                        if j > 0 {
                            assert(r@[j] == t@[j - 1].1);
                        }
                    }
                }
                r
            },
            _ => pop_order(s, i, f, true),
        }
    }

    /// `search_nodes_filter` following every edge.
    pub fn search_nodes<E: Copy>(&self, s: &Snapshot<K, E>) -> (r: Vec<K>)
        requires
            keys_compare::<K>(),
            s.wf(),
        ensures
            !s.keys().contains(self.root_key()) ==> r@ == seq![self.root_key()],
            self.kind() == NodeOrder::PostOrder ==> discovery(s.keys(), s.adj(), follow_all::<K, E>, self.root_key(), r@.reverse()),
            self.kind() != NodeOrder::PostOrder ==> discovery(s.keys(), s.adj(), follow_all::<K, E>, self.root_key(), r@),
            s.keys().no_duplicates() ==> r@.no_duplicates(),
            s.keys().no_duplicates() ==> lists_reach(s.keys(), s.adj(), follow_all::<K, E>, self.root_key(), r@),
            self.kind() == NodeOrder::PreOrder && s.keys().no_duplicates() && s.keys().contains(self.root_key()) ==> pre_ordered(
                s.keys(),
                s.adj(),
                follow_all::<K, E>,
                r@,
            ),
            self.kind() == NodeOrder::PostOrder && s.keys().no_duplicates() && s.keys().contains(self.root_key()) ==> pre_ordered(
                s.keys(),
                s.adj(),
                follow_all::<K, E>,
                r@.reverse(),
            ),
            self.kind() == NodeOrder::LevelOrder && s.keys().no_duplicates() && s.keys().contains(self.root_key()) ==> level_order(
                s.keys(),
                s.adj(),
                follow_all::<K, E>,
                self.root_key(),
                r@,
            ),
    {
        self.search_nodes_filter(s, &follow_all::<K, E>)
    }

    /// The edges by which the nodes reached from the root along edges `f`
    /// accepts were first reached, each turned around (an edge `u -> v`
    /// listed as `(v, u, e)`): every edge leaves the root or a node an
    /// earlier edge reached, and (when the keys are distinct) no node is
    /// reached twice; in post-order the same reversed. With distinct keys,
    /// every node of the snapshot that a walk from the root along edges `f`
    /// never refuses leads to is the root or reached by one of the edges.
    /// Empty when the root is not in the snapshot.
    pub fn search_edges_filter<E: Copy, F: Fn(K, K, E) -> bool>(&self, s: &Snapshot<K, E>, f: &F) -> (r: Vec<(K, K, E)>)
        requires
            keys_compare::<K>(),
            s.wf(),
            forall|a: K, b: K, c: E| f.requires((a, b, c)),
        ensures
            !s.keys().contains(self.root_key()) ==> r@.len() == 0,
            self.kind() == NodeOrder::PostOrder ==> is_tree(s.keys(), s.adj(), self.root_key(), *f, flip_all(r@).reverse()),
            self.kind() != NodeOrder::PostOrder ==> is_tree(s.keys(), s.adj(), self.root_key(), *f, flip_all(r@)),
            self.kind() == NodeOrder::PostOrder && s.keys().no_duplicates() ==> fresh_ends(flip_all(r@).reverse(), self.root_key()),
            self.kind() != NodeOrder::PostOrder && s.keys().no_duplicates() ==> fresh_ends(flip_all(r@), self.root_key()),
            self.kind() == NodeOrder::PostOrder && s.keys().no_duplicates() && s.keys().contains(self.root_key()) ==> lists_reach(
                s.keys(),
                s.adj(),
                *f,
                self.root_key(),
                tree_nodes(self.root_key(), flip_all(r@).reverse()),
            ),
            self.kind() != NodeOrder::PostOrder && s.keys().no_duplicates() && s.keys().contains(self.root_key()) ==> lists_reach(
                s.keys(),
                s.adj(),
                *f,
                self.root_key(),
                tree_nodes(self.root_key(), flip_all(r@)),
            ),
            self.kind() == NodeOrder::LevelOrder && s.keys().no_duplicates() && s.keys().contains(self.root_key()) ==> level_tree(
                s.keys(),
                s.adj(),
                *f,
                self.root_key(),
                flip_all(r@),
            ),
    {
        let i = match s.index_of(&self.root) {
            Some(i) => i,
            None => {
                return Vec::new();
            },
        };
        match self.order {
            NodeOrder::PostOrder => {
                let t = push_order(s, i, f, true, false);
                let fl = flip_edges(&t);
                let r = reversed(&fl);
                proof {
                    lemma_reverse_twice(fl@);
                    assert(flip_all(r@) =~= t@.reverse());
                    lemma_reverse_twice(t@);
                }
                r
            },
            NodeOrder::LevelOrder => {
                let t = push_order(s, i, f, false, false);
                let r = flip_edges(&t);
                proof {
                    assert(flip_all(r@) =~= t@);
                }
                r
            },
            _ => {
                let t = push_order(s, i, f, true, true);
                let r = flip_edges(&t);
                proof {
                    assert(flip_all(r@) =~= t@);
                }
                r
            },
        }
    }

    /// `search_edges_filter` following every edge.
    pub fn search_edges<E: Copy>(&self, s: &Snapshot<K, E>) -> (r: Vec<(K, K, E)>)
        requires
            keys_compare::<K>(),
            s.wf(),
        ensures
            !s.keys().contains(self.root_key()) ==> r@.len() == 0,
            self.kind() == NodeOrder::PostOrder ==> is_tree(s.keys(), s.adj(), self.root_key(), follow_all::<K, E>, flip_all(r@).reverse()),
            self.kind() != NodeOrder::PostOrder ==> is_tree(s.keys(), s.adj(), self.root_key(), follow_all::<K, E>, flip_all(r@)),
            self.kind() == NodeOrder::PostOrder && s.keys().no_duplicates() ==> fresh_ends(flip_all(r@).reverse(), self.root_key()),
            self.kind() != NodeOrder::PostOrder && s.keys().no_duplicates() ==> fresh_ends(flip_all(r@), self.root_key()),
            self.kind() == NodeOrder::PostOrder && s.keys().no_duplicates() && s.keys().contains(self.root_key()) ==> lists_reach(
                s.keys(),
                s.adj(),
                follow_all::<K, E>,
                self.root_key(),
                tree_nodes(self.root_key(), flip_all(r@).reverse()),
            ),
            self.kind() != NodeOrder::PostOrder && s.keys().no_duplicates() && s.keys().contains(self.root_key()) ==> lists_reach(
                s.keys(),
                s.adj(),
                follow_all::<K, E>,
                self.root_key(),
                tree_nodes(self.root_key(), flip_all(r@)),
            ),
            self.kind() == NodeOrder::LevelOrder && s.keys().no_duplicates() && s.keys().contains(self.root_key()) ==> level_tree(
                s.keys(),
                s.adj(),
                follow_all::<K, E>,
                self.root_key(),
                flip_all(r@),
            ),
    {
        self.search_edges_filter(s, &follow_all::<K, E>)
    }
}

} // verus!
