//! Graph searches over a snapshot of a graph: node `i` has key `keys[i]`
//! and may be left along the `(neighbour key, edge value)` pairs of
//! `adj[i]`. A search records the edges by which it first reached each node
//! (its edge tree); `backtrack` turns that tree into a path.
use vstd::prelude::*;
use crate::traverse::depth;
use crate::order::{edge_bounded, bounded_edges, depths_sorted, bfs_levels, lemma_level_push, lemma_bfs_step};
use ahash::AHashSet;
use min_max_heap::MinMaxHeap;
use vstd::multiset::Multiset;
use crate::{keys_compare, key_eq};

verus! {

broadcast use vstd::set::group_set_axioms, vstd::set_lib::group_set_lib_default, vstd::multiset::group_multiset_axioms;

#[verifier::external_type_specification]
#[verifier::external_body]
#[verifier::reject_recursive_types(T)]
#[verifier::reject_recursive_types(S)]
pub struct ExAHashSet<T, S>(AHashSet<T, S>);

#[verifier::external_type_specification]
#[verifier::external_body]
pub struct ExRandomState(ahash::RandomState);

/// The node indices held by a visited set.
pub uninterp spec fn visited_indices(s: AHashSet<usize>) -> Set<usize>;

/// `AHashSet::new`: a set with no element.
#[verifier::external_body]
pub(crate) fn visited_new() -> (s: AHashSet<usize>)
    ensures
        visited_indices(s) == Set::<usize>::empty(),
{
    AHashSet::new()
}

/// `HashSet::insert`, reached through `AHashSet`'s `DerefMut`: adds `x` and
/// returns whether it was absent.
#[verifier::external_body]
pub(crate) fn visited_insert(s: &mut AHashSet<usize>, x: usize) -> (r: bool)
    ensures
        visited_indices(*final(s)) == visited_indices(*old(s)).insert(x),
        r == !visited_indices(*old(s)).contains(x),
{
    s.insert(x)
}

/// `HashSet::contains`, reached through `AHashSet`'s `Deref`.
#[verifier::external_body]
pub(crate) fn visited_contains(s: &AHashSet<usize>, x: usize) -> (r: bool)
    ensures
        r == visited_indices(*s).contains(x),
{
    s.contains(&x)
}

#[verifier::external_type_specification]
#[verifier::external_body]
#[verifier::reject_recursive_types(T)]
pub struct ExMinMaxHeap<T>(MinMaxHeap<T>);

/// The `(rank, node index)` pairs held by a priority frontier.
pub uninterp spec fn heap_items(h: MinMaxHeap<(usize, usize)>) -> Multiset<(usize, usize)>;

/// The order of `std` on pairs: lexicographic.
pub open spec fn pair_le(a: (usize, usize), b: (usize, usize)) -> bool {
    a.0 < b.0 || (a.0 == b.0 && a.1 <= b.1)
}

/// `MinMaxHeap::new`: an empty heap.
#[verifier::external_body]
fn heap_new() -> (h: MinMaxHeap<(usize, usize)>)
    ensures
        heap_items(h) == Multiset::<(usize, usize)>::empty(),
{
    MinMaxHeap::new()
}

/// `MinMaxHeap::push`: adds one element.
#[verifier::external_body]
fn heap_push(h: &mut MinMaxHeap<(usize, usize)>, x: (usize, usize))
    ensures
        heap_items(*final(h)) == heap_items(*old(h)).insert(x),
{
    h.push(x)
}

/// `MinMaxHeap::pop_min`: removes and returns a least element, `None` when
/// the heap is empty.
#[verifier::external_body]
fn heap_pop_min(h: &mut MinMaxHeap<(usize, usize)>) -> (r: Option<(usize, usize)>)
    ensures
        match r {
            Some(x) => heap_items(*old(h)).count(x) > 0
                && heap_items(*final(h)) == heap_items(*old(h)).remove(x)
                && forall|y: (usize, usize)| heap_items(*old(h)).count(y) > 0 ==> pair_le(x, y),
            None => heap_items(*old(h)).len() == 0 && heap_items(*final(h)) == heap_items(*old(h)),
        },
{
    h.pop_min()
}

/// `MinMaxHeap::pop_max`: removes and returns a greatest element, `None`
/// when the heap is empty.
#[verifier::external_body]
fn heap_pop_max(h: &mut MinMaxHeap<(usize, usize)>) -> (r: Option<(usize, usize)>)
    ensures
        match r {
            Some(x) => heap_items(*old(h)).count(x) > 0
                && heap_items(*final(h)) == heap_items(*old(h)).remove(x)
                && forall|y: (usize, usize)| heap_items(*old(h)).count(y) > 0 ==> pair_le(y, x),
            None => heap_items(*old(h)).len() == 0 && heap_items(*final(h)) == heap_items(*old(h)),
        },
{
    h.pop_max()
}

/// Order in which a search expands the nodes it has reached.
#[derive(Clone, Copy, Debug, PartialEq, Eq, Structural)]
pub enum Strategy {
    /// First in, first out, following every edge of an expanded node.
    Breadth,
    /// Last in, first out, following every edge of an expanded node.
    Depth,
    /// Last in, first out, following only the first edge to a node not yet
    /// reached.
    DepthFirstEdge,
    /// Depth first, going on from a node's next edge once everything
    /// reached through its earlier ones is explored.
    Recursive,
    /// The reached node of least rank first.
    PriorityMin,
    /// The reached node of greatest rank first.
    PriorityMax,
}

/// `(u, v, e)` is an edge of the snapshot.
pub open spec fn is_step<K, E>(keys: Seq<K>, adj: Seq<Vec<(K, E)>>, u: K, v: K, e: E) -> bool {
    exists|i: int| #![trigger adj[i]] 0 <= i < keys.len() && i < adj.len() && keys[i] == u && adj[i]@.contains((v, e))
}

/// The filter `f` lets the search follow `(u, v, e)`.
pub open spec fn accepts<K, E, F: Fn(K, K, E) -> bool>(f: F, u: K, v: K, e: E) -> bool {
    call_ensures(f, (u, v, e), true)
}

/// One of the first `n` edges of `t` ends at `k`.
pub open spec fn reached_before<K, E>(t: Seq<(K, K, E)>, n: int, k: K) -> bool {
    exists|q: int| #![trigger t[q]] 0 <= q < n && q < t.len() && t[q].1 == k
}

/// Every edge of `t` starts at `root` or at the end of an earlier edge.
pub open spec fn rooted<K, E>(t: Seq<(K, K, E)>, root: K) -> bool {
    forall|j: int| #![trigger t[j]] 0 <= j < t.len() ==> (t[j].0 == root || reached_before(t, j, t[j].0))
}

/// `t` is an edge tree of a search from `root` that followed only edges of
/// the snapshot accepted by `f`.
pub open spec fn is_tree<K, E, F: Fn(K, K, E) -> bool>(
    keys: Seq<K>,
    adj: Seq<Vec<(K, E)>>,
    root: K,
    f: F,
    t: Seq<(K, K, E)>,
) -> bool {
    &&& rooted(t, root)
    &&& forall|j: int| #![trigger t[j]] 0 <= j < t.len() ==> is_step(keys, adj, t[j].0, t[j].1, t[j].2) && accepts(
        f,
        t[j].0,
        t[j].1,
        t[j].2,
    )
}

/// Consecutive edges of `p` meet: each ends where the next starts.
pub open spec fn chained<K, E>(p: Seq<(K, K, E)>) -> bool {
    forall|j: int| #![trigger p[j]] 0 <= j < p.len() - 1 ==> p[j].1 == p[j + 1].0
}

/// `p` is a non-empty walk along edges of the snapshot from `from` to `to`.
pub open spec fn is_walk<K, E>(keys: Seq<K>, adj: Seq<Vec<(K, E)>>, p: Seq<(K, K, E)>, from: K, to: K) -> bool {
    &&& p.len() > 0
    &&& p[0].0 == from
    &&& p[p.len() - 1].1 == to
    &&& chained(p)
    &&& forall|j: int| #![trigger p[j]] 0 <= j < p.len() ==> is_step(keys, adj, p[j].0, p[j].1, p[j].2)
}

/// The nodes along a walk: where it starts, then where each edge ends.
pub open spec fn walk_nodes<K, E>(p: Seq<(K, K, E)>) -> Seq<K> {
    if p.len() == 0 {
        Seq::empty()
    } else {
        seq![p[0].0] + p.map_values(|x: (K, K, E)| x.1)
    }
}

/// No two edges of `t` end at the same node.
pub open spec fn distinct_targets<K, E>(t: Seq<(K, K, E)>) -> bool {
    forall|a: int, b: int| #![trigger t[a], t[b]] 0 <= a < b < t.len() ==> t[a].1 != t[b].1
}

/// A walk whose edges end at distinct nodes, none where it starts, passes
/// no node twice.
pub proof fn lemma_walk_nodes_distinct<K, E>(p: Seq<(K, K, E)>)
    requires
        p.len() > 0,
        distinct_targets(p),
        forall|j: int| #![trigger p[j]] 0 <= j < p.len() ==> p[j].1 != p[0].0,
    ensures
        walk_nodes(p).no_duplicates(),
{
    let w = walk_nodes(p);
    assert forall|a: int, b: int| 0 <= a < b < w.len() implies w[a] != w[b] by {
        assert(w[b] == p[b - 1].1);
        if a == 0 {
            assert(w[a] == p[0].0);
        } else {
            assert(w[a] == p[a - 1].1);
        }
    }
}

/// A closed walk whose edges end at distinct nodes passes no node twice
/// before it closes.
pub proof fn lemma_cycle_nodes_distinct<K, E>(p: Seq<(K, K, E)>)
    requires
        p.len() > 0,
        distinct_targets(p),
        p[p.len() - 1].1 == p[0].0,
    ensures
        walk_nodes(p).drop_last().no_duplicates(),
{
    let w = walk_nodes(p);
    let c = w.drop_last();
    assert forall|a: int, b: int| 0 <= a < b < c.len() implies c[a] != c[b] by {
        assert(c[b] == p[b - 1].1);
        if a == 0 {
            assert(c[a] == p[0].0);
            assert(p[b - 1].1 != p[p.len() - 1].1);
        } else {
            assert(c[a] == p[a - 1].1);
        }
    }
}

/// The edges of `p` all come from `t`.
pub open spec fn edges_from<K, E>(p: Seq<(K, K, E)>, t: Seq<(K, K, E)>) -> bool {
    forall|j: int| #![trigger p[j]] 0 <= j < p.len() ==> t.contains(p[j])
}

/// What `new` holds past its prefix of the length of `old`.
pub open spec fn added<A>(new: Seq<A>, old: Seq<A>) -> Seq<A> {
    new.skip(old.len() as int)
}

/// `new` extends `old`.
pub open spec fn extends<A>(new: Seq<A>, old: Seq<A>) -> bool {
    old.len() <= new.len() && forall|i: int| #![trigger old[i]] 0 <= i < old.len() ==> new[i] == old[i]
}

/// Every edge of `t` ends at a visited node and no two at the same node;
/// when `marked`, the root is visited and no edge ends at it.
pub open spec fn fresh_tree<K, E>(keys: Seq<K>, vis: Set<usize>, t: Seq<(K, K, E)>, root: K, marked: bool) -> bool {
    &&& forall|q: int| #![trigger t[q]] 0 <= q < t.len() ==> key_visited(keys, vis, t[q].1)
    &&& distinct_targets(t)
    &&& marked ==> key_visited(keys, vis, root)
    &&& marked ==> forall|q: int| #![trigger t[q]] 0 <= q < t.len() ==> t[q].1 != root
}

/// `k` is the root, when the root was marked from the start, or the end
/// of an edge of `t`.
pub open spec fn reached_key<K, E>(t: Seq<(K, K, E)>, root: K, marked: bool, k: K) -> bool {
    (marked && k == root) || exists|j: int| 0 <= j < t.len() && #[trigger] t[j].1 == k
}

/// Where a chain of edges from `root` ends: `root` when there is none.
pub open spec fn end_key<K, E>(t: Seq<(K, K, E)>, root: K) -> K {
    if t.len() == 0 {
        root
    } else {
        t[t.len() - 1].1
    }
}

/// The node with key `uk` and edges `list` has no edge left to follow
/// first: in order, its edges lead out of the snapshot or to nodes
/// reached, up to one, if any, that leads to a node of the snapshot not
/// reached, which `f` refused.
pub open spec fn stuck_at<K, E, F: Fn(K, K, E) -> bool>(
    keys: Seq<K>,
    f: F,
    t: Seq<(K, K, E)>,
    root: K,
    marked: bool,
    uk: K,
    list: Seq<(K, E)>,
) -> bool {
    exists|m: int|
        0 <= m <= list.len() && (forall|q: int| 0 <= q < m ==> !keys.contains(#[trigger] list[q].0) || reached_key(t, root, marked, list[q].0))
            && (m < list.len() ==> keys.contains(list[m].0) && !reached_key(t, root, marked, list[m].0) && call_ensures(
            f,
            (uk, list[m].0, list[m].1),
            false,
        ))
}

/// No node with key `k` records an edge to itself.
pub open spec fn no_loop_at<K, E>(keys: Seq<K>, adj: Seq<Vec<(K, E)>>, k: K) -> bool {
    forall|i: int, e: E| 0 <= i < keys.len() && i < adj.len() && keys[i] == k ==> !#[trigger] adj[i]@.contains((k, e))
}

/// No walk from `root` to `x` along edges `f` never refuses is shorter
/// than `n` edges.
pub open spec fn none_shorter<K, E, F: Fn(K, K, E) -> bool>(keys: Seq<K>, adj: Seq<Vec<(K, E)>>, f: F, root: K, x: K, n: int) -> bool {
    forall|q: Seq<(K, K, E)>| #[trigger] is_walk(keys, adj, q, root, x) && !blocked(f, q) ==> q.len() >= n
}

/// `k` is the root or the end of one of the first `n` edges of `t`.
pub open spec fn reached_by<K, E>(t: Seq<(K, K, E)>, root: K, n: int, k: K) -> bool {
    k == root || reached_before(t, n, k)
}

/// Node `v` ranks strictly before node `u` in the order a priority search
/// takes them: lower rank for `min`, higher otherwise.
pub open spec fn ranks_before(rank: Seq<usize>, v: int, u: int, min: bool) -> bool {
    if min {
        rank[v] < rank[u]
    } else {
        rank[v] > rank[u]
    }
}

/// Edge `a` of `t` is the first that leaves its source.
pub open spec fn first_from<K, E>(t: Seq<(K, K, E)>, a: int) -> bool {
    forall|i: int| #![trigger t[i]] 0 <= i < a ==> t[i].0 != t[a].0
}

/// Node `v` was expanded within the first `n` edges of `t`: every edge
/// leaving it that leads to a node of the snapshot, and that `f` does not
/// refuse, ends at a node reached by then.
pub open spec fn expanded_by<K, E, F: Fn(K, K, E) -> bool>(
    keys: Seq<K>,
    adj: Seq<Vec<(K, E)>>,
    f: F,
    t: Seq<(K, K, E)>,
    root: K,
    v: int,
    n: int,
) -> bool {
    forall|w: K, e: E| #[trigger] adj[v]@.contains((w, e)) && keys.contains(w) && !call_ensures(f, (keys[v], w, e), false)
        ==> reached_by(t, root, n, w)
}

/// The tree `t` of a priority search from `root`: when a node `u` is
/// expanded (where its first edge in `t` stands), every node reached by
/// then that ranks strictly before `u` has been expanded already.
pub open spec fn priority_ordered<K, E, F: Fn(K, K, E) -> bool>(
    keys: Seq<K>,
    adj: Seq<Vec<(K, E)>>,
    rank: Seq<usize>,
    f: F,
    root: K,
    t: Seq<(K, K, E)>,
    min: bool,
) -> bool {
    forall|a: int, u: int, v: int|
        #![trigger t[a], keys[u], keys[v]]
        0 <= a < t.len() && 0 <= u < keys.len() && 0 <= v < keys.len() && keys[u] == t[a].0 && first_from(t, a) && reached_by(
            t,
            root,
            a,
            keys[v],
        ) && ranks_before(rank, v, u, min) ==> expanded_by(keys, adj, f, t, root, v, a)
}

/// `x` comes first in the order a priority search takes: least for `min`,
/// greatest otherwise.
pub open spec fn takes_first(x: (usize, usize), y: (usize, usize), min: bool) -> bool {
    if min {
        pair_le(x, y)
    } else {
        pair_le(y, x)
    }
}

/// What a priority search records of its expansions: the `m`-th expanded
/// node `exp[m]` added edges `st[m]` up to `en[m]` of `t`, all leaving it;
/// edge `i` was added by expansion `grp[i]`; and when `exp[m]` was taken
/// no node reached by then and not expanded yet came first.
pub open spec fn pfs_record<K, E>(
    keys: Seq<K>,
    rank: Seq<usize>,
    root: K,
    t: Seq<(K, K, E)>,
    exp: Seq<usize>,
    st: Seq<int>,
    en: Seq<int>,
    grp: Seq<int>,
    min: bool,
) -> bool {
    &&& exp.len() == st.len() && st.len() == en.len() && grp.len() == t.len()
    &&& forall|m: int| 0 <= m < exp.len() ==> 0 <= #[trigger] st[m] <= en[m] <= t.len() && (exp[m] as int) < keys.len()
    &&& forall|m1: int, m2: int| 0 <= m1 < m2 < exp.len() ==> #[trigger] en[m1] <= #[trigger] st[m2]
    &&& forall|i: int| #![trigger grp[i]] 0 <= i < t.len() ==> 0 <= grp[i] < exp.len() && st[grp[i]] <= i < en[grp[i]] && t[i].0 == keys[exp[grp[i]] as int]
    &&& forall|m: int, v: int| #![trigger st[m], keys[v]]
        0 <= m < exp.len() && 0 <= v < keys.len() && reached_by(t, root, st[m], keys[v]) && !exp.take(m).contains(v as usize) ==> takes_first(
            (rank[exp[m] as int], exp[m]),
            (rank[v], v as usize),
            min,
        )
}

/// Whether `k` is reached within the first `n` edges depends on those
/// edges alone.
proof fn lemma_reached_by_prefix<K, E>(t1: Seq<(K, K, E)>, t0: Seq<(K, K, E)>, root: K, n: int, k: K)
    requires
        extends(t1, t0),
        n <= t0.len(),
    ensures
        reached_by(t1, root, n, k) == reached_by(t0, root, n, k),
{
    if reached_before(t1, n, k) {
        let q = choose|q: int| #![trigger t1[q]] 0 <= q < n && q < t1.len() && t1[q].1 == k;
        assert(t0[q] == t1[q]);
    }
    if reached_before(t0, n, k) {
        let q = choose|q: int| #![trigger t0[q]] 0 <= q < n && q < t0.len() && t0[q].1 == k;
        assert(t0[q] == t1[q]);
    }
}

/// A node expanded within the first `n` edges stays so as the tree grows,
/// and is so within any more edges.
proof fn lemma_expanded_grow<K, E, F: Fn(K, K, E) -> bool>(
    keys: Seq<K>,
    adj: Seq<Vec<(K, E)>>,
    f: F,
    t1: Seq<(K, K, E)>,
    t0: Seq<(K, K, E)>,
    root: K,
    v: int,
    n: int,
    n1: int,
)
    requires
        extends(t1, t0),
        n <= t0.len(),
        n <= n1,
        expanded_by(keys, adj, f, t0, root, v, n),
    ensures
        expanded_by(keys, adj, f, t1, root, v, n1),
{
    assert forall|w: K, e: E| #[trigger] adj[v]@.contains((w, e)) && keys.contains(w) && !call_ensures(f, (keys[v], w, e), false)
        implies reached_by(t1, root, n1, w) by {
        lemma_reached_by_prefix(t1, t0, root, n, w);
        if w != root {
            let q = choose|q: int| #![trigger t1[q]] 0 <= q < n && q < t1.len() && t1[q].1 == w;
        }
    }
}

/// A node all of whose edges are dealt with, in a search whose visited
/// nodes the tree reached, is expanded within the whole tree.
proof fn lemma_done_expanded<K, E, F: Fn(K, K, E) -> bool>(
    keys: Seq<K>,
    adj: Seq<Vec<(K, E)>>,
    f: F,
    vis: Set<usize>,
    t: Seq<(K, K, E)>,
    root: K,
    marked: bool,
    u: usize,
)
    requires
        (u as int) < adj.len(),
        done_with(keys, adj, f, vis, u),
        visited_reached(keys, vis, t, root, marked),
    ensures
        expanded_by(keys, adj, f, t, root, u as int, t.len() as int),
{
    assert forall|w: K, e: E| #[trigger] adj[u as int]@.contains((w, e)) && keys.contains(w) && !call_ensures(f, (keys[u as int], w, e), false)
        implies reached_by(t, root, t.len() as int, w) by {
        let i = choose|i: int| 0 <= i < adj[u as int]@.len() && adj[u as int]@[i] == (w, e);
        assert(edge_done(keys, f, vis, keys[u as int], adj[u as int]@[i]));
        let j = choose|j: usize| #[trigger] vis.contains(j) && (j as int) < keys.len() && keys[j as int] == w;
        assert(reached_key(t, root, marked, keys[j as int]));
        if w != root {
            let q = choose|q: int| 0 <= q < t.len() && #[trigger] t[q].1 == w;
            assert(reached_before(t, t.len() as int, w));
        }
    }
}

/// One more expansion, of the node `x.1` taken first from the frontier
/// `h`, recorded.
proof fn lemma_pfs_record_push<K, E>(
    keys: Seq<K>,
    rank: Seq<usize>,
    root: K,
    t0: Seq<(K, K, E)>,
    t1: Seq<(K, K, E)>,
    exp: Seq<usize>,
    st: Seq<int>,
    en: Seq<int>,
    grp: Seq<int>,
    h: Multiset<(usize, usize)>,
    x: (usize, usize),
    min: bool,
)
    requires
        keys.len() <= usize::MAX,
        rank.len() == keys.len(),
        pfs_record(keys, rank, root, t0, exp, st, en, grp, min),
        extends(t1, t0),
        forall|q: int| t0.len() <= q < t1.len() ==> #[trigger] t1[q].0 == keys[x.1 as int],
        h.count(x) > 0,
        forall|y: (usize, usize)| #[trigger] h.count(y) > 0 ==> takes_first(x, y, min),
        forall|y: (usize, usize)| #[trigger] h.count(y) > 0 ==> (y.1 as int) < keys.len() && y.0 == rank[y.1 as int],
        forall|v: int| 0 <= v < keys.len() && reached_by(t0, root, t0.len() as int, #[trigger] keys[v]) && !exp.contains(v as usize)
            ==> pending_heap(h, v as usize),
    ensures
        pfs_record(
            keys,
            rank,
            root,
            t1,
            exp.push(x.1),
            st.push(t0.len() as int),
            en.push(t1.len() as int),
            grp + Seq::new((t1.len() - t0.len()) as nat, |i: int| exp.len() as int),
            min,
        ),
{
    let exp1 = exp.push(x.1);
    let st1 = st.push(t0.len() as int);
    let en1 = en.push(t1.len() as int);
    let grp1 = grp + Seq::new((t1.len() - t0.len()) as nat, |i: int| exp.len() as int);
    assert forall|i: int| #![trigger grp1[i]] 0 <= i < t1.len() implies 0 <= grp1[i] < exp1.len() && st1[grp1[i]] <= i < en1[grp1[i]]
        && t1[i].0 == keys[exp1[grp1[i]] as int] by {
        if i < t0.len() {
            assert(grp1[i] == grp[i]);
            assert(t1[i] == t0[i]);
        } else {
            assert(grp1[i] == exp.len());
        }
    }
    assert forall|m: int, v: int| #![trigger st1[m], keys[v]]
        0 <= m < exp1.len() && 0 <= v < keys.len() && reached_by(t1, root, st1[m], keys[v]) && !exp1.take(m).contains(v as usize)
        implies takes_first((rank[exp1[m] as int], exp1[m]), (rank[v], v as usize), min) by {
        lemma_reached_by_prefix(t1, t0, root, st1[m], keys[v]);
        if m < exp.len() {
            assert(exp1.take(m) =~= exp.take(m));
            assert(st1[m] == st[m]);
            assert(exp1[m] == exp[m]);
            assert(reached_by(t0, root, st[m], keys[v]));
            assert(takes_first((rank[exp[m] as int], exp[m]), (rank[v], v as usize), min));
        } else {
            assert(exp1.take(m) =~= exp);
            assert(exp1[m] == x.1);
            assert(st1[m] == t0.len());
            assert(reached_by(t0, root, t0.len() as int, keys[v]));
            assert(!exp.contains(v as usize));
            assert(pending_heap(h, v as usize));
            let y = choose|y: (usize, usize)| #[trigger] h.count(y) > 0 && y.1 == v as usize;
            assert(takes_first(x, y, min));
            assert(x.0 == rank[x.1 as int]);
            assert(y.0 == rank[v]);
        }
    }
    assert forall|m1: int, m2: int| 0 <= m1 < m2 < exp1.len() implies #[trigger] en1[m1] <= #[trigger] st1[m2] by {
        if m2 < exp.len() {
            assert(en[m1] <= st[m2]);
        } else {
            assert(st[m1] <= en[m1] <= t0.len());
        }
    }
}

/// The record of a priority search, with every expansion but the last
/// complete, gives the order of its tree.
proof fn lemma_pfs_ordered<K, E, F: Fn(K, K, E) -> bool>(
    keys: Seq<K>,
    adj: Seq<Vec<(K, E)>>,
    rank: Seq<usize>,
    f: F,
    root: K,
    t: Seq<(K, K, E)>,
    exp: Seq<usize>,
    st: Seq<int>,
    en: Seq<int>,
    grp: Seq<int>,
    min: bool,
)
    requires
        keys.len() <= usize::MAX,
        keys.no_duplicates(),
        rank.len() == keys.len(),
        pfs_record(keys, rank, root, t, exp, st, en, grp, min),
        forall|m: int| 0 <= m < exp.len() - 1 ==> #[trigger] expanded_by(keys, adj, f, t, root, exp[m] as int, en[m]),
    ensures
        priority_ordered(keys, adj, rank, f, root, t, min),
{
    assert forall|a: int, u: int, v: int|
        #![trigger t[a], keys[u], keys[v]]
        0 <= a < t.len() && 0 <= u < keys.len() && 0 <= v < keys.len() && keys[u] == t[a].0 && first_from(t, a) && reached_by(
            t,
            root,
            a,
            keys[v],
        ) && ranks_before(rank, v, u, min) implies expanded_by(keys, adj, f, t, root, v, a) by {
        let m = grp[a];
        let s0 = st[m];
        if s0 < a {
            let m2 = grp[s0];
            if m2 < m {
                assert(en[m2] <= st[m]);
            } else if m2 > m {
                assert(en[m] <= st[m2]);
            }
            assert(t[s0].0 == t[a].0);
        }
        assert(s0 == a);
        assert(exp[m] as int == u);
        if !exp.take(m).contains(v as usize) {
            assert(takes_first((rank[exp[m] as int], exp[m]), (rank[v], v as usize), min));
        }
        let m1 = choose|m1: int| 0 <= m1 < exp.take(m).len() && exp.take(m)[m1] == v as usize;
        assert(exp[m1] == v as usize);
        assert(exp[m1] as int == v);
        assert(en[m1] <= st[m]);
        assert(expanded_by(keys, adj, f, t, root, exp[m1] as int, en[m1]));
        lemma_expanded_grow(keys, adj, f, t, t, root, v, en[m1], a);
    }
}

/// What a search records of its expansions: the `m`-th expanded node
/// `exp[m]` added edges `st[m]` up to `en[m]` of `t`, all leaving it, and
/// edge `i` was added by expansion `grp[i]`.
pub open spec fn expansion_record<K, E>(keys: Seq<K>, t: Seq<(K, K, E)>, exp: Seq<usize>, st: Seq<int>, en: Seq<int>, grp: Seq<int>) -> bool {
    &&& exp.len() == st.len() && st.len() == en.len() && grp.len() == t.len()
    &&& forall|m: int| 0 <= m < exp.len() ==> 0 <= #[trigger] st[m] <= en[m] <= t.len() && (exp[m] as int) < keys.len()
    &&& forall|m1: int, m2: int| 0 <= m1 < m2 < exp.len() ==> #[trigger] en[m1] <= #[trigger] st[m2]
    &&& forall|i: int| #![trigger grp[i]] 0 <= i < t.len() ==> 0 <= grp[i] < exp.len() && st[grp[i]] <= i < en[grp[i]] && t[i].0 == keys[exp[grp[i]] as int]
}

/// Every node whose first run of edges in `t` (from `a` up to `b`, where
/// an edge from another node follows) was expanded there in full: each of
/// its edges that leads to a node of the snapshot, and that `f` does not
/// refuse, ends at a node reached by `b`.
pub open spec fn groups_complete<K, E, F: Fn(K, K, E) -> bool>(keys: Seq<K>, adj: Seq<Vec<(K, E)>>, f: F, root: K, t: Seq<(K, K, E)>) -> bool {
    forall|a: int, b: int, u: int|
        #![trigger t[a], t[b], keys[u]]
        0 <= a < b < t.len() && 0 <= u < keys.len() && keys[u] == t[a].0 && first_from(t, a) && t[b].0 != t[a].0 && (forall|q: int|
            a <= q < b ==> #[trigger] t[q].0 == t[a].0) ==> expanded_by(keys, adj, f, t, root, u, b)
}

/// The tree `t` of a depth-first search from `root` that expands, each
/// time, the node reached last among those not expanded yet: when a node
/// `u` is expanded (where its first edge in `t` stands), every node reached
/// after `u` has been expanded already.
pub open spec fn stack_ordered<K, E, F: Fn(K, K, E) -> bool>(keys: Seq<K>, adj: Seq<Vec<(K, E)>>, f: F, root: K, t: Seq<(K, K, E)>) -> bool {
    forall|a: int, iv: int, u: int, v: int|
        #![trigger t[a], t[iv], keys[u], keys[v]]
        0 <= iv < a < t.len() && 0 <= u < keys.len() && 0 <= v < keys.len() && keys[u] == t[a].0 && first_from(t, a) && keys[v]
            == t[iv].1 && ((keys[u] == root && !reached_before(t, a, root)) || reached_before(t, iv, keys[u])) ==> expanded_by(
            keys,
            adj,
            f,
            t,
            root,
            v,
            a,
        )
}

/// The record of a search, with every expansion but the last complete,
/// shows its runs of edges complete.
proof fn lemma_groups_complete<K, E, F: Fn(K, K, E) -> bool>(
    keys: Seq<K>,
    adj: Seq<Vec<(K, E)>>,
    f: F,
    root: K,
    t: Seq<(K, K, E)>,
    exp: Seq<usize>,
    st: Seq<int>,
    en: Seq<int>,
    grp: Seq<int>,
)
    requires
        keys.len() <= usize::MAX,
        keys.no_duplicates(),
        expansion_record(keys, t, exp, st, en, grp),
        forall|m: int| 0 <= m < exp.len() - 1 ==> #[trigger] expanded_by(keys, adj, f, t, root, exp[m] as int, en[m]),
    ensures
        groups_complete(keys, adj, f, root, t),
{
    assert forall|a: int, b: int, u: int|
        #![trigger t[a], t[b], keys[u]]
        0 <= a < b < t.len() && 0 <= u < keys.len() && keys[u] == t[a].0 && first_from(t, a) && t[b].0 != t[a].0 && (forall|q: int|
            a <= q < b ==> #[trigger] t[q].0 == t[a].0) implies expanded_by(keys, adj, f, t, root, u, b) by {
        let m = grp[a];
        assert(t[a].0 == keys[exp[m] as int]);
        assert(exp[m] as int == u);
        if b < en[m] {
            assert(st[m] <= a);
            assert(grp[b] == m) by {
                let m2 = grp[b];
                if m2 < m {
                    assert(en[m2] <= st[m]);
                } else if m2 > m {
                    assert(en[m] <= st[m2]);
                }
            }
        }
        assert(en[m] <= b);
        let m2 = grp[b];
        if m2 <= m {
            if m2 < m {
                assert(en[m2] <= st[m]);
            }
        }
        assert(m < m2);
        assert(st[m] <= en[m] <= t.len());
        lemma_expanded_grow(keys, adj, f, t, t, root, u, en[m], b);
    }
}

/// One more expansion, of node `u`, recorded.
proof fn lemma_record_push<K, E>(
    keys: Seq<K>,
    t0: Seq<(K, K, E)>,
    t1: Seq<(K, K, E)>,
    exp: Seq<usize>,
    st: Seq<int>,
    en: Seq<int>,
    grp: Seq<int>,
    u: usize,
)
    requires
        expansion_record(keys, t0, exp, st, en, grp),
        extends(t1, t0),
        (u as int) < keys.len(),
        forall|q: int| t0.len() <= q < t1.len() ==> #[trigger] t1[q].0 == keys[u as int],
    ensures
        expansion_record(
            keys,
            t1,
            exp.push(u),
            st.push(t0.len() as int),
            en.push(t1.len() as int),
            grp + Seq::new((t1.len() - t0.len()) as nat, |i: int| exp.len() as int),
        ),
{
    let exp1 = exp.push(u);
    let st1 = st.push(t0.len() as int);
    let en1 = en.push(t1.len() as int);
    let grp1 = grp + Seq::new((t1.len() - t0.len()) as nat, |i: int| exp.len() as int);
    assert forall|i: int| #![trigger grp1[i]] 0 <= i < t1.len() implies 0 <= grp1[i] < exp1.len() && st1[grp1[i]] <= i < en1[grp1[i]]
        && t1[i].0 == keys[exp1[grp1[i]] as int] by {
        if i < t0.len() {
            assert(grp1[i] == grp[i]);
            assert(t1[i] == t0[i]);
        } else {
            assert(grp1[i] == exp.len());
        }
    }
    assert forall|m1: int, m2: int| 0 <= m1 < m2 < exp1.len() implies #[trigger] en1[m1] <= #[trigger] st1[m2] by {
        if m2 < exp.len() {
            assert(en[m1] <= st[m2]);
        } else {
            assert(st[m1] <= en[m1] <= t0.len());
        }
    }
}

/// The record of a last-in first-out search gives the order of its tree:
/// `expos[m]` is the edge that reached the `m`-th expanded node (`-1` for
/// the root as it stood at the start), and whatever was reached after it
/// had been expanded before it.
proof fn lemma_stack_ordered<K, E, F: Fn(K, K, E) -> bool>(
    keys: Seq<K>,
    adj: Seq<Vec<(K, E)>>,
    f: F,
    root: K,
    t: Seq<(K, K, E)>,
    exp: Seq<usize>,
    expos: Seq<int>,
    st: Seq<int>,
    en: Seq<int>,
    grp: Seq<int>,
)
    requires
        keys.len() <= usize::MAX,
        keys.no_duplicates(),
        distinct_targets(t),
        expansion_record(keys, t, exp, st, en, grp),
        expos.len() == exp.len(),
        forall|m: int| #![trigger expos[m]] 0 <= m < exp.len() ==> (expos[m] == -1 ==> keys[exp[m] as int] == root) && (expos[m] != -1
            ==> 0 <= expos[m] < st[m] && t[expos[m]].1 == keys[exp[m] as int]),
        forall|m: int, iv: int| 0 <= m < exp.len() && expos[m] < iv < #[trigger] st[m] ==> #[trigger] expos.take(m).contains(iv),
        forall|m: int| 0 <= m < exp.len() - 1 ==> #[trigger] expanded_by(keys, adj, f, t, root, exp[m] as int, en[m]),
    ensures
        stack_ordered(keys, adj, f, root, t),
{
    assert forall|a: int, iv: int, u: int, v: int|
        #![trigger t[a], t[iv], keys[u], keys[v]]
        0 <= iv < a < t.len() && 0 <= u < keys.len() && 0 <= v < keys.len() && keys[u] == t[a].0 && first_from(t, a) && keys[v]
            == t[iv].1 && ((keys[u] == root && !reached_before(t, a, root)) || reached_before(t, iv, keys[u])) implies expanded_by(
            keys,
            adj,
            f,
            t,
            root,
            v,
            a,
        ) by {
        let m = grp[a];
        let s0 = st[m];
        if s0 < a {
            let m2 = grp[s0];
            if m2 < m {
                assert(en[m2] <= st[m]);
            } else if m2 > m {
                assert(en[m] <= st[m2]);
            }
            assert(t[s0].0 == t[a].0);
        }
        assert(s0 == a);
        assert(exp[m] as int == u);
        let iu = expos[m];
        if iu != -1 {
            assert(t[iu].1 == keys[u]);
            if keys[u] == root && !reached_before(t, a, root) {
                assert(t[iu].1 == root);
            } else {
                let q = choose|q: int| #![trigger t[q]] 0 <= q < iv && q < t.len() && t[q].1 == keys[u];
                assert(q == iu);
            }
        }
        assert(expos[m] < iv < st[m]);
        assert(expos.take(m).contains(iv));
        let m1 = choose|m1: int| 0 <= m1 < expos.take(m).len() && expos.take(m)[m1] == iv;
        assert(expos[m1] == iv);
        assert(keys[exp[m1] as int] == keys[v]);
        assert(exp[m1] as int == v);
        assert(en[m1] <= st[m]);
        assert(expanded_by(keys, adj, f, t, root, exp[m1] as int, en[m1]));
        assert(st[m1] <= en[m1] <= t.len());
        lemma_expanded_grow(keys, adj, f, t, t, root, v, en[m1], a);
    }
}

/// The state a last-in first-out search keeps of its expansions: the
/// record of them (all complete, or all but the last), `expos[m]` the edge
/// that reached the `m`-th expanded node (`-1` for the root as it stood at
/// the start) with everything reached after it expanded before it, and
/// `fpos[p]` the edge that reached the `p`-th waiting node, increasing along
/// the stack, every reach not expanded yet waiting on it.
#[verifier::opaque]
pub open spec fn dfs_state<K, E, F: Fn(K, K, E) -> bool>(
    keys: Seq<K>,
    adj: Seq<Vec<(K, E)>>,
    f: F,
    rk: K,
    root: usize,
    t: Seq<(K, K, E)>,
    stack: Seq<usize>,
    exp: Seq<usize>,
    expos: Seq<int>,
    st: Seq<int>,
    en: Seq<int>,
    grp: Seq<int>,
    fpos: Seq<int>,
    complete: bool,
) -> bool {
    &&& expansion_record(keys, t, exp, st, en, grp)
    &&& forall|m: int| 0 <= m < exp.len() && (complete || m < exp.len() - 1) ==> #[trigger] expanded_by(keys, adj, f, t, rk, exp[m] as int, en[m])
    &&& expos.len() == exp.len()
    &&& forall|m: int| #![trigger expos[m]] 0 <= m < exp.len() ==> (expos[m] == -1 ==> keys[exp[m] as int] == rk) && (expos[m] != -1 ==> 0
        <= expos[m] < st[m] && t[expos[m]].1 == keys[exp[m] as int])
    &&& forall|m: int, iv: int| 0 <= m < exp.len() && expos[m] < iv < #[trigger] st[m] ==> #[trigger] expos.take(m).contains(iv)
    &&& fpos.len() == stack.len()
    &&& forall|p: int, q: int| 0 <= p < q < fpos.len() ==> #[trigger] fpos[p] < #[trigger] fpos[q]
    &&& forall|p: int| #![trigger fpos[p]] 0 <= p < fpos.len() ==> (fpos[p] == -1 ==> stack[p] == root) && (fpos[p] != -1 ==> 0 <= fpos[p]
        < t.len() && t[fpos[p]].1 == keys[stack[p] as int])
    &&& forall|iv: int| -1 <= iv < t.len() && !#[trigger] expos.contains(iv) ==> exists|p: int| 0 <= p < fpos.len() && #[trigger] fpos[p] == iv
}

/// A last-in first-out search starts with its root alone on the stack.
proof fn lemma_dfs_init<K, E, F: Fn(K, K, E) -> bool>(
    keys: Seq<K>,
    adj: Seq<Vec<(K, E)>>,
    f: F,
    rk: K,
    root: usize,
    t: Seq<(K, K, E)>,
    stack: Seq<usize>,
)
    requires
        t.len() == 0,
        stack == seq![root],
    ensures
        dfs_state(keys, adj, f, rk, root, t, stack, Seq::empty(), Seq::empty(), Seq::empty(), Seq::empty(), Seq::empty(), seq![-1int], true),
{
    reveal(dfs_state);
    let fpos = seq![-1int];
    let exp: Seq<usize> = Seq::empty();
    let expos: Seq<int> = Seq::empty();
    assert(expansion_record(keys, t, exp, Seq::<int>::empty(), Seq::<int>::empty(), Seq::<int>::empty()));
    assert forall|iv: int| -1 <= iv < t.len() && !#[trigger] expos.contains(iv) implies exists|p: int| 0 <= p < fpos.len() && #[trigger] fpos[p]
        == iv by {
        assert(fpos[0] == iv);
    }
}

/// The record after popping the top node `u` of the stack and expanding
/// it from `t0` to `t1`.
proof fn lemma_dfs_pop<K, E, F: Fn(K, K, E) -> bool>(
    keys: Seq<K>,
    adj: Seq<Vec<(K, E)>>,
    f: F,
    rk: K,
    root: usize,
    t0: Seq<(K, K, E)>,
    t1: Seq<(K, K, E)>,
    fb: Seq<usize>,
    exp: Seq<usize>,
    expos: Seq<int>,
    st: Seq<int>,
    en: Seq<int>,
    grp: Seq<int>,
    fpos: Seq<int>,
    u: usize,
    exp1: Seq<usize>,
    expos1: Seq<int>,
    st1: Seq<int>,
    en1: Seq<int>,
    grp1: Seq<int>,
)
    requires
        (root as int) < keys.len(),
        keys[root as int] == rk,
        dfs_state(keys, adj, f, rk, root, t0, fb, exp, expos, st, en, grp, fpos, true),
        fb.len() > 0,
        u == fb[fb.len() - 1],
        (u as int) < keys.len(),
        extends(t1, t0),
        forall|q: int| t0.len() <= q < t1.len() ==> #[trigger] t1[q].0 == keys[u as int],
        exp1 == exp.push(u),
        expos1 == expos.push(if fpos.len() > 0 { fpos[fpos.len() - 1] } else { -1 }),
        st1 == st.push(t0.len() as int),
        en1 == en.push(t1.len() as int),
        grp1 == grp + Seq::new((t1.len() - t0.len()) as nat, |i: int| exp.len() as int),
    ensures
        fpos.len() == fb.len(),
        expansion_record(keys, t1, exp1, st1, en1, grp1),
        forall|m: int| 0 <= m < exp1.len() - 1 ==> #[trigger] expanded_by(keys, adj, f, t1, rk, exp1[m] as int, en1[m]),
        expos1.len() == exp1.len(),
        forall|m: int| #![trigger expos1[m]] 0 <= m < exp1.len() ==> (expos1[m] == -1 ==> keys[exp1[m] as int] == rk) && (expos1[m]
                != -1 ==> 0 <= expos1[m] < st1[m] && t1[expos1[m]].1 == keys[exp1[m] as int]),
        forall|m: int, iv: int| 0 <= m < exp1.len() && expos1[m] < iv < #[trigger] st1[m] ==> #[trigger] expos1.take(m).contains(iv),
        forall|iv: int| -1 <= iv < t0.len() && !#[trigger] expos1.contains(iv) ==> exists|p: int|
                0 <= p < fpos.len() - 1 && #[trigger] fpos[p] == iv,
{
    reveal(dfs_state);
    let fp = fpos[fpos.len() - 1];
    lemma_record_push(keys, t0, t1, exp, st, en, grp, u);
    assert forall|m: int| 0 <= m < exp1.len() - 1 implies #[trigger] expanded_by(keys, adj, f, t1, rk, exp1[m] as int, en1[m]) by {
        assert(exp1[m] == exp[m]);
        assert(en1[m] == en[m]);
        assert(st[m] <= en[m] <= t0.len());
        assert(expanded_by(keys, adj, f, t0, rk, exp[m] as int, en[m]));
        lemma_expanded_grow(keys, adj, f, t1, t0, rk, exp[m] as int, en[m], en[m]);
    }
    assert forall|m: int| #![trigger expos1[m]] 0 <= m < exp1.len() implies (expos1[m] == -1 ==> keys[exp1[m] as int] == rk) && (expos1[m] != -1
        ==> 0 <= expos1[m] < st1[m] && t1[expos1[m]].1 == keys[exp1[m] as int]) by {
        if m < exp.len() {
            assert(expos1[m] == expos[m]);
            assert(exp1[m] == exp[m]);
            assert(st1[m] == st[m]);
            assert(st[m] <= en[m] <= t0.len());
            if expos[m] != -1 {
                assert(t1[expos[m]] == t0[expos[m]]);
            }
        } else {
            assert(expos1[m] == fp);
            assert(exp1[m] == u);
            if fp != -1 {
                assert(t1[fp] == t0[fp]);
            }
        }
    }
    assert forall|m: int, iv: int| 0 <= m < exp1.len() && expos1[m] < iv < #[trigger] st1[m] implies #[trigger] expos1.take(m).contains(iv) by {
        if m < exp.len() {
            assert(expos1.take(m) =~= expos.take(m));
            assert(expos1[m] == expos[m]);
            assert(st1[m] == st[m]);
        } else {
            assert(expos1.take(m) =~= expos);
            assert(expos1[m] == fp);
            if !expos.contains(iv) {
                let p = choose|p: int| 0 <= p < fpos.len() && #[trigger] fpos[p] == iv;
                if p < fpos.len() - 1 {
                    assert(fpos[p] < fpos[fpos.len() - 1]);
                }
            }
        }
    }
    assert forall|iv: int| -1 <= iv < t0.len() && !#[trigger] expos1.contains(iv) implies exists|p: int| 0 <= p < fpos.len() - 1 && #[trigger] fpos[p]
        == iv by {
        assert(!expos.contains(iv)) by {
            if expos.contains(iv) {
                let k = choose|k: int| 0 <= k < expos.len() && expos[k] == iv;
                assert(expos1[k] == iv);
            }
        }
        assert(expos1[exp.len() as int] == fp);
        let p = choose|p: int| 0 <= p < fpos.len() && #[trigger] fpos[p] == iv;
        assert(p != fpos.len() - 1);
    }
}

/// A last-in first-out search that reaches its target while expanding the
/// top node `u` leaves a tree in stack order with complete runs.
proof fn lemma_dfs_hit<K, E, F: Fn(K, K, E) -> bool>(
    keys: Seq<K>,
    adj: Seq<Vec<(K, E)>>,
    f: F,
    rk: K,
    root: usize,
    t0: Seq<(K, K, E)>,
    t1: Seq<(K, K, E)>,
    fb: Seq<usize>,
    exp: Seq<usize>,
    expos: Seq<int>,
    st: Seq<int>,
    en: Seq<int>,
    grp: Seq<int>,
    fpos: Seq<int>,
    u: usize,
)
    requires
        keys.len() <= usize::MAX,
        keys.no_duplicates(),
        (root as int) < keys.len(),
        keys[root as int] == rk,
        dfs_state(keys, adj, f, rk, root, t0, fb, exp, expos, st, en, grp, fpos, true),
        fb.len() > 0,
        u == fb[fb.len() - 1],
        (u as int) < keys.len(),
        extends(t1, t0),
        forall|q: int| t0.len() <= q < t1.len() ==> #[trigger] t1[q].0 == keys[u as int],
        distinct_targets(t1),
    ensures
        stack_ordered(keys, adj, f, rk, t1),
        groups_complete(keys, adj, f, rk, t1),
{
    let fp = if fpos.len() > 0 { fpos[fpos.len() - 1] } else { -1 };
    let exp1 = exp.push(u);
    let expos1 = expos.push(fp);
    let st1 = st.push(t0.len() as int);
    let en1 = en.push(t1.len() as int);
    let grp1 = grp + Seq::new((t1.len() - t0.len()) as nat, |i: int| exp.len() as int);
    lemma_dfs_pop(keys, adj, f, rk, root, t0, t1, fb, exp, expos, st, en, grp, fpos, u, exp1, expos1, st1, en1, grp1);
    assert forall|m: int| #![trigger expos1[m]] 0 <= m < exp1.len() implies (expos1[m] == -1 ==> keys[exp1[m] as int] == rk) && (expos1[m]
        != -1 ==> 0 <= expos1[m] < st1[m] && t1[expos1[m]].1 == keys[exp1[m] as int]) by {}
    lemma_stack_ordered(keys, adj, f, rk, t1, exp1, expos1, st1, en1, grp1);
    lemma_groups_complete(keys, adj, f, rk, t1, exp1, st1, en1, grp1);
}

/// A full expansion of the top node `u`, whose new nodes go on the stack in
/// the order they were reached, keeps the state.
proof fn lemma_dfs_step<K, E, F: Fn(K, K, E) -> bool>(
    keys: Seq<K>,
    adj: Seq<Vec<(K, E)>>,
    f: F,
    rk: K,
    root: usize,
    t0: Seq<(K, K, E)>,
    t1: Seq<(K, K, E)>,
    fb: Seq<usize>,
    stack: Seq<usize>,
    newly: Seq<usize>,
    exp: Seq<usize>,
    expos: Seq<int>,
    st: Seq<int>,
    en: Seq<int>,
    grp: Seq<int>,
    fpos: Seq<int>,
    u: usize,
)
    requires
        (root as int) < keys.len(),
        keys[root as int] == rk,
        dfs_state(keys, adj, f, rk, root, t0, fb, exp, expos, st, en, grp, fpos, true),
        fb.len() > 0,
        u == fb[fb.len() - 1],
        (u as int) < keys.len(),
        extends(t1, t0),
        forall|q: int| t0.len() <= q < t1.len() ==> #[trigger] t1[q].0 == keys[u as int],
        t1.len() == t0.len() + newly.len(),
        forall|q: int| 0 <= q < newly.len() ==> t1[t0.len() + q].1 == keys[#[trigger] newly[q] as int],
        stack == fb.drop_last() + newly,
        expanded_by(keys, adj, f, t1, rk, u as int, t1.len() as int),
    ensures
        dfs_state(
            keys,
            adj,
            f,
            rk,
            root,
            t1,
            stack,
            exp.push(u),
            expos.push(if fpos.len() > 0 { fpos[fpos.len() - 1] } else { -1 }),
            st.push(t0.len() as int),
            en.push(t1.len() as int),
            grp + Seq::new((t1.len() - t0.len()) as nat, |i: int| exp.len() as int),
            fpos.drop_last() + Seq::new(newly.len(), |q: int| t0.len() + q),
            true,
        ),
{
    let fp = if fpos.len() > 0 { fpos[fpos.len() - 1] } else { -1 };
    let exp1 = exp.push(u);
    let expos1 = expos.push(fp);
    let st1 = st.push(t0.len() as int);
    let en1 = en.push(t1.len() as int);
    let grp1 = grp + Seq::new((t1.len() - t0.len()) as nat, |i: int| exp.len() as int);
    lemma_dfs_pop(keys, adj, f, rk, root, t0, t1, fb, exp, expos, st, en, grp, fpos, u, exp1, expos1, st1, en1, grp1);
    reveal(dfs_state);
    assert(fpos.len() == fb.len());
    let fv = fb.drop_last();
    let fpos1 = fpos.drop_last() + Seq::new(newly.len(), |q: int| t0.len() + q);
    assert forall|m: int| 0 <= m < exp1.len() implies #[trigger] expanded_by(keys, adj, f, t1, rk, exp1[m] as int, en1[m]) by {
        if m == exp.len() {
            assert(exp1[m] == u);
            assert(en1[m] == t1.len());
        }
    }
    assert forall|p: int, q: int| 0 <= p < q < fpos1.len() implies #[trigger] fpos1[p] < #[trigger] fpos1[q] by {
        if q < fv.len() {
            assert(fpos1[p] == fpos[p]);
            assert(fpos1[q] == fpos[q]);
        } else if p < fv.len() {
            assert(fpos1[p] == fpos[p]);
            assert(fpos[p] == -1 || fpos[p] < t0.len());
        }
    }
    assert forall|p: int| #![trigger fpos1[p]] 0 <= p < fpos1.len() implies (fpos1[p] == -1 ==> stack[p] == root) && (fpos1[p] != -1 ==> 0
        <= fpos1[p] < t1.len() && t1[fpos1[p]].1 == keys[stack[p] as int]) by {
        if p < fv.len() {
            assert(fpos1[p] == fpos[p]);
            assert(stack[p] == fb[p]);
            if fpos[p] != -1 {
                assert(t1[fpos[p]] == t0[fpos[p]]);
            }
        } else {
            let q = p - fv.len();
            assert(fpos1[p] == t0.len() + q);
            assert(stack[p] == newly[q]);
            assert(t1[t0.len() + q].1 == keys[newly[q] as int]);
        }
    }
    assert forall|iv: int| -1 <= iv < t1.len() && !#[trigger] expos1.contains(iv) implies exists|p: int| 0 <= p < fpos1.len() && #[trigger] fpos1[p]
        == iv by {
        if iv < t0.len() {
            assert(!expos1.contains(iv));
            let p = choose|p: int| 0 <= p < fpos.len() - 1 && #[trigger] fpos[p] == iv;
            assert(fpos1[p] == fpos.drop_last()[p]);
            assert(fpos1[p] == iv);
        } else {
            let q = iv - t0.len();
            assert(fpos1[fv.len() + q] == iv);
        }
    }
}

/// A last-in first-out search that ends with an empty stack leaves a tree in
/// stack order with complete runs.
proof fn lemma_dfs_finish<K, E, F: Fn(K, K, E) -> bool>(
    keys: Seq<K>,
    adj: Seq<Vec<(K, E)>>,
    f: F,
    rk: K,
    root: usize,
    t: Seq<(K, K, E)>,
    stack: Seq<usize>,
    exp: Seq<usize>,
    expos: Seq<int>,
    st: Seq<int>,
    en: Seq<int>,
    grp: Seq<int>,
    fpos: Seq<int>,
)
    requires
        keys.len() <= usize::MAX,
        keys.no_duplicates(),
        distinct_targets(t),
        dfs_state(keys, adj, f, rk, root, t, stack, exp, expos, st, en, grp, fpos, true),
    ensures
        stack_ordered(keys, adj, f, rk, t),
        groups_complete(keys, adj, f, rk, t),
{
    reveal(dfs_state);
    lemma_stack_ordered(keys, adj, f, rk, t, exp, expos, st, en, grp);
    lemma_groups_complete(keys, adj, f, rk, t, exp, st, en, grp);
}

/// The chain `t` of a first-edge depth-first search from `root` ends at a
/// node with no edge left to follow first.
pub open spec fn ends_stuck<K, E, F: Fn(K, K, E) -> bool>(
    keys: Seq<K>,
    adj: Seq<Vec<(K, E)>>,
    f: F,
    t: Seq<(K, K, E)>,
    root: K,
    marked: bool,
) -> bool {
    exists|u: usize|
        (u as int) < keys.len() && keys[u as int] == end_key(t, root) && #[trigger] stuck_at(keys, f, t, root, marked, keys[u as int], adj[u as int]@)
}

/// As `stuck_at`, with the visited set standing for what was reached.
pub open spec fn first_stuck<K, E, F: Fn(K, K, E) -> bool>(keys: Seq<K>, f: F, vis: Set<usize>, uk: K, list: Seq<(K, E)>) -> bool {
    exists|m: int|
        0 <= m <= list.len() && (forall|q: int| 0 <= q < m ==> !keys.contains(#[trigger] list[q].0) || key_visited(keys, vis, list[q].0))
            && (m < list.len() ==> keys.contains(list[m].0) && !key_visited(keys, vis, list[m].0) && call_ensures(
            f,
            (uk, list[m].0, list[m].1),
            false,
        ))
}

/// The edge `(uk, v, e)` is the first of `list` that leads to a node of
/// the snapshot not visited yet, and `f` accepts it.
pub open spec fn first_taken<K, E, F: Fn(K, K, E) -> bool>(keys: Seq<K>, f: F, vis: Set<usize>, uk: K, list: Seq<(K, E)>, v: K, e: E) -> bool {
    &&& keys.contains(v)
    &&& !key_visited(keys, vis, v)
    &&& accepts(f, uk, v, e)
    &&& exists|m: int|
        0 <= m < list.len() && list[m] == (v, e) && forall|q: int| 0 <= q < m ==> !keys.contains(#[trigger] list[q].0) || key_visited(keys, vis, list[q].0)
}

/// The edge `(uk, v, e)` is the first of `list` that leads to a node of
/// the snapshot not reached by `t` yet, and `f` accepts it.
pub open spec fn first_reached<K, E, F: Fn(K, K, E) -> bool>(
    keys: Seq<K>,
    f: F,
    t: Seq<(K, K, E)>,
    root: K,
    marked: bool,
    uk: K,
    list: Seq<(K, E)>,
    v: K,
    e: E,
) -> bool {
    &&& keys.contains(v)
    &&& !reached_key(t, root, marked, v)
    &&& accepts(f, uk, v, e)
    &&& exists|m: int|
        0 <= m < list.len() && list[m] == (v, e) && forall|q: int| 0 <= q < m ==> !keys.contains(#[trigger] list[q].0) || reached_key(
            t,
            root,
            marked,
            list[q].0,
        )
}

/// Each edge of the chain `t` is the first edge of its source, in list
/// order, that leads to a node of the snapshot not reached by the edges
/// before it, and `f` accepts it.
pub open spec fn first_edges<K, E, F: Fn(K, K, E) -> bool>(
    keys: Seq<K>,
    adj: Seq<Vec<(K, E)>>,
    f: F,
    t: Seq<(K, K, E)>,
    root: K,
    marked: bool,
) -> bool {
    forall|j: int| 0 <= j < t.len() ==> #[trigger] first_edge_at(keys, adj, f, t, root, marked, j)
}

/// Edge `j` of `t` is the first edge of its source, in list order, that
/// leads to a node of the snapshot not reached by the edges before it, and
/// `f` accepts it.
pub open spec fn first_edge_at<K, E, F: Fn(K, K, E) -> bool>(
    keys: Seq<K>,
    adj: Seq<Vec<(K, E)>>,
    f: F,
    t: Seq<(K, K, E)>,
    root: K,
    marked: bool,
    j: int,
) -> bool {
    exists|u: usize| (u as int) < keys.len() && keys[u as int] == t[j].0 && #[trigger] first_reached(
        keys,
        f,
        t.take(j),
        root,
        marked,
        t[j].0,
        adj[u as int]@,
        t[j].1,
        t[j].2,
    )
}

/// With distinct keys, and the visited set holding just what the tree
/// reached, `first_taken` is `first_reached`.
proof fn lemma_taken_reached<K, E, F: Fn(K, K, E) -> bool>(
    keys: Seq<K>,
    f: F,
    vis: Set<usize>,
    t: Seq<(K, K, E)>,
    root: K,
    marked: bool,
    uk: K,
    list: Seq<(K, E)>,
    v: K,
    e: E,
)
    requires
        keys.no_duplicates(),
        fresh_tree(keys, vis, t, root, marked),
        visited_reached(keys, vis, t, root, marked),
        first_taken(keys, f, vis, uk, list, v, e),
    ensures
        first_reached(keys, f, t, root, marked, uk, list, v, e),
{
    let m = choose|m: int|
        0 <= m < list.len() && list[m] == (v, e) && forall|q: int| 0 <= q < m ==> !keys.contains(#[trigger] list[q].0) || key_visited(keys, vis, list[q].0);
    assert forall|q: int| 0 <= q < m implies !keys.contains(#[trigger] list[q].0) || reached_key(t, root, marked, list[q].0) by {
        if key_visited(keys, vis, list[q].0) {
            let w = choose|w: usize| #[trigger] vis.contains(w) && (w as int) < keys.len() && keys[w as int] == list[q].0;
            assert(reached_key(t, root, marked, keys[w as int]));
        }
    }
    assert(!reached_key(t, root, marked, v)) by {
        if marked && v == root {
            assert(key_visited(keys, vis, root));
        } else if exists|j: int| 0 <= j < t.len() && #[trigger] t[j].1 == v {
            let j = choose|j: int| 0 <= j < t.len() && #[trigger] t[j].1 == v;
            assert(key_visited(keys, vis, t[j].1));
        }
    }
}

/// One more step of a first-edge depth-first search keeps its chain
/// made of first edges.
proof fn lemma_first_edges_step<K, E, F: Fn(K, K, E) -> bool>(
    keys: Seq<K>,
    adj: Seq<Vec<(K, E)>>,
    f: F,
    t0: Seq<(K, K, E)>,
    t1: Seq<(K, K, E)>,
    v0: Set<usize>,
    root: K,
    marked: bool,
    u: usize,
)
    requires
        keys.no_duplicates(),
        (u as int) < keys.len(),
        first_edges(keys, adj, f, t0, root, marked),
        extends(t1, t0),
        t1.len() > t0.len() ==> t1.len() == t0.len() + 1 && first_taken(keys, f, v0, keys[u as int], adj[u as int]@, t1[t1.len() - 1].1, t1[t1.len() - 1].2),
        forall|q: int| t0.len() <= q < t1.len() ==> #[trigger] t1[q].0 == keys[u as int],
        fresh_tree(keys, v0, t0, root, marked),
        visited_reached(keys, v0, t0, root, marked),
    ensures
        first_edges(keys, adj, f, t1, root, marked),
{
    assert forall|j: int| 0 <= j < t1.len() implies #[trigger] first_edge_at(keys, adj, f, t1, root, marked, j) by {
        if j < t0.len() {
            assert(t1.take(j) =~= t0.take(j));
            assert(t1[j] == t0[j]);
            assert(first_edge_at(keys, adj, f, t0, root, marked, j));
            let w = choose|w: usize| (w as int) < keys.len() && keys[w as int] == t0[j].0 && #[trigger] first_reached(
                keys,
                f,
                t0.take(j),
                root,
                marked,
                t0[j].0,
                adj[w as int]@,
                t0[j].1,
                t0[j].2,
            );
            assert(first_reached(keys, f, t1.take(j), root, marked, t1[j].0, adj[w as int]@, t1[j].1, t1[j].2));
        } else {
            assert(t1.take(j) =~= t0);
            lemma_taken_reached(keys, f, v0, t0, root, marked, keys[u as int], adj[u as int]@, t1[j].1, t1[j].2);
            assert(first_reached(keys, f, t1.take(j), root, marked, t1[j].0, adj[u as int]@, t1[j].1, t1[j].2));
        }
    }
}

/// Every visited node was reached: it is the marked root or the end of an
/// edge of `t`.
pub open spec fn visited_reached<K, E>(keys: Seq<K>, vis: Set<usize>, t: Seq<(K, K, E)>, root: K, marked: bool) -> bool {
    forall|w: usize| #[trigger] vis.contains(w) ==> (w as int) < keys.len() && reached_key(t, root, marked, keys[w as int])
}

/// With distinct keys, and the visited set holding just what the tree
/// reached, `first_stuck` is `stuck_at`.
proof fn lemma_stuck_reached<K, E, F: Fn(K, K, E) -> bool>(
    keys: Seq<K>,
    f: F,
    vis: Set<usize>,
    t: Seq<(K, K, E)>,
    root: K,
    marked: bool,
    uk: K,
    list: Seq<(K, E)>,
)
    requires
        keys.no_duplicates(),
        fresh_tree(keys, vis, t, root, marked),
        visited_reached(keys, vis, t, root, marked),
        first_stuck(keys, f, vis, uk, list),
    ensures
        stuck_at(keys, f, t, root, marked, uk, list),
{
    let m = choose|m: int|
        0 <= m <= list.len() && (forall|q: int| 0 <= q < m ==> !keys.contains(#[trigger] list[q].0) || key_visited(keys, vis, list[q].0))
            && (m < list.len() ==> keys.contains(list[m].0) && !key_visited(keys, vis, list[m].0) && call_ensures(
            f,
            (uk, list[m].0, list[m].1),
            false,
        ));
    assert forall|q: int| 0 <= q < m implies !keys.contains(#[trigger] list[q].0) || reached_key(t, root, marked, list[q].0) by {
        if key_visited(keys, vis, list[q].0) {
            let w = choose|w: usize| #[trigger] vis.contains(w) && (w as int) < keys.len() && keys[w as int] == list[q].0;
            assert(reached_key(t, root, marked, keys[w as int]));
        }
    }
    if m < list.len() {
        let x = list[m].0;
        assert(!reached_key(t, root, marked, x)) by {
            if marked && x == root {
                assert(key_visited(keys, vis, root));
            } else if exists|j: int| 0 <= j < t.len() && #[trigger] t[j].1 == x {
                let j = choose|j: int| 0 <= j < t.len() && #[trigger] t[j].1 == x;
                assert(key_visited(keys, vis, t[j].1));
            }
        }
    }
}

/// With distinct keys, an edge to a node not yet visited, which is then
/// visited, keeps a tree fresh.
proof fn lemma_fresh_push<K, E>(
    keys: Seq<K>,
    vis0: Set<usize>,
    vis1: Set<usize>,
    t: Seq<(K, K, E)>,
    root: K,
    marked: bool,
    x: (K, K, E),
    j: usize,
)
    requires
        keys.no_duplicates(),
        fresh_tree(keys, vis0, t, root, marked),
        !vis0.contains(j),
        (j as int) < keys.len(),
        keys[j as int] == x.1,
        vis1 == vis0.insert(j),
    ensures
        fresh_tree(keys, vis1, t.push(x), root, marked),
{
    let t2 = t.push(x);
    assert forall|q: int| #![trigger t2[q]] 0 <= q < t2.len() implies key_visited(keys, vis1, t2[q].1) by {
        if q < t.len() {
            assert(t2[q] == t[q]);
            let w = choose|w: usize| #[trigger] vis0.contains(w) && (w as int) < keys.len() && keys[w as int] == t[q].1;
            assert(vis1.contains(w));
        } else {
            assert(vis1.contains(j));
        }
    }
    assert forall|a: int, b: int| #![trigger t2[a], t2[b]] 0 <= a < b < t2.len() implies t2[a].1 != t2[b].1 by {
        assert(t2[a] == t[a]);
        if b < t.len() {
            assert(t2[b] == t[b]);
        } else if t[a].1 == x.1 {
            let w = choose|w: usize| #[trigger] vis0.contains(w) && (w as int) < keys.len() && keys[w as int] == t[a].1;
            assert(w == j);
        }
    }
    if marked {
        let w = choose|w: usize| #[trigger] vis0.contains(w) && (w as int) < keys.len() && keys[w as int] == root;
        assert(vis1.contains(w));
        assert(x.1 != root) by {
            if x.1 == root {
                assert(w == j);
            }
        }
        assert forall|q: int| #![trigger t2[q]] 0 <= q < t2.len() implies t2[q].1 != root by {
            if q < t.len() {
                assert(t2[q] == t[q]);
            }
        }
    }
}

/// A tree stays a tree when the snapshot is kept and it grows by one edge
/// from a node it reached.
pub(crate) proof fn lemma_tree_push<K, E, F: Fn(K, K, E) -> bool>(
    keys: Seq<K>,
    adj: Seq<Vec<(K, E)>>,
    root: K,
    f: F,
    t: Seq<(K, K, E)>,
    x: (K, K, E),
)
    requires
        is_tree(keys, adj, root, f, t),
        is_step(keys, adj, x.0, x.1, x.2),
        accepts(f, x.0, x.1, x.2),
        x.0 == root || reached_before(t, t.len() as int, x.0),
    ensures
        is_tree(keys, adj, root, f, t.push(x)),
        extends(t.push(x), t),
        reached_before(t.push(x), t.len() + 1int, x.1),
{
    let t2 = t.push(x);
    assert forall|j: int| #![trigger t2[j]] 0 <= j < t2.len() implies (t2[j].0 == root || reached_before(t2, j, t2[j].0)) by {
        if j < t.len() {
            assert(t2[j] == t[j]);
            if t[j].0 != root {
                let q = choose|q: int| #![trigger t[q]] 0 <= q < j && q < t.len() && t[q].1 == t[j].0;
                assert(t2[q] == t[q]);
            }
        } else {
            if x.0 != root {
                let q = choose|q: int| #![trigger t[q]] 0 <= q < t.len() && q < t.len() && t[q].1 == x.0;
                assert(t2[q] == t[q]);
            }
        }
    }
    assert(t2[t.len() as int] == x);
}

/// Two trees grown from the same root, one after the other, form a tree
/// from that root.
pub proof fn lemma_rooted_append<K, E>(a: Seq<(K, K, E)>, b: Seq<(K, K, E)>, root: K)
    requires
        rooted(a, root),
        rooted(b, root),
    ensures
        rooted(a + b, root),
{
    let c = a + b;
    assert forall|j: int| #![trigger c[j]] 0 <= j < c.len() implies (c[j].0 == root || reached_before(c, j, c[j].0)) by {
        if j < a.len() {
            assert(c[j] == a[j]);
            if a[j].0 != root {
                let q = choose|q: int| #![trigger a[q]] 0 <= q < j && q < a.len() && a[q].1 == a[j].0;
                assert(c[q] == a[q]);
            }
        } else {
            let jb = j - a.len();
            assert(c[j] == b[jb]);
            if b[jb].0 != root {
                let q = choose|q: int| #![trigger b[q]] 0 <= q < jb && q < b.len() && b[q].1 == b[jb].0;
                assert(c[q + a.len()] == b[q]);
            }
        }
    }
}

pub(crate) proof fn lemma_extends_trans<A>(c: Seq<A>, b: Seq<A>, a: Seq<A>)
    requires
        extends(c, b),
        extends(b, a),
    ensures
        extends(c, a),
{
    assert forall|i: int| #![trigger a[i]] 0 <= i < a.len() implies c[i] == a[i] by {
        assert(b[i] == a[i]);
    }
}

/// What `reached_before` says survives an extension.
pub(crate) proof fn lemma_reached_extends<K, E>(new: Seq<(K, K, E)>, old: Seq<(K, K, E)>, k: K)
    requires
        extends(new, old),
        reached_before(old, old.len() as int, k),
    ensures
        reached_before(new, new.len() as int, k),
{
    let q = choose|q: int| #![trigger old[q]] 0 <= q < old.len() && q < old.len() && old[q].1 == k;
    assert(new[q] == old[q]);
}

/// Position of the first occurrence of `k` in `keys`.
pub fn index_of_key<K: Copy + PartialEq>(keys: &Vec<K>, k: &K) -> (r: Option<usize>)
    requires
        keys_compare::<K>(),
    ensures
        match r {
            Some(i) => i < keys@.len() && keys@[i as int] == *k && forall|j: int| 0 <= j < i ==> keys@[j] != *k,
            None => !keys@.contains(*k),
        },
{
    let mut i: usize = 0;
    while i < keys.len()
        invariant
            keys_compare::<K>(),
            i <= keys@.len(),
            forall|j: int| 0 <= j < i ==> keys@[j] != *k,
        decreases keys@.len() - i,
    {
        if key_eq(&keys[i], k) {
            return Some(i);
        }
        i = i + 1;
    }
    None
}

/// The frontier element `u` is a node the search has reached: the root or
/// the end of a tree edge.
pub open spec fn reached_node<K, E>(keys: Seq<K>, root: K, t: Seq<(K, K, E)>, u: usize) -> bool {
    u < keys.len() && (keys[u as int] == root || reached_before(t, t.len() as int, keys[u as int]))
}

/// Bound on the visited set: it holds node indices only.
pub open spec fn visited_ok(v: Set<usize>, n: nat) -> bool {
    v.finite() && forall|i: usize| #[trigger] v.contains(i) ==> i < n
}

pub(crate) proof fn lemma_visited_len(v: Set<usize>, n: usize)
    requires
        visited_ok(v, n as nat),
    ensures
        v.len() <= n,
{
    let r = Set::<usize>::new(|i: usize| 0 <= i < n);
    <usize as vstd::set_lib::FiniteRange>::range_properties(0, n);
    assert(v.subset_of(r));
    vstd::set_lib::lemma_len_subset(v, r);
}

/// Some visited node has key `k`.
pub open spec fn key_visited<K>(keys: Seq<K>, vis: Set<usize>, k: K) -> bool {
    exists|j: usize| #[trigger] vis.contains(j) && (j as int) < keys.len() && keys[j as int] == k
}

/// The edge `x` leaving the node with key `uk` is dealt with: it does not
/// lead to a node of the snapshot, or it leads to a visited one, or `f`
/// refused it.
pub open spec fn edge_done<K, E, F: Fn(K, K, E) -> bool>(keys: Seq<K>, f: F, vis: Set<usize>, uk: K, x: (K, E)) -> bool {
    !keys.contains(x.0) || key_visited(keys, vis, x.0) || call_ensures(f, (uk, x.0, x.1), false)
}

/// The first `upto` edges leaving node `u` are dealt with.
pub open spec fn done_upto<K, E, F: Fn(K, K, E) -> bool>(
    keys: Seq<K>,
    adj: Seq<Vec<(K, E)>>,
    f: F,
    vis: Set<usize>,
    u: usize,
    upto: int,
) -> bool {
    forall|i: int| 0 <= i < upto && i < adj[u as int]@.len() ==> #[trigger] edge_done(keys, f, vis, keys[u as int], adj[u as int]@[i])
}

/// Every edge leaving node `u` is dealt with.
pub open spec fn done_with<K, E, F: Fn(K, K, E) -> bool>(keys: Seq<K>, adj: Seq<Vec<(K, E)>>, f: F, vis: Set<usize>, u: usize) -> bool {
    done_upto(keys, adj, f, vis, u, adj[u as int]@.len() as int)
}

/// Dealt-with edges stay dealt with as more nodes are visited.
pub(crate) proof fn lemma_done_grow<K, E, F: Fn(K, K, E) -> bool>(
    keys: Seq<K>,
    adj: Seq<Vec<(K, E)>>,
    f: F,
    vis: Set<usize>,
    vis2: Set<usize>,
    u: usize,
    upto: int,
)
    requires
        done_upto(keys, adj, f, vis, u, upto),
        vis.subset_of(vis2),
    ensures
        done_upto(keys, adj, f, vis2, u, upto),
{
    assert forall|i: int| 0 <= i < upto && i < adj[u as int]@.len() implies #[trigger] edge_done(keys, f, vis2, keys[u as int], adj[u as int]@[i]) by {
        let x = adj[u as int]@[i];
        assert(edge_done(keys, f, vis, keys[u as int], x));
        if key_visited(keys, vis, x.0) {
            let j = choose|j: usize| #[trigger] vis.contains(j) && (j as int) < keys.len() && keys[j as int] == x.0;
            assert(vis2.contains(j));
        }
    }
}

/// Node `w` waits in the frontier at or after position `head`.
pub open spec fn pending_in(fr: Seq<usize>, head: int, w: usize) -> bool {
    exists|q: int| head <= q < fr.len() && #[trigger] fr[q] == w
}

/// The target is not a visited node, unless it is the root and the root
/// was marked from the start.
pub open spec fn target_unvisited<K>(keys: Seq<K>, vis: Set<usize>, target: Option<K>, mark_root: bool, rk: K) -> bool {
    target matches Some(tk) ==> (!key_visited(keys, vis, tk) || (mark_root && rk == tk))
}

/// A search that stops without reaching its target has dealt with every
/// edge leaving the root and every visited node, and has not visited the
/// target.
pub open spec fn closed_search<K, E, F: Fn(K, K, E) -> bool>(
    keys: Seq<K>,
    adj: Seq<Vec<(K, E)>>,
    f: F,
    root: usize,
    target: Option<K>,
    mark_root: bool,
    vis: Set<usize>,
) -> bool {
    &&& done_with(keys, adj, f, vis, root)
    &&& forall|w: usize| #[trigger] vis.contains(w) ==> done_with(keys, adj, f, vis, w)
    &&& target_unvisited(keys, vis, target, mark_root, keys[root as int])
}

/// After a frontier node is expanded and the new nodes are queued, every
/// visited node and the root is dealt with or waits in the frontier.
pub(crate) proof fn lemma_after_expand<K, E, F: Fn(K, K, E) -> bool>(
    keys: Seq<K>,
    adj: Seq<Vec<(K, E)>>,
    f: F,
    vis: Set<usize>,
    vis2: Set<usize>,
    before: Seq<usize>,
    h0: int,
    after: Seq<usize>,
    head: int,
    u: usize,
    newly: Seq<usize>,
    root: usize,
    depth: bool,
)
    requires
        forall|w: usize| #[trigger] vis.contains(w) ==> done_with(keys, adj, f, vis, w) || pending_in(before, h0, w),
        done_with(keys, adj, f, vis, root) || pending_in(before, h0, root),
        vis.subset_of(vis2),
        forall|k: usize| #[trigger] vis2.contains(k) ==> vis.contains(k) || newly.contains(k),
        done_with(keys, adj, f, vis2, u),
        0 <= h0 < before.len(),
        depth ==> h0 == 0 && head == 0 && u == before[before.len() - 1] && after == before.drop_last() + newly,
        !depth ==> head == h0 + 1 && u == before[h0] && after == before + newly,
    ensures
        forall|w: usize| #[trigger] vis2.contains(w) ==> done_with(keys, adj, f, vis2, w) || pending_in(after, head, w),
        done_with(keys, adj, f, vis2, root) || pending_in(after, head, root),
{
    assert forall|w: usize| done_with(keys, adj, f, vis, w) || pending_in(before, h0, w) implies done_with(keys, adj, f, vis2, w)
        || pending_in(after, head, w) by {
        if w == u {
        } else if done_with(keys, adj, f, vis, w) {
            lemma_done_grow(keys, adj, f, vis, vis2, w, adj[w as int]@.len() as int);
        } else {
            let q = choose|q: int| h0 <= q < before.len() && #[trigger] before[q] == w;
            if depth {
                assert(q < before.len() - 1);
                assert(after[q] == before[q]);
            } else {
                assert(q > h0);
                assert(after[q] == before[q]);
            }
        }
    }
    assert forall|w: usize| #[trigger] vis2.contains(w) implies done_with(keys, adj, f, vis2, w) || pending_in(after, head, w) by {
        if vis.contains(w) {
        } else {
            assert(newly.contains(w));
            let q = choose|q: int| 0 <= q < newly.len() && newly[q] == w;
            let off = if depth { before.len() - 1 } else { before.len() as int };
            assert(after[off + q] == newly[q]);
        }
    }
}

/// Node `w` waits in a priority frontier.
pub open spec fn pending_heap(h: Multiset<(usize, usize)>, w: usize) -> bool {
    exists|x: (usize, usize)| #[trigger] h.count(x) > 0 && x.1 == w
}

/// After the least (or greatest) pair of a priority frontier is expanded
/// and the new nodes are pushed, every visited node and the root is dealt
/// with or waits in the frontier.
proof fn lemma_after_expand_heap<K, E, F: Fn(K, K, E) -> bool>(
    keys: Seq<K>,
    adj: Seq<Vec<(K, E)>>,
    f: F,
    vis: Set<usize>,
    vis2: Set<usize>,
    h0: Multiset<(usize, usize)>,
    x: (usize, usize),
    h2: Multiset<(usize, usize)>,
    newly: Seq<usize>,
    root: usize,
)
    requires
        forall|w: usize| #[trigger] vis.contains(w) ==> done_with(keys, adj, f, vis, w) || pending_heap(h0, w),
        done_with(keys, adj, f, vis, root) || pending_heap(h0, root),
        h0.count(x) > 0,
        forall|y: (usize, usize)| #[trigger] h0.remove(x).count(y) > 0 ==> h2.count(y) > 0,
        forall|i: int| 0 <= i < newly.len() ==> pending_heap(h2, #[trigger] newly[i]),
        vis.subset_of(vis2),
        forall|k: usize| #[trigger] vis2.contains(k) ==> vis.contains(k) || newly.contains(k),
        done_with(keys, adj, f, vis2, x.1),
    ensures
        forall|w: usize| #[trigger] vis2.contains(w) ==> done_with(keys, adj, f, vis2, w) || pending_heap(h2, w),
        done_with(keys, adj, f, vis2, root) || pending_heap(h2, root),
{
    let h1 = h0.remove(x);
    assert forall|w: usize| done_with(keys, adj, f, vis, w) || pending_heap(h0, w) implies done_with(keys, adj, f, vis2, w)
        || pending_heap(h2, w) by {
        if w == x.1 {
        } else if done_with(keys, adj, f, vis, w) {
            lemma_done_grow(keys, adj, f, vis, vis2, w, adj[w as int]@.len() as int);
        } else {
            let y = choose|y: (usize, usize)| #[trigger] h0.count(y) > 0 && y.1 == w;
            assert(h1.count(y) == h0.count(y));
            assert(h2.count(y) > 0);
        }
    }
    assert forall|w: usize| #[trigger] vis2.contains(w) implies done_with(keys, adj, f, vis2, w) || pending_heap(h2, w) by {
        if !vis.contains(w) {
            let q = choose|q: int| 0 <= q < newly.len() && newly[q] == w;
            assert(pending_heap(h2, newly[q]));
        }
    }
}

/// The filter `f` may refuse some edge of `p`.
pub open spec fn blocked<K, E, F: Fn(K, K, E) -> bool>(f: F, p: Seq<(K, K, E)>) -> bool {
    exists|j: int| #![trigger p[j]] 0 <= j < p.len() && call_ensures(f, (p[j].0, p[j].1, p[j].2), false)
}

/// Some node with key `k` has all its edges dealt with.
pub open spec fn done_key<K, E, F: Fn(K, K, E) -> bool>(keys: Seq<K>, adj: Seq<Vec<(K, E)>>, f: F, vis: Set<usize>, k: K) -> bool {
    exists|i: usize| (i as int) < keys.len() && #[trigger] keys[i as int] == k && done_with(keys, adj, f, vis, i)
}

/// Every node along a walk that starts at the root of a closed search, and
/// whose edges the filter never refuses, is a node all of whose edges are
/// dealt with.
proof fn lemma_walk_done<K, E, F: Fn(K, K, E) -> bool>(
    keys: Seq<K>,
    adj: Seq<Vec<(K, E)>>,
    f: F,
    root: usize,
    target: Option<K>,
    mark_root: bool,
    vis: Set<usize>,
    p: Seq<(K, K, E)>,
    k: int,
)
    requires
        closed_search(keys, adj, f, root, target, mark_root, vis),
        root < keys.len(),
        keys.len() == adj.len(),
        keys.no_duplicates(),
        p.len() > 0,
        p[0].0 == keys[root as int],
        chained(p),
        forall|j: int| #![trigger p[j]] 0 <= j < p.len() ==> is_step(keys, adj, p[j].0, p[j].1, p[j].2),
        forall|j: int| #![trigger p[j]] 0 <= j < p.len() ==> !call_ensures(f, (p[j].0, p[j].1, p[j].2), false),
        0 <= k < p.len(),
    ensures
        done_key(keys, adj, f, vis, p[k].0),
    decreases k,
{
    if k == 0 {
        assert(keys[root as int] == p[0].0);
    } else {
        lemma_walk_done(keys, adj, f, root, target, mark_root, vis, p, k - 1);
        let i = choose|i: usize| (i as int) < keys.len() && #[trigger] keys[i as int] == p[k - 1].0 && done_with(keys, adj, f, vis, i);
        let x = p[k - 1];
        assert(is_step(keys, adj, x.0, x.1, x.2));
        let i2 = choose|i2: int| #![trigger adj[i2]] 0 <= i2 < keys.len() && i2 < adj.len() && keys[i2] == x.0 && adj[i2]@.contains((x.1, x.2));
        assert(i2 == i);
        let m = choose|m: int| 0 <= m < adj[i2]@.len() && adj[i2]@[m] == (x.1, x.2);
        assert(edge_done(keys, f, vis, keys[i as int], adj[i as int]@[m]));
        let y = p[k];
        assert(x.1 == y.0);
        assert(is_step(keys, adj, y.0, y.1, y.2));
        let i3 = choose|i3: int| #![trigger adj[i3]] 0 <= i3 < keys.len() && i3 < adj.len() && keys[i3] == y.0 && adj[i3]@.contains((y.1, y.2));
        assert(keys.contains(y.0)) by {
            assert(keys[i3] == y.0);
        }
        assert(!call_ensures(f, (x.0, x.1, x.2), false));
        assert(key_visited(keys, vis, y.0));
        let j = choose|j: usize| #[trigger] vis.contains(j) && (j as int) < keys.len() && keys[j as int] == y.0;
        assert(done_with(keys, adj, f, vis, j));
        assert(keys[j as int] == p[k].0);
    }
}

/// A closed search from `root` rules out every walk from `root` to its
/// target along edges the filter never refuses: such a walk would have led
/// the search to the target. (When the root was marked from the start and
/// is itself the target, the search never looks for it.)
pub proof fn lemma_closed_search_no_walk<K, E, F: Fn(K, K, E) -> bool>(
    keys: Seq<K>,
    adj: Seq<Vec<(K, E)>>,
    f: F,
    root: usize,
    target: K,
    mark_root: bool,
    vis: Set<usize>,
    p: Seq<(K, K, E)>,
)
    requires
        closed_search(keys, adj, f, root, Some(target), mark_root, vis),
        root < keys.len(),
        keys.len() == adj.len(),
        keys.no_duplicates(),
        keys.contains(target),
        !(mark_root && keys[root as int] == target),
    ensures
        is_walk(keys, adj, p, keys[root as int], target) ==> blocked(f, p),
{
    if !is_walk(keys, adj, p, keys[root as int], target) || blocked(f, p) {
        return;
    }
    let k = p.len() - 1;
    lemma_walk_done(keys, adj, f, root, Some(target), mark_root, vis, p, k);
    let i = choose|i: usize| (i as int) < keys.len() && #[trigger] keys[i as int] == p[k].0 && done_with(keys, adj, f, vis, i);
    let x = p[k];
    assert(is_step(keys, adj, x.0, x.1, x.2));
    let i2 = choose|i2: int| #![trigger adj[i2]] 0 <= i2 < keys.len() && i2 < adj.len() && keys[i2] == x.0 && adj[i2]@.contains((x.1, x.2));
    assert(i2 == i);
    let m = choose|m: int| 0 <= m < adj[i2]@.len() && adj[i2]@[m] == (x.1, x.2);
    assert(edge_done(keys, f, vis, keys[i as int], adj[i as int]@[m]));
    assert(x.1 == target);
    assert(key_visited(keys, vis, target));
}

/// A closed search from `root` has visited the end of every walk from
/// `root` along edges the filter never refuses, when that end is a node of
/// the snapshot.
pub proof fn lemma_closed_search_visits<K, E, F: Fn(K, K, E) -> bool>(
    keys: Seq<K>,
    adj: Seq<Vec<(K, E)>>,
    f: F,
    root: usize,
    target: Option<K>,
    mark_root: bool,
    vis: Set<usize>,
    p: Seq<(K, K, E)>,
    x: K,
)
    requires
        closed_search(keys, adj, f, root, target, mark_root, vis),
        root < keys.len(),
        keys.len() == adj.len(),
        keys.no_duplicates(),
        is_walk(keys, adj, p, keys[root as int], x),
        !blocked(f, p),
        keys.contains(x),
    ensures
        key_visited(keys, vis, x),
{
    let k = p.len() - 1;
    lemma_walk_done(keys, adj, f, root, target, mark_root, vis, p, k);
    let i = choose|i: usize| (i as int) < keys.len() && #[trigger] keys[i as int] == p[k].0 && done_with(keys, adj, f, vis, i);
    let y = p[k];
    assert(is_step(keys, adj, y.0, y.1, y.2));
    let i2 = choose|i2: int| #![trigger adj[i2]] 0 <= i2 < keys.len() && i2 < adj.len() && keys[i2] == y.0 && adj[i2]@.contains((y.1, y.2));
    assert(i2 == i);
    let m = choose|m: int| 0 <= m < adj[i2]@.len() && adj[i2]@[m] == (y.1, y.2);
    assert(edge_done(keys, f, vis, keys[i as int], adj[i as int]@[m]));
    assert(!call_ensures(f, (y.0, y.1, y.2), false));
    assert(y.1 == x);
}

/// Each edge leaving the root (node `r`) leads out of the snapshot, or `f`
/// refused it, or it leads to a reached node at depth at most 1.
pub open spec fn root_edges_near<K, E, F: Fn(K, K, E) -> bool>(
    keys: Seq<K>,
    adj: Seq<Vec<(K, E)>>,
    f: F,
    t: Seq<(K, K, E)>,
    vis: Set<usize>,
    r: usize,
) -> bool {
    forall|k: int| #![trigger adj[r as int]@[k]] 0 <= k < adj[r as int]@.len() ==> !keys.contains(adj[r as int]@[k].0) || call_ensures(
        f,
        (keys[r as int], adj[r as int]@[k].0, adj[r as int]@[k].1),
        false,
    ) || (key_visited(keys, vis, adj[r as int]@[k].0) && depth(t, adj[r as int]@[k].0) <= 1)
}

/// In a breadth-first run about to expand the node at the head of the
/// queue, at depth `du`, a walk of at most `du` edges `f` never refuses
/// from the root reaches, in `m + 1` edges, a reached node no deeper than
/// `m + 1`.
proof fn lemma_bfs_prefix<K, E, F: Fn(K, K, E) -> bool>(
    keys: Seq<K>,
    adj: Seq<Vec<(K, E)>>,
    f: F,
    t: Seq<(K, K, E)>,
    vs: Set<usize>,
    fb: Seq<usize>,
    h0: int,
    cur: nat,
    du: nat,
    r: usize,
    q: Seq<(K, K, E)>,
    x: K,
    m: int,
)
    requires
        keys.no_duplicates(),
        keys.len() == adj.len(),
        (r as int) < keys.len(),
        bfs_levels(keys, adj, f, t, vs, fb, h0, cur),
        0 < h0 < fb.len(),
        du == depth(t, keys[fb[h0] as int]),
        root_edges_near(keys, adj, f, t, vs, r),
        is_walk(keys, adj, q, keys[r as int], x),
        keys.contains(x),
        !blocked(f, q),
        q.len() <= du,
        0 <= m < q.len(),
    ensures
        key_visited(keys, vs, q[m].1),
        depth(t, q[m].1) <= m + 1,
    decreases m,
{
    assert(is_step(keys, adj, q[m].0, q[m].1, q[m].2));
    assert(keys.contains(q[m].1)) by {
        if m + 1 < q.len() {
            assert(q[m].1 == q[m + 1].0);
            assert(is_step(keys, adj, q[m + 1].0, q[m + 1].1, q[m + 1].2));
        }
    }
    assert(!call_ensures(f, (q[m].0, q[m].1, q[m].2), false));
    let i = choose|i: int| #![trigger adj[i]] 0 <= i < keys.len() && i < adj.len() && keys[i] == q[m].0 && adj[i]@.contains((q[m].1, q[m].2));
    let k = choose|k: int| 0 <= k < adj[i]@.len() && adj[i]@[k] == (q[m].1, q[m].2);
    if m == 0 {
        assert(i == r);
        assert(adj[r as int]@[k] == (q[m].1, q[m].2));
    } else {
        lemma_bfs_prefix(keys, adj, f, t, vs, fb, h0, cur, du, r, q, x, m - 1);
        assert(q[m - 1].1 == q[m].0);
        let w = choose|w: usize| #[trigger] vs.contains(w) && (w as int) < keys.len() && keys[w as int] == q[m].0;
        assert(i == w);
        assert(!pending_in(fb, h0, w)) by {
            if pending_in(fb, h0, w) {
                let p = choose|p: int| h0 <= p < fb.len() && #[trigger] fb[p] == w;
                assert(depth(t, keys[fb[h0] as int]) <= depth(t, keys[fb[p] as int]));
            }
        }
        assert(bounded_edges(keys, adj, f, t, vs, w));
        assert(edge_bounded(keys, f, t, vs, keys[w as int], adj[w as int]@[k]));
    }
}

/// Explores the edges that leave node `u`: each edge accepted by `f` whose
/// end is a node not yet visited adds that node to the visited set, the
/// edge to the tree and the node to the returned list of new nodes. Stops
/// at once when the end is `target` (result `true`). With `first_only`,
/// only the first edge to a node not yet visited is considered.
fn expand<K: Copy + PartialEq, E: Copy, F: Fn(K, K, E) -> bool>(
    keys: &Vec<K>,
    adj: &Vec<Vec<(K, E)>>,
    u: usize,
    target: Option<K>,
    f: &F,
    first_only: bool,
    visited: &mut AHashSet<usize>,
    tree: &mut Vec<(K, K, E)>,
    Ghost(root): Ghost<K>,
    Ghost(marked): Ghost<bool>,
    Ghost(track): Ghost<bool>,
    Ghost(du): Ghost<nat>,
) -> (r: (bool, Vec<usize>))
    requires
        keys_compare::<K>(),
        keys@.len() == adj@.len(),
        forall|a: K, b: K, c: E| f.requires((a, b, c)),
        is_tree(keys@, adj@, root, *f, old(tree)@),
        reached_node(keys@, root, old(tree)@, u),
        visited_ok(visited_indices(*old(visited)), keys@.len()),
        keys@.no_duplicates() ==> fresh_tree(keys@, visited_indices(*old(visited)), old(tree)@, root, marked),
        track && keys@.no_duplicates() && !first_only ==> {
            &&& depth(old(tree)@, keys@[u as int]) == du
            &&& depths_sorted(old(tree)@)
            &&& forall|w: usize| #[trigger] visited_indices(*old(visited)).contains(w) ==> depth(old(tree)@, keys@[w as int]) <= du + 1
            &&& (visited_indices(*old(visited)).contains(u) || forall|e: E| !adj@[u as int]@.contains((keys@[u as int], e)))
        },
    ensures
        track && keys@.no_duplicates() && !first_only ==> {
            &&& depth(final(tree)@, keys@[u as int]) == du
            &&& depths_sorted(final(tree)@)
            &&& forall|w: usize| #[trigger] visited_indices(*final(visited)).contains(w) ==> depth(final(tree)@, keys@[w as int]) <= du + 1
            &&& forall|w: usize| #[trigger] visited_indices(*old(visited)).contains(w) ==> depth(final(tree)@, keys@[w as int]) == depth(
                old(tree)@,
                keys@[w as int],
            )
            &&& forall|q: int| 0 <= q < r.1@.len() ==> depth(final(tree)@, keys@[#[trigger] r.1@[q] as int]) == du + 1
            &&& !r.0 ==> bounded_edges(keys@, adj@, *f, final(tree)@, visited_indices(*final(visited)), u)
            &&& r.0 ==> depth(final(tree)@, final(tree)@[final(tree)@.len() - 1].1) == du + 1
            &&& forall|q: int| 0 <= q < r.1@.len() ==> visited_indices(*final(visited)).contains(#[trigger] r.1@[q])
        },
        r.0 && keys@.no_duplicates() ==> !key_visited(keys@, visited_indices(*old(visited)), final(tree)@[final(tree)@.len() - 1].1),
        keys@.no_duplicates() ==> fresh_tree(keys@, visited_indices(*final(visited)), final(tree)@, root, marked),
        is_tree(keys@, adj@, root, *f, final(tree)@),
        extends(final(tree)@, old(tree)@),
        visited_ok(visited_indices(*final(visited)), keys@.len()),
        visited_indices(*old(visited)).subset_of(visited_indices(*final(visited))),
        !r.0 ==> visited_indices(*final(visited)).len() == visited_indices(*old(visited)).len() + r.1@.len(),
        forall|i: int| 0 <= i < r.1@.len() ==> #[trigger] reached_node(keys@, root, final(tree)@, r.1@[i]),
        forall|q: int| old(tree)@.len() <= q < final(tree)@.len() ==> #[trigger] final(tree)@[q].0 == keys@[u as int],
        !r.0 ==> forall|q: int| 0 <= q < r.1@.len() ==> final(tree)@[old(tree)@.len() + q].1 == keys@[#[trigger] r.1@[q] as int],
        !r.0 ==> final(tree)@.len() == old(tree)@.len() + r.1@.len(),
        first_only ==> r.1@.len() <= 1,
        r.0 ==> target is Some && final(tree)@.len() > 0 && final(tree)@[final(tree)@.len() - 1].1 == target->0,
        !r.0 && !first_only ==> done_with(keys@, adj@, *f, visited_indices(*final(visited)), u),
        !r.0 ==> forall|k: usize| #[trigger] visited_indices(*final(visited)).contains(k) ==> visited_indices(*old(visited)).contains(k)
            || r.1@.contains(k),
        !r.0 ==> forall|k: usize| #[trigger] visited_indices(*final(visited)).contains(k) && !visited_indices(*old(visited)).contains(k)
            ==> (target matches Some(tk) ==> keys@[k as int] != tk),
        visited_reached(keys@, visited_indices(*old(visited)), old(tree)@, root, marked) ==> visited_reached(
            keys@,
            visited_indices(*final(visited)),
            final(tree)@,
            root,
            marked,
        ),
        first_only && !r.0 && r.1@.len() == 0 ==> final(tree)@ == old(tree)@ && visited_indices(*final(visited)) == visited_indices(
            *old(visited),
        ),
        first_only && !r.0 && r.1@.len() == 1 ==> final(tree)@.len() == old(tree)@.len() + 1 && final(tree)@[final(tree)@.len()
            - 1].1 == keys@[r.1@[0] as int],
        keys@.no_duplicates() && first_only && final(tree)@.len() > old(tree)@.len() ==> final(tree)@.len() == old(tree)@.len() + 1
            && first_taken(
            keys@,
            *f,
            visited_indices(*old(visited)),
            keys@[u as int],
            adj@[u as int]@,
            final(tree)@[final(tree)@.len() - 1].1,
            final(tree)@[final(tree)@.len() - 1].2,
        ),
        keys@.no_duplicates() && first_only && !r.0 && r.1@.len() == 0 ==> first_stuck(
            keys@,
            *f,
            visited_indices(*final(visited)),
            keys@[u as int],
            adj@[u as int]@,
        ),
{
    let ghost t0 = tree@;
    let mut newly: Vec<usize> = Vec::new();
    let ukey = keys[u];
    let list = &adj[u];
    let mut i: usize = 0;
    while i < list.len()
        invariant
            keys_compare::<K>(),
            keys@.len() == adj@.len(),
            u < keys@.len(),
            ukey == keys@[u as int],
            list@ == adj@[u as int]@,
            i <= list@.len(),
            forall|a: K, b: K, c: E| f.requires((a, b, c)),
            is_tree(keys@, adj@, root, *f, tree@),
            extends(tree@, t0),
            t0 == old(tree)@,
            ukey == root || reached_before(tree@, tree@.len() as int, ukey),
            visited_ok(visited_indices(*visited), keys@.len()),
            keys@.no_duplicates() ==> fresh_tree(keys@, visited_indices(*visited), tree@, root, marked),
            visited_indices(*old(visited)).subset_of(visited_indices(*visited)),
            visited_indices(*visited).len() == visited_indices(*old(visited)).len() + newly@.len(),
            forall|j: int| 0 <= j < newly@.len() ==> #[trigger] reached_node(keys@, root, tree@, newly@[j]),
            first_only ==> newly@.len() == 0,
            !first_only ==> done_upto(keys@, adj@, *f, visited_indices(*visited), u, i as int),
            forall|k: usize| #[trigger] visited_indices(*visited).contains(k) ==> visited_indices(*old(visited)).contains(k)
                || newly@.contains(k),
            forall|k: usize| #[trigger] visited_indices(*visited).contains(k) && !visited_indices(*old(visited)).contains(k)
                ==> (target matches Some(tk) ==> keys@[k as int] != tk),
            tree@.len() == t0.len() + newly@.len(),
            forall|q: int| t0.len() <= q < tree@.len() ==> #[trigger] tree@[q].0 == ukey,
            forall|q: int| 0 <= q < newly@.len() ==> tree@[t0.len() + q].1 == keys@[#[trigger] newly@[q] as int],
            forall|q: int| 0 <= q < newly@.len() ==> visited_indices(*visited).contains(#[trigger] newly@[q]),
            newly@.len() > 0 ==> tree@[tree@.len() - 1].1 == keys@[newly@[newly@.len() - 1] as int],
            visited_reached(keys@, visited_indices(*old(visited)), t0, root, marked) ==> visited_reached(
                keys@,
                visited_indices(*visited),
                tree@,
                root,
                marked,
            ),
            first_only ==> forall|q: int| 0 <= q < i ==> !keys@.contains(#[trigger] list@[q].0) || key_visited(
                keys@,
                visited_indices(*visited),
                list@[q].0,
            ),
            track && keys@.no_duplicates() && !first_only ==> {
                &&& depth(tree@, ukey) == du
                &&& depths_sorted(tree@)
                &&& forall|w: usize| #[trigger] visited_indices(*visited).contains(w) ==> depth(tree@, keys@[w as int]) <= du + 1
                &&& forall|w: usize| #[trigger] visited_indices(*old(visited)).contains(w) ==> depth(tree@, keys@[w as int]) == depth(
                    t0,
                    keys@[w as int],
                )
                &&& forall|q: int| 0 <= q < newly@.len() ==> depth(tree@, keys@[#[trigger] newly@[q] as int]) == du + 1
                &&& forall|k: int| 0 <= k < i ==> #[trigger] edge_bounded(keys@, *f, tree@, visited_indices(*visited), ukey, list@[k])
                &&& (visited_indices(*old(visited)).contains(u) || forall|e: E| !adj@[u as int]@.contains((keys@[u as int], e)))
            },
        decreases list@.len() - i,
    {
        let (v, e) = list[i];
        let ghost vis0 = visited_indices(*visited);
        match index_of_key(keys, &v) {
            Some(j) => {
                if !visited_contains(visited, j) {
                    let keep = f(ukey, v, e);
                    if keep {
                        let ghost t1 = tree@;
                        proof {
                            assert(adj@[u as int]@.contains((v, e))) by {
                                assert(list@[i as int] == (v, e));
                            }
                            lemma_tree_push(keys@, adj@, root, *f, t1, (ukey, v, e));
                            lemma_extends_trans(t1.push((ukey, v, e)), t1, t0);
                            assert forall|k: int| 0 <= k < newly@.len() implies #[trigger] reached_node(keys@, root, t1.push((ukey, v, e)), newly@[k]) by {
                                assert(reached_node(keys@, root, t1, newly@[k]));
                                if keys@[newly@[k] as int] != root {
                                    lemma_reached_extends(t1.push((ukey, v, e)), t1, keys@[newly@[k] as int]);
                                }
                            }
                        }
                        proof {
                            if keys@.no_duplicates() && first_only {
                                assert(vis0 =~= visited_indices(*old(visited)));
                                assert(!key_visited(keys@, vis0, v)) by {
                                    if key_visited(keys@, vis0, v) {
                                        let z = choose|z: usize| #[trigger] vis0.contains(z) && (z as int) < keys@.len() && keys@[z as int] == v;
                                        assert(z == j);
                                    }
                                }
                                assert(keys@[j as int] == v);
                                assert(list@[i as int] == (v, e));
                                assert(first_taken(keys@, *f, visited_indices(*old(visited)), ukey, list@, v, e));
                            }
                        }
                        visited_insert(visited, j);
                        tree.push((ukey, v, e));
                        proof {
                            if keys@.no_duplicates() {
                                lemma_fresh_push(keys@, vis0, visited_indices(*visited), t1, root, marked, (ukey, v, e), j);
                            }
                            if track && keys@.no_duplicates() && !first_only {
                                assert forall|q: int| 0 <= q < t1.len() implies key_visited(keys@, vis0, #[trigger] t1[q].1) by {}
                                lemma_level_push(keys@, t1, vis0, (ukey, v, e), j, du);
                                let tn = tree@;
                                assert(tn == t1.push((ukey, v, e)));
                                assert(ukey != v) by {
                                    if ukey == v {
                                        if visited_indices(*old(visited)).contains(u) {
                                            assert(vis0.contains(u));
                                            assert(u == j);
                                        } else {
                                            assert(list@[i as int] == (v, e));
                                            assert(adj@[u as int]@.contains((keys@[u as int], e)));
                                        }
                                    }
                                }
                                assert forall|w: usize| #[trigger] visited_indices(*visited).contains(w) implies depth(tn, keys@[w as int]) <= du + 1 by {
                                    if w != j {
                                        assert(vis0.contains(w));
                                        assert(keys@[w as int] != v);
                                    }
                                }
                                assert forall|w: usize| #[trigger] visited_indices(*old(visited)).contains(w) implies depth(tn, keys@[w as int]) == depth(
                                    t0,
                                    keys@[w as int],
                                ) by {
                                    assert(vis0.contains(w));
                                    assert(keys@[w as int] != v);
                                }
                                assert forall|k: int| 0 <= k < i implies #[trigger] edge_bounded(keys@, *f, tn, visited_indices(*visited), ukey, list@[k]) by {
                                    assert(edge_bounded(keys@, *f, t1, vis0, ukey, list@[k]));
                                    let x = list@[k];
                                    if keys@.contains(x.0) && !call_ensures(*f, (ukey, x.0, x.1), false) {
                                        let z = choose|z: usize| #[trigger] vis0.contains(z) && (z as int) < keys@.len() && keys@[z as int] == x.0;
                                        assert(visited_indices(*visited).contains(z));
                                        assert(keys@[z as int] != v);
                                    }
                                }
                                assert(depth(tn, tn[tn.len() - 1].1) == du + 1);
                            }
                            if visited_reached(keys@, visited_indices(*old(visited)), t0, root, marked) {
                                let t2 = tree@;
                                assert(t2 == t1.push((ukey, v, e)));
                                assert forall|w: usize| #[trigger] visited_indices(*visited).contains(w) implies (w as int) < keys@.len()
                                    && reached_key(t2, root, marked, keys@[w as int]) by {
                                    if w == j {
                                        assert(t2[t2.len() - 1].1 == keys@[w as int]);
                                    } else {
                                        assert(vis0.contains(w));
                                        assert(reached_key(t1, root, marked, keys@[w as int]));
                                        if !(marked && keys@[w as int] == root) {
                                            let q = choose|q: int| 0 <= q < t1.len() && #[trigger] t1[q].1 == keys@[w as int];
                                            assert(t2[q] == t1[q]);
                                        }
                                    }
                                }
                            }
                        }
                        proof {
                            if keys@.no_duplicates() && key_visited(keys@, visited_indices(*old(visited)), v) {
                                let z = choose|z: usize| #[trigger] visited_indices(*old(visited)).contains(z) && (z as int) < keys@.len() && keys@[z as int] == v;
                                assert(z == j);
                                assert(vis0.contains(z));
                            }
                        }
                        match target {
                            Some(tk) => {
                                if key_eq(&v, &tk) {
                                    return (true, newly);
                                }
                            },
                            None => {},
                        }
                        let ghost n0 = newly@;
                        newly.push(j);
                        proof {
                            assert forall|q: int| 0 <= q < newly@.len() implies visited_indices(*visited).contains(#[trigger] newly@[q]) by {
                                if q < n0.len() {
                                    assert(newly@[q] == n0[q]);
                                }
                            }
                            assert forall|q: int| 0 <= q < newly@.len() implies tree@[t0.len() + q].1 == keys@[#[trigger] newly@[q] as int] by {
                                if q < n0.len() {
                                    assert(newly@[q] == n0[q]);
                                }
                            }
                            if track && keys@.no_duplicates() && !first_only {
                                assert forall|q: int| 0 <= q < newly@.len() implies depth(tree@, keys@[#[trigger] newly@[q] as int]) == du + 1 by {
                                    if q < n0.len() {
                                        assert(newly@[q] == n0[q]);
                                        assert(vis0.contains(n0[q]));
                                        assert(keys@[n0[q] as int] != v);
                                    }
                                }
                            }
                            assert(visited_indices(*visited).contains(j));
                            assert(key_visited(keys@, visited_indices(*visited), v));
                            assert forall|k: usize| #[trigger] visited_indices(*visited).contains(k) implies visited_indices(*old(visited)).contains(k)
                                || newly@.contains(k) by {
                                if k == j {
                                    assert(newly@[newly@.len() - 1] == j);
                                } else if !visited_indices(*old(visited)).contains(k) {
                                    assert(vis0.contains(k));
                                    let q = choose|q: int| 0 <= q < n0.len() && n0[q] == k;
                                    assert(newly@[q] == k);
                                }
                            }
                        }
                    }
                    if first_only {
                        proof {
                            if !keep {
                                assert(newly@.len() == 0);
                                assert(tree@ =~= t0) by {
                                    assert forall|q: int| 0 <= q < t0.len() implies tree@[q] == t0[q] by {
                                        assert(t0[q] == t0[q]);
                                    }
                                }
                                assert(visited_indices(*visited) =~= visited_indices(*old(visited)));
                                assert(call_ensures(*f, (ukey, v, e), false));
                                if keys@.no_duplicates() {
                                    assert(!key_visited(keys@, visited_indices(*visited), v)) by {
                                        if key_visited(keys@, visited_indices(*visited), v) {
                                            let w = choose|w: usize| #[trigger] visited_indices(*visited).contains(w) && (w as int)
                                                < keys@.len() && keys@[w as int] == v;
                                            assert(w == j);
                                        }
                                    }
                                    assert(list@[i as int] == (v, e));
                                    assert(keys@.contains(v));
                                    let m = i as int;
                                    assert(0 <= m <= list@.len() && (forall|q: int| 0 <= q < m ==> !keys@.contains(#[trigger] list@[q].0)
                                        || key_visited(keys@, visited_indices(*visited), list@[q].0)) && (m < list@.len() ==> keys@.contains(
                                        list@[m].0,
                                    ) && !key_visited(keys@, visited_indices(*visited), list@[m].0) && call_ensures(
                                        *f,
                                        (ukey, list@[m].0, list@[m].1),
                                        false,
                                    )));
                                }
                            }
                        }
                        return (false, newly);
                    }
                } else {
                    proof {
                        assert(key_visited(keys@, visited_indices(*visited), v));
                    }
                }
            },
            None => {},
        }
        proof {
            if ukey != root {
                assert(reached_before(tree@, tree@.len() as int, ukey));
            }
            let vis1 = visited_indices(*visited);
            if track && keys@.no_duplicates() && !first_only {
                assert(list@[i as int] == (v, e));
                assert(edge_bounded(keys@, *f, tree@, vis1, ukey, (v, e))) by {
                    if keys@.contains(v) && !call_ensures(*f, (ukey, v, e), false) {
                        assert(key_visited(keys@, vis1, v));
                        let z = choose|z: usize| #[trigger] vis1.contains(z) && (z as int) < keys@.len() && keys@[z as int] == v;
                        assert(depth(tree@, keys@[z as int]) <= du + 1);
                    }
                }
                assert forall|k: int| 0 <= k < i + 1 implies #[trigger] edge_bounded(keys@, *f, tree@, vis1, ukey, list@[k]) by {
                    if k == i {
                        assert(list@[k] == (v, e));
                    }
                }
            }
            assert(list@[i as int] == (v, e));
            assert(edge_done(keys@, *f, vis1, ukey, (v, e)));
            if !first_only {
                lemma_done_grow(keys@, adj@, *f, vis0, vis1, u, i as int);
                assert forall|q: int| 0 <= q < i + 1 && q < adj@[u as int]@.len() implies #[trigger] edge_done(keys@, *f, vis1, keys@[u as int], adj@[u as int]@[q]) by {
                    if q == i {
                        assert(adj@[u as int]@[q] == (v, e));
                    }
                }
            }
        }
        proof {
            if first_only {
                assert forall|q: int| 0 <= q < i + 1 implies !keys@.contains(#[trigger] list@[q].0) || key_visited(
                    keys@,
                    visited_indices(*visited),
                    list@[q].0,
                ) by {
                    if q == i {
                        assert(list@[q] == (v, e));
                    }
                }
            }
        }
        i = i + 1;
    }
    proof {
        if track && keys@.no_duplicates() && !first_only {
            assert forall|k: int| 0 <= k < adj@[u as int]@.len() implies #[trigger] edge_bounded(keys@, *f, tree@, visited_indices(*visited), keys@[u as int], adj@[u as int]@[k]) by {
                assert(list@[k] == adj@[u as int]@[k]);
            }
        }
        if first_only {
            assert(newly@.len() == 0);
            assert(tree@ =~= t0) by {
                assert forall|q: int| 0 <= q < t0.len() implies tree@[q] == t0[q] by {
                    assert(t0[q] == t0[q]);
                }
            }
            assert(visited_indices(*visited) =~= visited_indices(*old(visited)));
            let m = list@.len() as int;
            assert(0 <= m <= list@.len() && (forall|q: int| 0 <= q < m ==> !keys@.contains(#[trigger] list@[q].0) || key_visited(
                keys@,
                visited_indices(*visited),
                list@[q].0,
            )) && (m < list@.len() ==> keys@.contains(list@[m].0) && !key_visited(keys@, visited_indices(*visited), list@[m].0)
                && call_ensures(*f, (ukey, list@[m].0, list@[m].1), false)));
        }
    }
    (false, newly)
}

/// The frames of a recursive search: each names a reached node and a
/// position in its adjacency list.
pub open spec fn frames_ok<K, E>(keys: Seq<K>, adj: Seq<Vec<(K, E)>>, root: K, t: Seq<(K, K, E)>, frames: Seq<(usize, usize)>) -> bool {
    forall|q: int| #![trigger frames[q]] 0 <= q < frames.len() ==> reached_node(keys, root, t, frames[q].0)
        && frames[q].1 <= adj[frames[q].0 as int]@.len()
}

/// Each frame's node has its edges before the frame's position dealt with.
pub open spec fn frames_done<K, E, F: Fn(K, K, E) -> bool>(
    keys: Seq<K>,
    adj: Seq<Vec<(K, E)>>,
    f: F,
    vis: Set<usize>,
    frames: Seq<(usize, usize)>,
) -> bool {
    forall|q: int| #![trigger frames[q]] 0 <= q < frames.len() ==> done_upto(keys, adj, f, vis, frames[q].0, frames[q].1 as int)
}

/// Some frame names node `w`.
pub open spec fn in_frames(frames: Seq<(usize, usize)>, w: usize) -> bool {
    exists|q: int| 0 <= q < frames.len() && #[trigger] frames[q].0 == w
}

/// Every edge, as a filter that lets a search follow it.
pub open spec fn any_edge<K, E>() -> spec_fn(K, K, E) -> bool {
    |u: K, v: K, e: E| true
}

/// No edge, as a filter that turns a search away from it.
pub open spec fn no_edge<K, E>() -> spec_fn(K, K, E) -> bool {
    |u: K, v: K, e: E| false
}

/// The edges `f` lets a search follow.
pub open spec fn accepted_by<K, E, F: Fn(K, K, E) -> bool>(f: F) -> spec_fn(K, K, E) -> bool {
    |u: K, v: K, e: E| call_ensures(f, (u, v, e), true)
}

/// The edges `f` turns a search away from.
pub open spec fn refused_by<K, E, F: Fn(K, K, E) -> bool>(f: F) -> spec_fn(K, K, E) -> bool {
    |u: K, v: K, e: E| call_ensures(f, (u, v, e), false)
}

/// The edge `x` leaving the node with key `uk` was dealt with before edge
/// `n` of `t` was taken: it leads out of the snapshot, it is refused, or it
/// leads to the root (when the root counts as reached from the start) or to
/// the end of one of the first `n` edges of `t`.
pub open spec fn settled_by<K, E>(
    keys: Seq<K>,
    refd: spec_fn(K, K, E) -> bool,
    t: Seq<(K, K, E)>,
    root: K,
    marked: bool,
    n: int,
    uk: K,
    x: (K, E),
) -> bool {
    !keys.contains(x.0) || refd(uk, x.0, x.1) || (marked && x.0 == root) || reached_before(t, n, x.0)
}

/// Every edge leaving node `w` was dealt with before edge `n` of `t`.
pub open spec fn finished_by<K, E>(
    keys: Seq<K>,
    adj: Seq<Vec<(K, E)>>,
    refd: spec_fn(K, K, E) -> bool,
    t: Seq<(K, K, E)>,
    root: K,
    marked: bool,
    n: int,
    w: int,
) -> bool {
    forall|q: int| 0 <= q < adj[w]@.len() ==> #[trigger] settled_by(keys, refd, t, root, marked, n, keys[w], adj[w]@[q])
}

/// The last edge of `s` leaves the node reached by edge `a` of `s`, or the
/// root when `a` is negative.
pub open spec fn leaves_reached<K, E>(s: Seq<(K, K, E)>, root: K, a: int) -> bool {
    if a < 0 {
        s[s.len() - 1].0 == root
    } else {
        s[a].1 == s[s.len() - 1].0
    }
}

/// The last edge of `s` is the one a recursive depth-first search takes
/// next: it leads to a node of the snapshot not reached before, along an
/// edge `acc` accepts; it is the first edge of its source's list not dealt
/// with; and its source is the node reached last among those with an edge
/// not dealt with: every node reached after the source was finished.
pub open spec fn recursive_next<K, E>(
    keys: Seq<K>,
    adj: Seq<Vec<(K, E)>>,
    acc: spec_fn(K, K, E) -> bool,
    refd: spec_fn(K, K, E) -> bool,
    root: K,
    marked: bool,
    s: Seq<(K, K, E)>,
) -> bool {
    let b = s.len() - 1;
    &&& s.len() > 0
    &&& keys.contains(s[b].1)
    &&& acc(s[b].0, s[b].1, s[b].2)
    &&& !(marked && s[b].1 == root)
    &&& !reached_before(s, b, s[b].1)
    &&& forall|u: int| #![trigger keys[u]] 0 <= u < keys.len() && keys[u] == s[b].0 ==> exists|p: int|
        #![trigger adj[u]@[p]]
        0 <= p < adj[u]@.len() && adj[u]@[p] == (s[b].1, s[b].2) && forall|q: int|
            0 <= q < p ==> #[trigger] settled_by(keys, refd, s, root, marked, b, keys[u], adj[u]@[q])
    &&& exists|a: int| #![trigger leaves_reached(s, root, a)] -1 <= a < b && leaves_reached(s, root, a) && forall|c: int, w: int|
        #![trigger s[c], keys[w]]
        a < c < b && 0 <= w < keys.len() && keys[w] == s[c].1 ==> finished_by(keys, adj, refd, s, root, marked, b, w)
}

/// `t` is the edge tree of a recursive depth-first search from `root`:
/// each of its edges is the one such a search takes next after the edges
/// before it.
#[verifier::opaque]
pub open spec fn recursive_ordered<K, E>(
    keys: Seq<K>,
    adj: Seq<Vec<(K, E)>>,
    acc: spec_fn(K, K, E) -> bool,
    refd: spec_fn(K, K, E) -> bool,
    root: K,
    marked: bool,
    t: Seq<(K, K, E)>,
) -> bool {
    forall|b: int| 1 <= b <= t.len() ==> #[trigger] recursive_next(keys, adj, acc, refd, root, marked, t.take(b))
}

/// `p` is the path a recursive depth-first search from `root` finds to
/// `target`: the path through a recursive depth-first edge tree whose last
/// edge, and no earlier one, reaches `target`.
pub open spec fn recursive_path<K, E>(
    keys: Seq<K>,
    adj: Seq<Vec<(K, E)>>,
    acc: spec_fn(K, K, E) -> bool,
    refd: spec_fn(K, K, E) -> bool,
    root: K,
    marked: bool,
    target: K,
    p: Seq<(K, K, E)>,
) -> bool {
    exists|t: Seq<(K, K, E)>|
        #![trigger recursive_ordered(keys, adj, acc, refd, root, marked, t)]
        t.len() > 0 && t[t.len() - 1].1 == target && recursive_ordered(keys, adj, acc, refd, root, marked, t) && p == backtracked(t)
}

/// A recursive depth-first tree stays one when the edges told apart as
/// accepted and refused are read through wider filters: every edge
/// accepted before is accepted, every edge to a node of the snapshot
/// refused before is refused.
pub proof fn lemma_recursive_filters<K, E>(
    keys: Seq<K>,
    adj: Seq<Vec<(K, E)>>,
    acc1: spec_fn(K, K, E) -> bool,
    refd1: spec_fn(K, K, E) -> bool,
    acc2: spec_fn(K, K, E) -> bool,
    refd2: spec_fn(K, K, E) -> bool,
    root: K,
    marked: bool,
    t: Seq<(K, K, E)>,
)
    requires
        recursive_ordered(keys, adj, acc1, refd1, root, marked, t),
        forall|u: K, v: K, e: E| #[trigger] acc1(u, v, e) ==> acc2(u, v, e),
        forall|u: K, v: K, e: E| keys.contains(v) && #[trigger] refd1(u, v, e) ==> refd2(u, v, e),
    ensures
        recursive_ordered(keys, adj, acc2, refd2, root, marked, t),
{
    reveal(recursive_ordered);
    assert forall|b: int| 1 <= b <= t.len() implies #[trigger] recursive_next(keys, adj, acc2, refd2, root, marked, t.take(b)) by {
        let s = t.take(b);
        let n = s.len() - 1;
        assert(recursive_next(keys, adj, acc1, refd1, root, marked, s));
        assert forall|u: int| #![trigger keys[u]] 0 <= u < keys.len() && keys[u] == s[n].0 implies exists|p: int|
            #![trigger adj[u]@[p]]
            0 <= p < adj[u]@.len() && adj[u]@[p] == (s[n].1, s[n].2) && forall|q: int|
                0 <= q < p ==> #[trigger] settled_by(keys, refd2, s, root, marked, n, keys[u], adj[u]@[q]) by {
            let p = choose|p: int|
                #![trigger adj[u]@[p]]
                0 <= p < adj[u]@.len() && adj[u]@[p] == (s[n].1, s[n].2) && forall|q: int|
                    0 <= q < p ==> #[trigger] settled_by(keys, refd1, s, root, marked, n, keys[u], adj[u]@[q]);
            assert forall|q: int| 0 <= q < p implies #[trigger] settled_by(keys, refd2, s, root, marked, n, keys[u], adj[u]@[q]) by {
                assert(settled_by(keys, refd1, s, root, marked, n, keys[u], adj[u]@[q]));
            }
        }
        let a = choose|a: int| #![trigger leaves_reached(s, root, a)] -1 <= a < n && leaves_reached(s, root, a) && forall|c: int, w: int|
            #![trigger s[c], keys[w]]
            a < c < n && 0 <= w < keys.len() && keys[w] == s[c].1 ==> finished_by(keys, adj, refd1, s, root, marked, n, w);
        assert forall|c: int, w: int| #![trigger s[c], keys[w]] a < c < n && 0 <= w < keys.len() && keys[w] == s[c].1 implies finished_by(
            keys,
            adj,
            refd2,
            s,
            root,
            marked,
            n,
            w,
        ) by {
            assert(finished_by(keys, adj, refd1, s, root, marked, n, w));
            assert forall|q: int| 0 <= q < adj[w]@.len() implies #[trigger] settled_by(keys, refd2, s, root, marked, n, keys[w], adj[w]@[q]) by {
                assert(settled_by(keys, refd1, s, root, marked, n, keys[w], adj[w]@[q]));
            }
        }
        assert(leaves_reached(s, root, a));
    }
}

/// A path a recursive depth-first search finds stays one under wider
/// filters, as in `lemma_recursive_filters`.
pub proof fn lemma_recursive_path_filters<K, E>(
    keys: Seq<K>,
    adj: Seq<Vec<(K, E)>>,
    acc1: spec_fn(K, K, E) -> bool,
    refd1: spec_fn(K, K, E) -> bool,
    acc2: spec_fn(K, K, E) -> bool,
    refd2: spec_fn(K, K, E) -> bool,
    root: K,
    marked: bool,
    target: K,
    p: Seq<(K, K, E)>,
)
    requires
        recursive_path(keys, adj, acc1, refd1, root, marked, target, p),
        forall|u: K, v: K, e: E| #[trigger] acc1(u, v, e) ==> acc2(u, v, e),
        forall|u: K, v: K, e: E| keys.contains(v) && #[trigger] refd1(u, v, e) ==> refd2(u, v, e),
    ensures
        recursive_path(keys, adj, acc2, refd2, root, marked, target, p),
{
    let t = choose|t: Seq<(K, K, E)>|
        #![trigger recursive_ordered(keys, adj, acc1, refd1, root, marked, t)]
        t.len() > 0 && t[t.len() - 1].1 == target && recursive_ordered(keys, adj, acc1, refd1, root, marked, t) && p == backtracked(t);
    lemma_recursive_filters(keys, adj, acc1, refd1, acc2, refd2, root, marked, t);
}

/// Two sequences that agree on their first `n` entries reach the same
/// nodes by their first `n` edges.
proof fn lemma_reached_same<K, E>(s1: Seq<(K, K, E)>, s2: Seq<(K, K, E)>, n: int, k: K)
    requires
        0 <= n <= s1.len(),
        n <= s2.len(),
        forall|i: int| 0 <= i < n ==> s1[i] == s2[i],
    ensures
        reached_before(s1, n, k) <==> reached_before(s2, n, k),
{
    if reached_before(s1, n, k) {
        let q = choose|q: int| #![trigger s1[q]] 0 <= q < n && q < s1.len() && s1[q].1 == k;
        assert(s2[q] == s1[q]);
    }
    if reached_before(s2, n, k) {
        let q = choose|q: int| #![trigger s2[q]] 0 <= q < n && q < s2.len() && s2[q].1 == k;
        assert(s1[q] == s2[q]);
    }
}

/// After the same edges, a recursive depth-first search has one next
/// edge only.
proof fn lemma_recursive_next_unique<K, E>(
    keys: Seq<K>,
    adj: Seq<Vec<(K, E)>>,
    acc: spec_fn(K, K, E) -> bool,
    refd: spec_fn(K, K, E) -> bool,
    root: K,
    marked: bool,
    s: Seq<(K, K, E)>,
    x1: (K, K, E),
    x2: (K, K, E),
)
    requires
        keys.no_duplicates(),
        keys.contains(root),
        forall|u: K, v: K, e: E| #[trigger] acc(u, v, e) ==> !refd(u, v, e),
        forall|i: int| 0 <= i < s.len() ==> keys.contains(#[trigger] s[i].1),
        recursive_next(keys, adj, acc, refd, root, marked, s.push(x1)),
        recursive_next(keys, adj, acc, refd, root, marked, s.push(x2)),
    ensures
        x1 == x2,
{
    let s1 = s.push(x1);
    let s2 = s.push(x2);
    let n = s.len() as int;
    assert(s1[n] == x1);
    assert(s2[n] == x2);
    assert forall|i: int| 0 <= i < n implies s1[i] == s2[i] by {
        assert(s1[i] == s[i]);
        assert(s2[i] == s[i]);
    }
    let a1 = choose|a: int| #![trigger leaves_reached(s1, root, a)] -1 <= a < n && leaves_reached(s1, root, a) && forall|c: int, w: int|
        #![trigger s1[c], keys[w]]
        a < c < n && 0 <= w < keys.len() && keys[w] == s1[c].1 ==> finished_by(keys, adj, refd, s1, root, marked, n, w);
    let a2 = choose|a: int| #![trigger leaves_reached(s2, root, a)] -1 <= a < n && leaves_reached(s2, root, a) && forall|c: int, w: int|
        #![trigger s2[c], keys[w]]
        a < c < n && 0 <= w < keys.len() && keys[w] == s2[c].1 ==> finished_by(keys, adj, refd, s2, root, marked, n, w);
    // The sources are nodes of the snapshot.
    assert(keys.contains(x1.0)) by {
        if a1 >= 0 {
            assert(s1[a1] == s[a1]);
        }
    }
    assert(keys.contains(x2.0)) by {
        if a2 >= 0 {
            assert(s2[a2] == s[a2]);
        }
    }
    let u1 = choose|u: int| 0 <= u < keys.len() && keys[u] == x1.0;
    let u2 = choose|u: int| 0 <= u < keys.len() && keys[u] == x2.0;
    assert(keys[u1] == s1[n].0);
    assert(keys[u2] == s2[n].0);
    let p1 = choose|p: int|
        #![trigger adj[u1]@[p]]
        0 <= p < adj[u1]@.len() && adj[u1]@[p] == (s1[n].1, s1[n].2) && forall|q: int|
            0 <= q < p ==> #[trigger] settled_by(keys, refd, s1, root, marked, n, keys[u1], adj[u1]@[q]);
    let p2 = choose|p: int|
        #![trigger adj[u2]@[p]]
        0 <= p < adj[u2]@.len() && adj[u2]@[p] == (s2[n].1, s2[n].2) && forall|q: int|
            0 <= q < p ==> #[trigger] settled_by(keys, refd, s2, root, marked, n, keys[u2], adj[u2]@[q]);
    // Neither edge was dealt with before it was taken.
    lemma_reached_same(s1, s2, n, x1.1);
    lemma_reached_same(s1, s2, n, x2.1);
    assert(acc(x1.0, x1.1, x1.2));
    assert(acc(x2.0, x2.1, x2.2));
    assert(!settled_by(keys, refd, s2, root, marked, n, keys[u1], adj[u1]@[p1]));
    assert(!settled_by(keys, refd, s1, root, marked, n, keys[u2], adj[u2]@[p2]));
    if a1 < a2 {
        assert(s1[a2] == s2[a2]);
        assert(keys[u2] == s1[a2].1);
        assert(finished_by(keys, adj, refd, s1, root, marked, n, u2));
        assert(settled_by(keys, refd, s1, root, marked, n, keys[u2], adj[u2]@[p2]));
        assert(false);
    } else if a2 < a1 {
        assert(s1[a1] == s2[a1]);
        assert(keys[u1] == s2[a1].1);
        assert(finished_by(keys, adj, refd, s2, root, marked, n, u1));
        assert(settled_by(keys, refd, s2, root, marked, n, keys[u1], adj[u1]@[p1]));
        assert(false);
    } else {
        if a1 >= 0 {
            assert(s1[a1] == s2[a1]);
        }
        assert(x1.0 == x2.0);
        assert(u1 == u2);
        if p1 < p2 {
            assert(settled_by(keys, refd, s2, root, marked, n, keys[u2], adj[u2]@[p1]));
            lemma_reached_same(s1, s2, n, adj[u1]@[p1].0);
            assert(false);
        } else if p2 < p1 {
            assert(settled_by(keys, refd, s1, root, marked, n, keys[u1], adj[u1]@[p2]));
            lemma_reached_same(s1, s2, n, adj[u2]@[p2].0);
            assert(false);
        }
    }
}

/// Two recursive depth-first trees from the same root agree on their
/// common length.
proof fn lemma_recursive_prefix_same<K, E>(
    keys: Seq<K>,
    adj: Seq<Vec<(K, E)>>,
    acc: spec_fn(K, K, E) -> bool,
    refd: spec_fn(K, K, E) -> bool,
    root: K,
    marked: bool,
    t1: Seq<(K, K, E)>,
    t2: Seq<(K, K, E)>,
    b: int,
)
    requires
        keys.no_duplicates(),
        keys.contains(root),
        forall|u: K, v: K, e: E| #[trigger] acc(u, v, e) ==> !refd(u, v, e),
        recursive_ordered(keys, adj, acc, refd, root, marked, t1),
        recursive_ordered(keys, adj, acc, refd, root, marked, t2),
        0 <= b <= t1.len(),
        b <= t2.len(),
    ensures
        t1.take(b) == t2.take(b),
    decreases b,
{
    if b > 0 {
        lemma_recursive_prefix_same(keys, adj, acc, refd, root, marked, t1, t2, b - 1);
        reveal(recursive_ordered);
        let s = t1.take(b - 1);
        assert(recursive_next(keys, adj, acc, refd, root, marked, t1.take(b)));
        assert(recursive_next(keys, adj, acc, refd, root, marked, t2.take(b)));
        assert(t1.take(b) =~= s.push(t1[b - 1]));
        assert(t2.take(b) =~= s.push(t2[b - 1]));
        assert forall|i: int| 0 <= i < s.len() implies keys.contains(#[trigger] s[i].1) by {
            assert(recursive_next(keys, adj, acc, refd, root, marked, t1.take(i + 1)));
            assert(t1.take(i + 1)[i] == s[i]);
        }
        lemma_recursive_next_unique(keys, adj, acc, refd, root, marked, s, t1[b - 1], t2[b - 1]);
        assert(t1.take(b) =~= t2.take(b));
    }
}

/// The path a recursive depth-first search finds is determined by what it
/// searches: the snapshot, the edges it may follow, the root and the
/// target. Any two such paths are the same path, so a search that reports
/// one reports the path a depth-first search, each edge list taken in
/// order, reaches the target by.
pub proof fn law_recursive_path_unique<K, E>(
    keys: Seq<K>,
    adj: Seq<Vec<(K, E)>>,
    acc: spec_fn(K, K, E) -> bool,
    refd: spec_fn(K, K, E) -> bool,
    root: K,
    marked: bool,
    target: K,
    p1: Seq<(K, K, E)>,
    p2: Seq<(K, K, E)>,
)
    requires
        keys.no_duplicates(),
        keys.contains(root),
        forall|u: K, v: K, e: E| #[trigger] acc(u, v, e) ==> !refd(u, v, e),
        recursive_path(keys, adj, acc, refd, root, marked, target, p1),
        recursive_path(keys, adj, acc, refd, root, marked, target, p2),
    ensures
        p1 == p2,
{
    let t1 = choose|t: Seq<(K, K, E)>|
        #![trigger recursive_ordered(keys, adj, acc, refd, root, marked, t)]
        t.len() > 0 && t[t.len() - 1].1 == target && recursive_ordered(keys, adj, acc, refd, root, marked, t) && p1 == backtracked(t);
    let t2 = choose|t: Seq<(K, K, E)>|
        #![trigger recursive_ordered(keys, adj, acc, refd, root, marked, t)]
        t.len() > 0 && t[t.len() - 1].1 == target && recursive_ordered(keys, adj, acc, refd, root, marked, t) && p2 == backtracked(t);
    if t1.len() <= t2.len() {
        lemma_recursive_prefix_same(keys, adj, acc, refd, root, marked, t1, t2, t1.len() as int);
        if t1.len() < t2.len() {
            let m = t2.len() - 1;
            let i = t1.len() - 1;
            assert(t1.take(t1.len() as int)[i] == t2.take(t1.len() as int)[i]);
            assert(t2[i].1 == target);
            reveal(recursive_ordered);
            assert(recursive_next(keys, adj, acc, refd, root, marked, t2.take(m + 1)));
            assert(t2.take(m + 1)[i] == t2[i]);
            assert(t2.take(m + 1)[m] == t2[m]);
            assert(reached_before(t2.take(m + 1), m, target));
            assert(false);
        }
        assert(t1 =~= t1.take(t1.len() as int));
        assert(t2 =~= t2.take(t1.len() as int));
    } else {
        lemma_recursive_prefix_same(keys, adj, acc, refd, root, marked, t1, t2, t2.len() as int);
        let m = t1.len() - 1;
        let i = t2.len() - 1;
        assert(t1.take(t2.len() as int)[i] == t2.take(t2.len() as int)[i]);
        assert(t1[i].1 == target);
        reveal(recursive_ordered);
        assert(recursive_next(keys, adj, acc, refd, root, marked, t1.take(m + 1)));
        assert(t1.take(m + 1)[i] == t1[i]);
        assert(t1.take(m + 1)[m] == t1[m]);
        assert(reached_before(t1.take(m + 1), m, target));
    }
}

/// In a recursive depth-first tree, each edge leaves the node reached last
/// among those that still have an edge not dealt with: a node reached by
/// edge `c`, with an edge not dealt with by the time edge `b` is taken,
/// was reached no later than the source of edge `b`.
pub proof fn law_recursive_leaves_latest_open<K, E>(
    keys: Seq<K>,
    adj: Seq<Vec<(K, E)>>,
    acc: spec_fn(K, K, E) -> bool,
    refd: spec_fn(K, K, E) -> bool,
    root: K,
    marked: bool,
    t: Seq<(K, K, E)>,
    b: int,
    c: int,
    w: int,
    q: int,
)
    requires
        recursive_ordered(keys, adj, acc, refd, root, marked, t),
        0 <= c < b < t.len(),
        0 <= w < keys.len(),
        keys[w] == t[c].1,
        0 <= q < adj[w]@.len(),
        !settled_by(keys, refd, t, root, marked, b, keys[w], adj[w]@[q]),
    ensures
        exists|a: int| c <= a < b && #[trigger] t[a].1 == t[b].0,
{
    reveal(recursive_ordered);
    let s = t.take(b + 1);
    assert(recursive_next(keys, adj, acc, refd, root, marked, s));
    let a = choose|a: int| #![trigger leaves_reached(s, root, a)] -1 <= a < b && leaves_reached(s, root, a) && forall|c2: int, w2: int|
        #![trigger s[c2], keys[w2]]
        a < c2 < b && 0 <= w2 < keys.len() && keys[w2] == s[c2].1 ==> finished_by(keys, adj, refd, s, root, marked, b, w2);
    lemma_reached_same(s, t, b, adj[w]@[q].0);
    if a < c {
        assert(s[c] == t[c]);
        assert(finished_by(keys, adj, refd, s, root, marked, b, w));
        assert(settled_by(keys, refd, s, root, marked, b, keys[w], adj[w]@[q]));
        assert(false);
    }
    assert(s[a] == t[a]);
    assert(s[b] == t[b]);
    assert(t[a].1 == t[b].0);
}

/// A recursive depth-first path depends on the edge lists only through
/// what they hold.
pub proof fn lemma_recursive_path_same_lists<K, E>(
    keys: Seq<K>,
    adj1: Seq<Vec<(K, E)>>,
    adj2: Seq<Vec<(K, E)>>,
    acc: spec_fn(K, K, E) -> bool,
    refd: spec_fn(K, K, E) -> bool,
    root: K,
    marked: bool,
    target: K,
    p: Seq<(K, K, E)>,
)
    requires
        forall|i: int| 0 <= i < keys.len() ==> #[trigger] adj1[i]@ == adj2[i]@,
        recursive_path(keys, adj1, acc, refd, root, marked, target, p),
    ensures
        recursive_path(keys, adj2, acc, refd, root, marked, target, p),
{
    let t = choose|t: Seq<(K, K, E)>|
        #![trigger recursive_ordered(keys, adj1, acc, refd, root, marked, t)]
        t.len() > 0 && t[t.len() - 1].1 == target && recursive_ordered(keys, adj1, acc, refd, root, marked, t) && p == backtracked(t);
    reveal(recursive_ordered);
    assert forall|b: int| 1 <= b <= t.len() implies #[trigger] recursive_next(keys, adj2, acc, refd, root, marked, t.take(b)) by {
        let s = t.take(b);
        let n = s.len() - 1;
        assert(recursive_next(keys, adj1, acc, refd, root, marked, s));
        assert forall|u: int| #![trigger keys[u]] 0 <= u < keys.len() && keys[u] == s[n].0 implies exists|p: int|
            #![trigger adj2[u]@[p]]
            0 <= p < adj2[u]@.len() && adj2[u]@[p] == (s[n].1, s[n].2) && forall|q: int|
                0 <= q < p ==> #[trigger] settled_by(keys, refd, s, root, marked, n, keys[u], adj2[u]@[q]) by {
            assert(adj1[u]@ == adj2[u]@);
            let p = choose|p: int|
                #![trigger adj1[u]@[p]]
                0 <= p < adj1[u]@.len() && adj1[u]@[p] == (s[n].1, s[n].2) && forall|q: int|
                    0 <= q < p ==> #[trigger] settled_by(keys, refd, s, root, marked, n, keys[u], adj1[u]@[q]);
            assert(adj2[u]@[p] == (s[n].1, s[n].2));
        }
        let a = choose|a: int| #![trigger leaves_reached(s, root, a)] -1 <= a < n && leaves_reached(s, root, a) && forall|c: int, w: int|
            #![trigger s[c], keys[w]]
            a < c < n && 0 <= w < keys.len() && keys[w] == s[c].1 ==> finished_by(keys, adj1, refd, s, root, marked, n, w);
        assert forall|c: int, w: int| #![trigger s[c], keys[w]] a < c < n && 0 <= w < keys.len() && keys[w] == s[c].1 implies finished_by(
            keys,
            adj2,
            refd,
            s,
            root,
            marked,
            n,
            w,
        ) by {
            assert(adj1[w]@ == adj2[w]@);
            assert(finished_by(keys, adj1, refd, s, root, marked, n, w));
        }
        assert(leaves_reached(s, root, a));
    }
    assert(recursive_ordered(keys, adj2, acc, refd, root, marked, t));
}

/// An edge that is the next one of a recursive search extends its tree.
proof fn lemma_recursive_push<K, E>(
    keys: Seq<K>,
    adj: Seq<Vec<(K, E)>>,
    acc: spec_fn(K, K, E) -> bool,
    refd: spec_fn(K, K, E) -> bool,
    root: K,
    marked: bool,
    t0: Seq<(K, K, E)>,
    x: (K, K, E),
)
    requires
        recursive_ordered(keys, adj, acc, refd, root, marked, t0),
        recursive_next(keys, adj, acc, refd, root, marked, t0.push(x)),
    ensures
        recursive_ordered(keys, adj, acc, refd, root, marked, t0.push(x)),
{
    reveal(recursive_ordered);
    let t1 = t0.push(x);
    assert forall|b: int| 1 <= b <= t1.len() implies #[trigger] recursive_next(keys, adj, acc, refd, root, marked, t1.take(b)) by {
        if b <= t0.len() {
            assert(t1.take(b) =~= t0.take(b));
            assert(recursive_next(keys, adj, acc, refd, root, marked, t0.take(b)));
        } else {
            assert(t1.take(b) =~= t1);
        }
    }
}

/// An edge dealt with before position `n0` of `t0` is dealt with before
/// any later position of any extension of `t0`.
proof fn lemma_settled_grow<K, E>(
    keys: Seq<K>,
    refd: spec_fn(K, K, E) -> bool,
    t0: Seq<(K, K, E)>,
    t1: Seq<(K, K, E)>,
    root: K,
    marked: bool,
    n0: int,
    n1: int,
    uk: K,
    x: (K, E),
)
    requires
        settled_by(keys, refd, t0, root, marked, n0, uk, x),
        extends(t1, t0),
        n0 <= n1,
    ensures
        settled_by(keys, refd, t1, root, marked, n1, uk, x),
{
    if reached_before(t0, n0, x.0) {
        let q = choose|q: int| #![trigger t0[q]] 0 <= q < n0 && q < t0.len() && t0[q].1 == x.0;
        assert(t1[q] == t0[q]);
    }
}

/// An edge dealt with against a visited set that holds only what the tree
/// reached is dealt with before the end of the tree.
proof fn lemma_done_settled<K, E, F: Fn(K, K, E) -> bool>(
    keys: Seq<K>,
    f: F,
    vis: Set<usize>,
    t: Seq<(K, K, E)>,
    root: K,
    marked: bool,
    uk: K,
    x: (K, E),
)
    requires
        edge_done(keys, f, vis, uk, x),
        visited_reached(keys, vis, t, root, marked),
    ensures
        settled_by(keys, refused_by(f), t, root, marked, t.len() as int, uk, x),
{
    if key_visited(keys, vis, x.0) {
        let w = choose|w: usize| #[trigger] vis.contains(w) && (w as int) < keys.len() && keys[w as int] == x.0;
        assert(reached_key(t, root, marked, keys[w as int]));
        if !(marked && x.0 == root) {
            let j = choose|j: int| 0 <= j < t.len() && #[trigger] t[j].1 == x.0;
            assert(t[j].1 == x.0);
        }
    }
}

/// The frame markers of a recursive search: `fpos[q]` is the tree edge
/// that reached the node of frame `q`, or -1 for the root's frame at the
/// bottom; they increase up the stack.
pub open spec fn frame_marks<K, E>(keys: Seq<K>, root: usize, t: Seq<(K, K, E)>, frames: Seq<(usize, usize)>, fpos: Seq<int>) -> bool {
    &&& fpos.len() == frames.len()
    &&& fpos.len() > 0 ==> fpos[0] == -1 && frames[0].0 == root
    &&& forall|q: int| #![trigger fpos[q]] 0 < q < fpos.len() ==> 0 <= fpos[q] < t.len() && t[fpos[q]].1 == keys[frames[q].0 as int]
    &&& forall|q1: int, q2: int| #![trigger fpos[q1], fpos[q2]] 0 <= q1 < q2 < fpos.len() ==> fpos[q1] < fpos[q2]
}

/// Every node a tree edge reached is finished or has a frame marked by
/// that edge.
pub open spec fn reached_open_marked<K, E, F: Fn(K, K, E) -> bool>(
    keys: Seq<K>,
    adj: Seq<Vec<(K, E)>>,
    f: F,
    vis: Set<usize>,
    t: Seq<(K, K, E)>,
    fpos: Seq<int>,
) -> bool {
    forall|c: int, w: int| #![trigger t[c], keys[w]] 0 <= c < t.len() && 0 <= w < keys.len() && keys[w] == t[c].1 ==> done_with(
        keys,
        adj,
        f,
        vis,
        w as usize,
    ) || fpos.contains(c)
}

/// The edge the recursive search takes from the top frame, at position
/// `pos` of node `u`'s list, to the node `j` not yet visited, is the one a
/// recursive depth-first search takes next.
proof fn lemma_recursive_next<K, E, F: Fn(K, K, E) -> bool>(
    keys: Seq<K>,
    adj: Seq<Vec<(K, E)>>,
    f: F,
    vis0: Set<usize>,
    t0: Seq<(K, K, E)>,
    frames: Seq<(usize, usize)>,
    fpos: Seq<int>,
    root: usize,
    marked: bool,
    u: usize,
    pos: usize,
    j: usize,
)
    requires
        keys.no_duplicates(),
        keys.len() == adj.len(),
        root < keys.len(),
        (u as int) < keys.len(),
        (j as int) < keys.len(),
        pos < adj[u as int]@.len(),
        adj[u as int]@[pos as int].0 == keys[j as int],
        !vis0.contains(j),
        call_ensures(f, (keys[u as int], keys[j as int], adj[u as int]@[pos as int].1), true),
        done_upto(keys, adj, f, vis0, u, pos as int),
        visited_reached(keys, vis0, t0, keys[root as int], marked),
        fresh_tree(keys, vis0, t0, keys[root as int], marked),
        frames.len() > 0,
        frames[frames.len() - 1].0 == u,
        frame_marks(keys, root, t0, frames, fpos),
        reached_open_marked(keys, adj, f, vis0, t0, fpos),
    ensures
        recursive_next(
            keys,
            adj,
            accepted_by(f),
            refused_by(f),
            keys[root as int],
            marked,
            t0.push((keys[u as int], keys[j as int], adj[u as int]@[pos as int].1)),
        ),
{
    let rk = keys[root as int];
    let v = keys[j as int];
    let e = adj[u as int]@[pos as int].1;
    let x = (keys[u as int], v, e);
    let t1 = t0.push(x);
    let b = t0.len() as int;
    let acc = accepted_by(f);
    let refd = refused_by(f);
    assert(t1[b] == x);
    assert(extends(t1, t0));
    assert(keys.contains(v)) by {
        assert(keys[j as int] == v);
    }
    if marked && v == rk {
        let w = choose|w: usize| #[trigger] vis0.contains(w) && (w as int) < keys.len() && keys[w as int] == rk;
        assert(w == j);
    }
    if reached_before(t1, b, v) {
        let q = choose|q: int| #![trigger t1[q]] 0 <= q < b && q < t1.len() && t1[q].1 == v;
        assert(t1[q] == t0[q]);
        assert(key_visited(keys, vis0, t0[q].1));
        let w = choose|w: usize| #[trigger] vis0.contains(w) && (w as int) < keys.len() && keys[w as int] == v;
        assert(w == j);
    }
    assert forall|u2: int| #![trigger keys[u2]] 0 <= u2 < keys.len() && keys[u2] == t1[b].0 implies exists|p: int|
        #![trigger adj[u2]@[p]]
        0 <= p < adj[u2]@.len() && adj[u2]@[p] == (t1[b].1, t1[b].2) && forall|q: int|
            0 <= q < p ==> #[trigger] settled_by(keys, refd, t1, rk, marked, b, keys[u2], adj[u2]@[q]) by {
        assert(u2 == u as int);
        assert forall|q: int| 0 <= q < pos implies #[trigger] settled_by(keys, refd, t1, rk, marked, b, keys[u2], adj[u2]@[q]) by {
            assert(edge_done(keys, f, vis0, keys[u as int], adj[u as int]@[q]));
            lemma_done_settled(keys, f, vis0, t0, rk, marked, keys[u as int], adj[u as int]@[q]);
            lemma_settled_grow(keys, refd, t0, t1, rk, marked, b, b, keys[u as int], adj[u as int]@[q]);
        }
        assert(adj[u2]@[pos as int] == (t1[b].1, t1[b].2));
    }
    let top = frames.len() - 1;
    let a = fpos[top];
    assert(leaves_reached(t1, rk, a)) by {
        if top == 0 {
            assert(a == -1);
        } else {
            assert(0 <= fpos[top] < t0.len());
            assert(t1[a] == t0[a]);
        }
    }
    assert(-1 <= a < b) by {
        if top > 0 {
            assert(0 <= fpos[top] < t0.len());
        }
    }
    assert forall|c: int, w: int| #![trigger t1[c], keys[w]] a < c < b && 0 <= w < keys.len() && keys[w] == t1[c].1 implies finished_by(
        keys,
        adj,
        refd,
        t1,
        rk,
        marked,
        b,
        w,
    ) by {
        assert(t1[c] == t0[c]);
        if fpos.contains(c) {
            let q = choose|q: int| 0 <= q < fpos.len() && fpos[q] == c;
            if q < top {
                assert(fpos[q] < fpos[top]);
            }
            assert(false);
        }
        assert(done_with(keys, adj, f, vis0, w as usize));
        assert forall|q: int| 0 <= q < adj[w]@.len() implies #[trigger] settled_by(keys, refd, t1, rk, marked, b, keys[w], adj[w]@[q]) by {
            assert(edge_done(keys, f, vis0, keys[w], adj[w]@[q]));
            lemma_done_settled(keys, f, vis0, t0, rk, marked, keys[w], adj[w]@[q]);
            lemma_settled_grow(keys, refd, t0, t1, rk, marked, b, b, keys[w], adj[w]@[q]);
        }
    }
    assert(acc(t1[b].0, t1[b].1, t1[b].2));
}

proof fn lemma_recursive_step<K, E, F: Fn(K, K, E) -> bool>(
    keys: Seq<K>,
    adj: Seq<Vec<(K, E)>>,
    f: F,
    vis0: Set<usize>,
    vis1: Set<usize>,
    f0: Seq<(usize, usize)>,
    f1: Seq<(usize, usize)>,
    top: int,
    u: usize,
    pos: usize,
    j: usize,
    root: usize,
)
    requires
        frames_done(keys, adj, f, vis0, f0),
        forall|w: usize| #[trigger] vis0.contains(w) ==> done_with(keys, adj, f, vis0, w) || in_frames(f0, w),
        done_with(keys, adj, f, vis0, root) || in_frames(f0, root),
        0 <= top < f0.len(),
        f0[top] == (u, pos),
        pos < adj[u as int]@.len(),
        vis0.subset_of(vis1),
        forall|w: usize| #[trigger] vis1.contains(w) ==> vis0.contains(w) || w == j,
        edge_done(keys, f, vis1, keys[u as int], adj[u as int]@[pos as int]),
        f0.len() <= f1.len(),
        f1[top] == (u, (pos + 1) as usize),
        forall|q: int| 0 <= q < f0.len() && q != top ==> #[trigger] f1[q] == f0[q],
        forall|q: int| f0.len() <= q < f1.len() ==> (#[trigger] f1[q]).1 == 0,
        vis1.contains(j) && !vis0.contains(j) ==> in_frames(f1, j),
    ensures
        frames_done(keys, adj, f, vis1, f1),
        forall|w: usize| #[trigger] vis1.contains(w) ==> done_with(keys, adj, f, vis1, w) || in_frames(f1, w),
        done_with(keys, adj, f, vis1, root) || in_frames(f1, root),
{
    assert forall|q: int| #![trigger f1[q]] 0 <= q < f1.len() implies done_upto(keys, adj, f, vis1, f1[q].0, f1[q].1 as int) by {
        if q < f0.len() {
            assert(done_upto(keys, adj, f, vis0, f0[q].0, f0[q].1 as int));
            lemma_done_grow(keys, adj, f, vis0, vis1, f0[q].0, f0[q].1 as int);
            if q == top {
                assert forall|i: int| 0 <= i < pos + 1 && i < adj[u as int]@.len() implies #[trigger] edge_done(
                    keys,
                    f,
                    vis1,
                    keys[u as int],
                    adj[u as int]@[i],
                ) by {
                    if i < pos {
                        assert(done_upto(keys, adj, f, vis1, u, pos as int));
                    }
                }
            } else {
                assert(f1[q] == f0[q]);
            }
        }
    }
    assert forall|w: usize| done_with(keys, adj, f, vis0, w) || in_frames(f0, w) implies done_with(keys, adj, f, vis1, w)
        || in_frames(f1, w) by {
        if done_with(keys, adj, f, vis0, w) {
            lemma_done_grow(keys, adj, f, vis0, vis1, w, adj[w as int]@.len() as int);
        } else {
            let q = choose|q: int| 0 <= q < f0.len() && #[trigger] f0[q].0 == w;
            if q == top {
                assert(f1[q].0 == w);
            } else {
                assert(f1[q] == f0[q]);
            }
        }
    }
    assert forall|w: usize| #[trigger] vis1.contains(w) implies done_with(keys, adj, f, vis1, w) || in_frames(f1, w) by {
        if vis0.contains(w) {
        } else {
            assert(w == j);
        }
    }
}

/// Searches from node `root` of the snapshot, following edges accepted by
/// `f`, in the order `strategy` gives; `rank` orders the nodes for the
/// priority strategies. The edges by which nodes are first reached are
/// appended to `tree`. Returns `true` as soon as `target` is reached; the
/// last tree edge then ends at it. The root counts as reached from the
/// start when `mark_root`, else only once an edge leads back to it. With
/// distinct keys, no two tree edges end at the same node, and none at the
/// root when `mark_root`.
#[verifier::rlimit(40)]
pub fn search<K: Copy + PartialEq, E: Copy, F: Fn(K, K, E) -> bool>(
    keys: &Vec<K>,
    adj: &Vec<Vec<(K, E)>>,
    rank: &Vec<usize>,
    strategy: Strategy,
    root: usize,
    target: Option<K>,
    f: &F,
    tree: &mut Vec<(K, K, E)>,
    mark_root: bool,
) -> (found: bool)
    requires
        keys_compare::<K>(),
        keys@.len() == adj@.len(),
        rank@.len() == keys@.len(),
        root < keys@.len(),
        forall|a: K, b: K, c: E| f.requires((a, b, c)),
        old(tree)@.len() == 0,
    ensures
        is_tree(keys@, adj@, keys@[root as int], *f, final(tree)@),
        found ==> target is Some && final(tree)@.len() > 0 && final(tree)@[final(tree)@.len() - 1].1 == target->0,
        target is None ==> !found,
        !found && strategy != Strategy::DepthFirstEdge ==> exists|vis: Set<usize>|
            closed_search(keys@, adj@, *f, root, target, mark_root, vis),
        keys@.no_duplicates() ==> distinct_targets(final(tree)@),
        keys@.no_duplicates() && mark_root ==> forall|q: int| #![trigger final(tree)@[q]] 0 <= q < final(tree)@.len()
            ==> final(tree)@[q].1 != keys@[root as int],
        found && keys@.no_duplicates() && strategy == Strategy::Breadth && (mark_root || forall|e: E|
            !adj@[root as int]@.contains((keys@[root as int], e))) ==> forall|q: Seq<(K, K, E)>|
            #[trigger] is_walk(keys@, adj@, q, keys@[root as int], final(tree)@[final(tree)@.len() - 1].1) && !blocked(*f, q) ==> q.len()
            >= depth(final(tree)@, final(tree)@[final(tree)@.len() - 1].1),
        keys@.no_duplicates() && (strategy == Strategy::PriorityMin || strategy == Strategy::PriorityMax) ==> priority_ordered(
            keys@,
            adj@,
            rank@,
            *f,
            keys@[root as int],
            final(tree)@,
            strategy == Strategy::PriorityMin,
        ),
        keys@.no_duplicates() && strategy == Strategy::Depth ==> stack_ordered(keys@, adj@, *f, keys@[root as int], final(tree)@)
            && groups_complete(keys@, adj@, *f, keys@[root as int], final(tree)@),
        keys@.no_duplicates() && (strategy == Strategy::PriorityMin || strategy == Strategy::PriorityMax) ==> groups_complete(
            keys@,
            adj@,
            *f,
            keys@[root as int],
            final(tree)@,
        ),
        strategy == Strategy::DepthFirstEdge && keys@.no_duplicates() ==> first_edges(
            keys@,
            adj@,
            *f,
            final(tree)@,
            keys@[root as int],
            mark_root,
        ),
        strategy == Strategy::Recursive && keys@.no_duplicates() ==> recursive_ordered(
            keys@,
            adj@,
            accepted_by(*f),
            refused_by(*f),
            keys@[root as int],
            mark_root,
            final(tree)@,
        ),
        !found && strategy == Strategy::DepthFirstEdge && keys@.no_duplicates() ==> ends_stuck(
            keys@,
            adj@,
            *f,
            final(tree)@,
            keys@[root as int],
            mark_root,
        ),
{
    let ghost rk = keys@[root as int];
    let ghost bfs = keys@.no_duplicates() && strategy == Strategy::Breadth && (mark_root || forall|e: E|
        !adj@[root as int]@.contains((keys@[root as int], e)));
    let n = keys.len();
    let mut visited = visited_new();
    if mark_root {
        visited_insert(&mut visited, root);
    }
    proof {
        assert(visited_ok(visited_indices(visited), n as nat));
        assert(forall|w: usize| #[trigger] visited_indices(visited).contains(w) ==> w == root);
        match target {
            Some(tk) => {
                if key_visited(keys@, visited_indices(visited), tk) {
                    let j = choose|j: usize| #[trigger] visited_indices(visited).contains(j) && (j as int) < keys@.len() && keys@[j as int] == tk;
                    assert(j == root);
                }
            },
            None => {},
        }
        assert(target_unvisited(keys@, visited_indices(visited), target, mark_root, rk));
        if mark_root {
            assert(visited_indices(visited).contains(root));
            assert(key_visited(keys@, visited_indices(visited), rk));
        }
        assert(fresh_tree(keys@, visited_indices(visited), tree@, rk, mark_root));
        assert(visited_reached(keys@, visited_indices(visited), tree@, rk, mark_root));
    }
    match strategy {
        Strategy::Recursive => {
            let mut frames: Vec<(usize, usize)> = Vec::new();
            frames.push((root, 0));
            let ghost mut fpos: Seq<int> = seq![-1int];
            proof {
                reveal(recursive_ordered);
                assert(frame_marks(keys@, root, tree@, frames@, fpos));
                lemma_visited_len(visited_indices(visited), n);
                assert(frames@[0] == (root, 0usize));
                assert(frames@[0].0 == root);
                assert(in_frames(frames@, root));
            }
            while frames.len() > 0
                invariant
                    keys_compare::<K>(),
                    keys@.len() == adj@.len(),
                    n == keys@.len(),
                    rk == keys@[root as int],
                    forall|a: K, b: K, c: E| f.requires((a, b, c)),
                    is_tree(keys@, adj@, rk, *f, tree@),
                    visited_ok(visited_indices(visited), n as nat),
                    visited_indices(visited).len() <= n,
                    frames_ok(keys@, adj@, rk, tree@, frames@),
                    strategy == Strategy::Recursive,
                    root < n,
                    frames_done(keys@, adj@, *f, visited_indices(visited), frames@),
                    forall|w: usize| #[trigger] visited_indices(visited).contains(w) ==> done_with(
                        keys@,
                        adj@,
                        *f,
                        visited_indices(visited),
                        w,
                    ) || in_frames(frames@, w),
                    done_with(keys@, adj@, *f, visited_indices(visited), root) || in_frames(frames@, root),
                    target_unvisited(keys@, visited_indices(visited), target, mark_root, rk),
                    keys@.no_duplicates() ==> fresh_tree(keys@, visited_indices(visited), tree@, rk, mark_root),
                    visited_reached(keys@, visited_indices(visited), tree@, rk, mark_root),
                    frame_marks(keys@, root, tree@, frames@, fpos),
                    keys@.no_duplicates() ==> reached_open_marked(keys@, adj@, *f, visited_indices(visited), tree@, fpos),
                    keys@.no_duplicates() ==> recursive_ordered(keys@, adj@, accepted_by(*f), refused_by(*f), rk, mark_root, tree@),
                decreases
                    n - visited_indices(visited).len(),
                    frames@.len(),
                    adj@[frames@[frames@.len() - 1].0 as int]@.len() - frames@[frames@.len() - 1].1,
            {
                let top = frames.len() - 1;
                let (u, pos) = frames[top];
                assert(reached_node(keys@, rk, tree@, frames@[top as int].0));
                let ghost f0 = frames@;
                let ghost vis0 = visited_indices(visited);
                if pos >= adj[u].len() {
                    frames.pop();
                    proof {
                        assert(frames@ == f0.subrange(0, f0.len() - 1));
                        assert(f0[top as int] == (u, pos));
                        assert(done_upto(keys@, adj@, *f, vis0, u, pos as int));
                        assert(done_with(keys@, adj@, *f, vis0, u));
                        assert forall|q: int| #![trigger frames@[q]] 0 <= q < frames@.len() implies done_upto(keys@, adj@, *f, vis0, frames@[q].0, frames@[q].1 as int) by {
                            assert(frames@[q] == f0[q]);
                        }
                        assert forall|w: usize| in_frames(f0, w) implies done_with(keys@, adj@, *f, vis0, w) || in_frames(frames@, w) by {
                            let q = choose|q: int| 0 <= q < f0.len() && #[trigger] f0[q].0 == w;
                            if q < top {
                                assert(frames@[q] == f0[q]);
                            }
                        }
                        assert(frames_ok(keys@, adj@, rk, tree@, f0));
                        assert forall|q: int| 0 <= q < frames@.len() implies #[trigger] reached_node(keys@, rk, tree@, frames@[q].0)
                            && (frames@[q].1 <= adj@[frames@[q].0 as int]@.len()) by {
                            assert(frames@[q] == f0[q]);
                            assert(reached_node(keys@, rk, tree@, f0[q].0));
                        }
                        assert(frames_ok(keys@, adj@, rk, tree@, frames@));
                        let fp0 = fpos;
                        fpos = fpos.drop_last();
                        assert(frame_marks(keys@, root, tree@, frames@, fpos)) by {
                            assert forall|q: int| #![trigger fpos[q]] 0 < q < fpos.len() implies 0 <= fpos[q] < tree@.len() && tree@[fpos[q]].1
                                == keys@[frames@[q].0 as int] by {
                                assert(fpos[q] == fp0[q]);
                                assert(frames@[q] == f0[q]);
                            }
                            assert forall|q1: int, q2: int| #![trigger fpos[q1], fpos[q2]] 0 <= q1 < q2 < fpos.len() implies fpos[q1] < fpos[q2] by {
                                assert(fpos[q1] == fp0[q1]);
                                assert(fpos[q2] == fp0[q2]);
                            }
                            if fpos.len() > 0 {
                                assert(fpos[0] == fp0[0]);
                                assert(frames@[0] == f0[0]);
                            }
                        }
                        if keys@.no_duplicates() {
                            assert forall|c: int, w: int| #![trigger tree@[c], keys@[w]] 0 <= c < tree@.len() && 0 <= w < keys@.len() && keys@[w]
                                == tree@[c].1 implies done_with(keys@, adj@, *f, vis0, w as usize) || fpos.contains(c) by {
                                if !done_with(keys@, adj@, *f, vis0, w as usize) {
                                    assert(fp0.contains(c));
                                    let q = choose|q: int| 0 <= q < fp0.len() && fp0[q] == c;
                                    if q == top {
                                        assert(q > 0);
                                        assert(tree@[fp0[q]].1 == keys@[f0[q].0 as int]);
                                        assert(w == u as int);
                                    } else {
                                        assert(fpos[q] == fp0[q]);
                                    }
                                }
                            }
                        }
                    }
                } else {
                    frames.set(top, (u, pos + 1));
                    proof {
                        assert forall|q: int| 0 <= q < frames@.len() implies #[trigger] reached_node(keys@, rk, tree@, frames@[q].0)
                            && (frames@[q].1 <= adj@[frames@[q].0 as int]@.len()) by {
                            if q != top {
                                assert(frames@[q] == f0[q]);
                            }
                        }
                        assert(frames_ok(keys@, adj@, rk, tree@, frames@));
                        assert forall|q: int| 0 <= q < frames@.len() implies #[trigger] frames@[q].0 == f0[q].0 by {
                            if q != top {
                                assert(frames@[q] == f0[q]);
                            }
                        }
                        assert(frame_marks(keys@, root, tree@, frames@, fpos)) by {
                            assert forall|q: int| #![trigger fpos[q]] 0 < q < fpos.len() implies 0 <= fpos[q] < tree@.len() && tree@[fpos[q]].1
                                == keys@[frames@[q].0 as int] by {
                                assert(frames@[q].0 == f0[q].0);
                            }
                            assert(frames@[0].0 == f0[0].0);
                        }
                    }
                    let (v, e) = adj[u][pos];
                    let ukey = keys[u];
                    let ghost f1 = frames@;
                    proof {
                        assert(adj@[u as int]@[pos as int] == (v, e));
                        assert(f1[top as int] == (u, (pos + 1) as usize));
                        assert forall|q: int| 0 <= q < f0.len() && q != top implies #[trigger] f1[q] == f0[q] by {}
                    }
                    match index_of_key(keys, &v) {
                        Some(j) => {
                            if !visited_contains(&visited, j) {
                                if f(ukey, v, e) {
                                    let ghost t0 = tree@;
                                    let ghost fr = frames@;
                                    proof {
                                        assert(adj@[u as int]@.contains((v, e))) by {
                                            assert(adj@[u as int]@[pos as int] == (v, e));
                                        }
                                        lemma_tree_push(keys@, adj@, rk, *f, t0, (ukey, v, e));
                                    }
                                    proof {
                                        if keys@.no_duplicates() {
                                            assert(done_upto(keys@, adj@, *f, vis0, u, pos as int)) by {
                                                assert(f0[top as int] == (u, pos));
                                            }
                                            assert(fr[fr.len() - 1].0 == u);
                                            lemma_recursive_next(keys@, adj@, *f, vis0, t0, fr, fpos, root, mark_root, u, pos, j);
                                            lemma_recursive_push(keys@, adj@, accepted_by(*f), refused_by(*f), rk, mark_root, t0, (ukey, v, e));
                                        }
                                    }
                                    visited_insert(&mut visited, j);
                                    tree.push((ukey, v, e));
                                    proof {
                                        if keys@.no_duplicates() {
                                            lemma_fresh_push(keys@, vis0, visited_indices(visited), t0, rk, mark_root, (ukey, v, e), j);
                                        }
                                        let vis1 = visited_indices(visited);
                                        assert(visited_reached(keys@, vis1, tree@, rk, mark_root)) by {
                                            assert forall|w: usize| #[trigger] vis1.contains(w) implies (w as int) < keys@.len() && reached_key(
                                                tree@,
                                                rk,
                                                mark_root,
                                                keys@[w as int],
                                            ) by {
                                                if w == j {
                                                    assert(tree@[t0.len() as int].1 == v);
                                                } else {
                                                    assert(vis0.contains(w));
                                                    assert(reached_key(t0, rk, mark_root, keys@[w as int]));
                                                    if !(mark_root && keys@[w as int] == rk) {
                                                        let i = choose|i: int| 0 <= i < t0.len() && #[trigger] t0[i].1 == keys@[w as int];
                                                        assert(tree@[i] == t0[i]);
                                                    }
                                                }
                                            }
                                        }
                                    }
                                    match target {
                                        Some(tk) => {
                                            if key_eq(&v, &tk) {
                                                return true;
                                            }
                                        },
                                        None => {},
                                    }
                                    frames.push((j, 0));
                                    proof {
                                        let fp0 = fpos;
                                        fpos = fpos.push(t0.len() as int);
                                        assert(frame_marks(keys@, root, tree@, frames@, fpos)) by {
                                            assert forall|q: int| #![trigger fpos[q]] 0 < q < fpos.len() implies 0 <= fpos[q] < tree@.len() && tree@[fpos[q]].1
                                                == keys@[frames@[q].0 as int] by {
                                                if q < fp0.len() {
                                                    assert(fpos[q] == fp0[q]);
                                                    assert(frames@[q] == fr[q]);
                                                    assert(tree@[fp0[q]] == t0[fp0[q]]);
                                                } else {
                                                    assert(frames@[q] == (j, 0usize));
                                                }
                                            }
                                            assert forall|q1: int, q2: int| #![trigger fpos[q1], fpos[q2]] 0 <= q1 < q2 < fpos.len() implies fpos[q1] < fpos[q2] by {
                                                assert(fpos[q1] == fp0[q1]);
                                                if q2 < fp0.len() {
                                                    assert(fpos[q2] == fp0[q2]);
                                                }
                                            }
                                            assert(fpos[0] == fp0[0]);
                                            assert(frames@[0] == fr[0]);
                                        }
                                        if keys@.no_duplicates() {
                                            let vis1 = visited_indices(visited);
                                            assert forall|c: int, w: int| #![trigger tree@[c], keys@[w]] 0 <= c < tree@.len() && 0 <= w < keys@.len() && keys@[w]
                                                == tree@[c].1 implies done_with(keys@, adj@, *f, vis1, w as usize) || fpos.contains(c) by {
                                                if c == t0.len() {
                                                    assert(fpos[fpos.len() - 1] == c);
                                                } else {
                                                    assert(tree@[c] == t0[c]);
                                                    if done_with(keys@, adj@, *f, vis0, w as usize) {
                                                        lemma_done_grow(keys@, adj@, *f, vis0, vis1, w as usize, adj@[w]@.len() as int);
                                                    } else {
                                                        let q = choose|q: int| 0 <= q < fp0.len() && fp0[q] == c;
                                                        assert(fpos[q] == fp0[q]);
                                                    }
                                                }
                                            }
                                        }
                                        lemma_visited_len(visited_indices(visited), n);
                                        assert forall|q: int| 0 <= q < frames@.len() implies #[trigger] reached_node(keys@, rk, tree@, frames@[q].0)
                                            && (frames@[q].1 <= adj@[frames@[q].0 as int]@.len()) by {
                                            if q < fr.len() {
                                                assert(frames@[q] == fr[q]);
                                                assert(reached_node(keys@, rk, t0, fr[q].0));
                                                if keys@[fr[q].0 as int] != rk {
                                                    lemma_reached_extends(tree@, t0, keys@[fr[q].0 as int]);
                                                }
                                            } else {
                                                assert(frames@[q] == (j, 0usize));
                                                assert(keys@[j as int] == v);
                                                assert(tree@ == t0.push((ukey, v, e)));
                                            }
                                        }
                                        assert(frames_ok(keys@, adj@, rk, tree@, frames@));
                                        let vis1 = visited_indices(visited);
                                        assert(vis1.contains(j));
                                        assert(key_visited(keys@, vis1, v));
                                        assert(frames@[frames@.len() - 1] == (j, 0usize));
                                        assert(in_frames(frames@, j));
                                        assert forall|q: int| 0 <= q < f0.len() && q != top implies #[trigger] frames@[q] == f0[q] by {
                                            assert(frames@[q] == fr[q]);
                                        }
                                        assert forall|q: int| f0.len() <= q < frames@.len() implies (#[trigger] frames@[q]).1 == 0 by {
                                            assert(q == frames@.len() - 1);
                                        }
                                        assert(frames@[top as int] == fr[top as int]);
                                        lemma_recursive_step(keys@, adj@, *f, vis0, vis1, f0, frames@, top as int, u, pos, j, root);
                                        if let Some(tk) = target {
                                            if key_visited(keys@, vis1, tk) {
                                                let w = choose|w: usize| #[trigger] vis1.contains(w) && (w as int) < keys@.len() && keys@[w as int] == tk;
                                                if w == j {
                                                    assert(v != tk);
                                                } else {
                                                    assert(vis0.contains(w));
                                                }
                                            }
                                        }
                                    }
                                } else {
                                    proof {
                                        lemma_recursive_step(keys@, adj@, *f, vis0, vis0, f0, frames@, top as int, u, pos, root, root);
                                    }
                                }
                            } else {
                                proof {
                                    assert(key_visited(keys@, vis0, v));
                                    lemma_recursive_step(keys@, adj@, *f, vis0, vis0, f0, frames@, top as int, u, pos, root, root);
                                }
                            }
                        },
                        None => {
                            proof {
                                lemma_recursive_step(keys@, adj@, *f, vis0, vis0, f0, frames@, top as int, u, pos, root, root);
                            }
                        },
                    }
                }
            }
            proof {
                assert(closed_search(keys@, adj@, *f, root, target, mark_root, visited_indices(visited)));
            }
            false
        },
        Strategy::PriorityMin | Strategy::PriorityMax => {
            let mut heap = heap_new();
            heap_push(&mut heap, (rank[root], root));
            let ghost min = strategy == Strategy::PriorityMin;
            let ghost mut exp: Seq<usize> = Seq::empty();
            let ghost mut st: Seq<int> = Seq::empty();
            let ghost mut en: Seq<int> = Seq::empty();
            let ghost mut grp: Seq<int> = Seq::empty();
            proof {
                assert(heap_items(heap).count((rank@[root as int], root)) > 0);
                assert(pending_heap(heap_items(heap), root));
                assert(heap_items(heap) == Multiset::<(usize, usize)>::empty().insert((rank@[root as int], root)));
                assert forall|y: (usize, usize)| #[trigger] heap_items(heap).count(y) > 0 implies (y.1 as int) < keys@.len() && y.0 == rank@[y.1 as int] by {
                    assert(y == (rank@[root as int], root));
                }
                if keys@.no_duplicates() {
                    assert forall|v: int| 0 <= v < keys@.len() && reached_by(tree@, rk, tree@.len() as int, #[trigger] keys@[v]) && !exp.contains(v as usize)
                        implies pending_heap(heap_items(heap), v as usize) by {
                        assert(keys@[v] == keys@[root as int]);
                    }
                }
                assert(visited_reached(keys@, visited_indices(visited), tree@, rk, mark_root));
                assert(pfs_record(keys@, rank@, rk, tree@, exp, st, en, grp, min));
            }
            loop
                invariant
                    keys_compare::<K>(),
                    keys@.len() == adj@.len(),
                    rank@.len() == keys@.len(),
                    n == keys@.len(),
                    rk == keys@[root as int],
                    forall|a: K, b: K, c: E| f.requires((a, b, c)),
                    is_tree(keys@, adj@, rk, *f, tree@),
                    visited_ok(visited_indices(visited), n as nat),
                    forall|x: (usize, usize)| #[trigger] heap_items(heap).count(x) > 0 ==> reached_node(keys@, rk, tree@, x.1),
                    strategy == Strategy::PriorityMin || strategy == Strategy::PriorityMax,
                    heap_items(heap).len() <= visited_indices(visited).len() + 1,
                    root < n,
                    min == (strategy == Strategy::PriorityMin),
                    keys@.no_duplicates() ==> pfs_record(keys@, rank@, rk, tree@, exp, st, en, grp, min),
                    keys@.no_duplicates() ==> forall|m: int| 0 <= m < exp.len() ==> #[trigger] expanded_by(keys@, adj@, *f, tree@, rk, exp[m] as int, en[m]),
                    forall|y: (usize, usize)| #[trigger] heap_items(heap).count(y) > 0 ==> (y.1 as int) < keys@.len() && y.0 == rank@[y.1 as int],
                    keys@.no_duplicates() ==> forall|v: int| 0 <= v < keys@.len() && reached_by(tree@, rk, tree@.len() as int, #[trigger] keys@[v])
                        && !exp.contains(v as usize) ==> pending_heap(heap_items(heap), v as usize),
                    visited_reached(keys@, visited_indices(visited), tree@, rk, mark_root),
                    forall|w: usize| #[trigger] visited_indices(visited).contains(w) ==> done_with(
                        keys@,
                        adj@,
                        *f,
                        visited_indices(visited),
                        w,
                    ) || pending_heap(heap_items(heap), w),
                    done_with(keys@, adj@, *f, visited_indices(visited), root) || pending_heap(heap_items(heap), root),
                    target_unvisited(keys@, visited_indices(visited), target, mark_root, rk),
                    keys@.no_duplicates() ==> fresh_tree(keys@, visited_indices(visited), tree@, rk, mark_root),
                decreases heap_items(heap).len() + 2 * (n - visited_indices(visited).len()),
            {
                proof {
                    lemma_visited_len(visited_indices(visited), n);
                }
                let ghost hp = heap_items(heap);
                let popped = if strategy == Strategy::PriorityMin {
                    heap_pop_min(&mut heap)
                } else {
                    heap_pop_max(&mut heap)
                };
                match popped {
                    Some(x) => {
                        let ghost hv = heap_items(heap);
                        let ghost h0 = hp;
                        let ghost t0 = tree@;
                        let ghost v0 = visited_indices(visited);
                        assert(heap_items(heap).len() + 1 == heap_items(heap).insert(x).len());
                        let (hit, newly) = expand(keys, adj, x.1, target, f, false, &mut visited, tree, Ghost(rk), Ghost(mark_root), Ghost(false), Ghost(0));
                        let ghost exp1 = exp.push(x.1);
                        let ghost st1 = st.push(t0.len() as int);
                        let ghost en1 = en.push(tree@.len() as int);
                        let ghost grp1 = grp + Seq::new((tree@.len() - t0.len()) as nat, |i: int| exp.len() as int);
                        proof {
                            assert forall|y: (usize, usize)| #[trigger] h0.count(y) > 0 implies takes_first(x, y, min) by {}
                            if keys@.no_duplicates() {
                                assert forall|m: int| 0 <= m < exp.len() implies #[trigger] expanded_by(keys@, adj@, *f, tree@, rk, exp[m] as int, en[m]) by {
                                    assert(st[m] <= en[m] <= t0.len());
                                    lemma_expanded_grow(keys@, adj@, *f, tree@, t0, rk, exp[m] as int, en[m], en[m]);
                                }
                                lemma_pfs_record_push(keys@, rank@, rk, t0, tree@, exp, st, en, grp, h0, x, min);
                            }
                        }
                        if hit {
                            proof {
                                if keys@.no_duplicates() {
                                    assert forall|m: int| 0 <= m < exp1.len() - 1 implies #[trigger] expanded_by(keys@, adj@, *f, tree@, rk, exp1[m] as int, en1[m]) by {
                                        assert(exp1[m] == exp[m]);
                                        assert(en1[m] == en[m]);
                                    }
                                    lemma_pfs_ordered(keys@, adj@, rank@, *f, rk, tree@, exp1, st1, en1, grp1, min);
                                    assert(expansion_record(keys@, tree@, exp1, st1, en1, grp1));
                                    lemma_groups_complete(keys@, adj@, *f, rk, tree@, exp1, st1, en1, grp1);
                                }
                            }
                            return true;
                        }
                        proof {
                            lemma_visited_len(visited_indices(visited), n);
                            assert forall|y: (usize, usize)| #[trigger] heap_items(heap).count(y) > 0 implies reached_node(keys@, rk, tree@, y.1) by {
                                assert(reached_node(keys@, rk, t0, y.1));
                                if keys@[y.1 as int] != rk {
                                    lemma_reached_extends(tree@, t0, keys@[y.1 as int]);
                                }
                            }
                        }
                        proof {
                            assert forall|y: (usize, usize)| #[trigger] heap_items(heap).count(y) > 0 implies (y.1 as int) < keys@.len() && y.0
                                == rank@[y.1 as int] by {
                                assert(h0.count(y) > 0);
                            }
                        }
                        let mut k: usize = 0;
                        while k < newly.len()
                            invariant
                                k <= newly@.len(),
                                rank@.len() == keys@.len(),
                                forall|y: (usize, usize)| #[trigger] heap_items(heap).count(y) > 0 ==> (y.1 as int) < keys@.len() && y.0 == rank@[y.1 as int],
                                forall|i: int| 0 <= i < newly@.len() ==> #[trigger] reached_node(keys@, rk, tree@, newly@[i]),
                                forall|y: (usize, usize)| #[trigger] heap_items(heap).count(y) > 0 ==> reached_node(keys@, rk, tree@, y.1),
                                heap_items(heap).len() == hv.len() + k,
                                forall|y: (usize, usize)| #[trigger] hv.count(y) > 0 ==> heap_items(heap).count(y) > 0,
                                forall|i: int| 0 <= i < k ==> pending_heap(heap_items(heap), #[trigger] newly@[i]),
                            decreases newly@.len() - k,
                        {
                            let j = newly[k];
                            assert(reached_node(keys@, rk, tree@, newly@[k as int]));
                            let ghost hb = heap_items(heap);
                            heap_push(&mut heap, (rank[j], j));
                            proof {
                                assert(heap_items(heap).count((rank@[j as int], j)) > 0);
                                assert forall|y: (usize, usize)| #[trigger] heap_items(heap).count(y) > 0 implies (y.1 as int) < keys@.len() && y.0
                                    == rank@[y.1 as int] by {
                                    if y != (rank@[j as int], j) {
                                        assert(hb.count(y) > 0);
                                    }
                                }
                                assert forall|i: int| 0 <= i < k + 1 implies pending_heap(heap_items(heap), #[trigger] newly@[i]) by {
                                    if i < k {
                                        let y = choose|y: (usize, usize)| #[trigger] hb.count(y) > 0 && y.1 == newly@[i];
                                        assert(heap_items(heap).count(y) > 0);
                                    }
                                }
                            }
                            k = k + 1;
                        }
                        proof {
                            assert forall|y: (usize, usize)| #[trigger] heap_items(heap).count(y) > 0 implies reached_node(keys@, rk, tree@, y.1) by {}
                            let v2 = visited_indices(visited);
                            assert(hv == h0.remove(x));
                            lemma_after_expand_heap(keys@, adj@, *f, v0, v2, h0, x, heap_items(heap), newly@, root);
                            match target {
                                Some(tk) => {
                                    if key_visited(keys@, v2, tk) {
                                        let j = choose|j: usize| #[trigger] v2.contains(j) && (j as int) < keys@.len() && keys@[j as int] == tk;
                                        if !v0.contains(j) {
                                            assert(keys@[j as int] != tk);
                                        }
                                    }
                                },
                                None => {},
                            }
                            if keys@.no_duplicates() {
                                lemma_done_expanded(keys@, adj@, *f, v2, tree@, rk, mark_root, x.1);
                                assert forall|m: int| 0 <= m < exp1.len() implies #[trigger] expanded_by(keys@, adj@, *f, tree@, rk, exp1[m] as int, en1[m]) by {
                                    if m < exp.len() {
                                        assert(exp1[m] == exp[m]);
                                        assert(en1[m] == en[m]);
                                    } else {
                                        assert(exp1[m] == x.1);
                                        assert(en1[m] == tree@.len());
                                    }
                                }
                                assert forall|v: int| 0 <= v < keys@.len() && reached_by(tree@, rk, tree@.len() as int, #[trigger] keys@[v])
                                    && !exp1.contains(v as usize) implies pending_heap(heap_items(heap), v as usize) by {
                                    if reached_by(t0, rk, t0.len() as int, keys@[v]) {
                                        assert(!exp.contains(v as usize)) by {
                                            if exp.contains(v as usize) {
                                                let k = choose|k: int| 0 <= k < exp.len() && exp[k] == v as usize;
                                                assert(exp1[k] == v as usize);
                                            }
                                        }
                                        assert(pending_heap(h0, v as usize));
                                        let y = choose|y: (usize, usize)| #[trigger] h0.count(y) > 0 && y.1 == v as usize;
                                        assert(exp1[exp.len() as int] == x.1);
                                        assert(y != x);
                                        assert(hv.count(y) > 0);
                                        assert(heap_items(heap).count(y) > 0);
                                    } else {
                                        assert(keys@[v] != rk);
                                        let q = choose|q: int| #![trigger tree@[q]] 0 <= q < tree@.len() && q < tree@.len() && tree@[q].1 == keys@[v];
                                        if q < t0.len() {
                                            assert(t0[q] == tree@[q]);
                                            assert(reached_before(t0, t0.len() as int, keys@[v]));
                                        }
                                        let q2 = q - t0.len();
                                        assert(tree@[t0.len() + q2].1 == keys@[newly@[q2] as int]);
                                        assert(reached_node(keys@, rk, tree@, newly@[q2]));
                                        assert(newly@[q2] as int == v);
                                        assert(pending_heap(heap_items(heap), newly@[q2]));
                                    }
                                }
                            }
                            exp = exp1;
                            st = st1;
                            en = en1;
                            grp = grp1;
                        }
                    },
                    None => {
                        proof {
                            if keys@.no_duplicates() {
                                lemma_pfs_ordered(keys@, adj@, rank@, *f, rk, tree@, exp, st, en, grp, min);
                                assert(expansion_record(keys@, tree@, exp, st, en, grp));
                                lemma_groups_complete(keys@, adj@, *f, rk, tree@, exp, st, en, grp);
                            }
                            assert forall|w: usize| !pending_heap(heap_items(heap), w) by {
                                if pending_heap(heap_items(heap), w) {
                                    let y = choose|y: (usize, usize)| #[trigger] heap_items(heap).count(y) > 0 && y.1 == w;
                                    vstd::multiset::lemma_multiset_empty_len(heap_items(heap));
                                }
                            }
                            assert(closed_search(keys@, adj@, *f, root, target, mark_root, visited_indices(visited)));
                        }
                        return false;
                    },
                }
            }
        },
        _ => {
            let lifo = strategy != Strategy::Breadth;
            let first_only = strategy == Strategy::DepthFirstEdge;
            let mut frontier: Vec<usize> = Vec::new();
            frontier.push(root);
            let mut head: usize = 0;
            let ghost mut last: usize = root;
            let ghost mut cur: nat = 0;
            let ghost dfs = keys@.no_duplicates() && strategy == Strategy::Depth;
            let ghost mut exp: Seq<usize> = Seq::empty();
            let ghost mut expos: Seq<int> = Seq::empty();
            let ghost mut st: Seq<int> = Seq::empty();
            let ghost mut en: Seq<int> = Seq::empty();
            let ghost mut grp: Seq<int> = Seq::empty();
            let ghost mut fpos: Seq<int> = seq![-1int];
            proof {
                if dfs {
                    lemma_dfs_init(keys@, adj@, *f, rk, root, tree@, frontier@);
                }
                assert(frontier@[0] == root);
                assert(pending_in(frontier@, 0, root));
                if bfs {
                    assert(depth(tree@, rk) == 0);
                    assert(forall|w: usize| #[trigger] visited_indices(visited).contains(w) ==> w == root);
                    assert(bfs_levels(keys@, adj@, *f, tree@, visited_indices(visited), frontier@, 0, 0));
                }
            }
            loop
                invariant
                    keys_compare::<K>(),
                    keys@.len() == adj@.len(),
                    n == keys@.len(),
                    rk == keys@[root as int],
                    strategy != Strategy::PriorityMin && strategy != Strategy::PriorityMax && strategy != Strategy::Recursive,
                    forall|a: K, b: K, c: E| f.requires((a, b, c)),
                    is_tree(keys@, adj@, rk, *f, tree@),
                    visited_ok(visited_indices(visited), n as nat),
                    head <= frontier@.len(),
                    lifo ==> head == 0,
                    forall|i: int| head <= i < frontier@.len() ==> #[trigger] reached_node(keys@, rk, tree@, frontier@[i]),
                    frontier@.len() - head <= visited_indices(visited).len() + 1,
                    root < n,
                    lifo == (strategy != Strategy::Breadth),
                    first_only == (strategy == Strategy::DepthFirstEdge),
                    !first_only ==> forall|w: usize| #[trigger] visited_indices(visited).contains(w) ==> done_with(
                        keys@,
                        adj@,
                        *f,
                        visited_indices(visited),
                        w,
                    ) || pending_in(frontier@, head as int, w),
                    !first_only ==> done_with(keys@, adj@, *f, visited_indices(visited), root) || pending_in(
                        frontier@,
                        head as int,
                        root,
                    ),
                    target_unvisited(keys@, visited_indices(visited), target, mark_root, rk),
                    keys@.no_duplicates() ==> fresh_tree(keys@, visited_indices(visited), tree@, rk, mark_root),
                    visited_reached(keys@, visited_indices(visited), tree@, rk, mark_root),
                    first_only ==> frontier@.len() <= 1,
                    first_only && keys@.no_duplicates() ==> first_edges(keys@, adj@, *f, tree@, rk, mark_root),
                    first_only && frontier@.len() == 1 ==> keys@[frontier@[0] as int] == end_key(tree@, rk),
                    first_only && frontier@.len() == 0 ==> last < n && keys@[last as int] == end_key(tree@, rk) && (keys@.no_duplicates()
                        ==> first_stuck(keys@, *f, visited_indices(visited), keys@[last as int], adj@[last as int]@)),
                    bfs == (keys@.no_duplicates() && strategy == Strategy::Breadth && (mark_root || forall|e: E|
                        !adj@[root as int]@.contains((keys@[root as int], e)))),
                    bfs ==> bfs_levels(keys@, adj@, *f, tree@, visited_indices(visited), frontier@, head as int, cur),
                    bfs ==> frontier@.len() > 0 && frontier@[0] == root,
                    bfs ==> forall|i: int| 1 <= i < frontier@.len() ==> visited_indices(visited).contains(#[trigger] frontier@[i]),
                    bfs && head == 0 ==> tree@.len() == 0,
                    bfs && head > 0 ==> root_edges_near(keys@, adj@, *f, tree@, visited_indices(visited), root),
                    dfs == (keys@.no_duplicates() && strategy == Strategy::Depth),
                    dfs ==> dfs_state(keys@, adj@, *f, rk, root, tree@, frontier@, exp, expos, st, en, grp, fpos, true),
                decreases frontier@.len() - head + 2 * (n - visited_indices(visited).len()),
            {
                proof {
                    lemma_visited_len(visited_indices(visited), n);
                }
                if head >= frontier.len() {
                    proof {
                        if dfs {
                            lemma_dfs_finish(keys@, adj@, *f, rk, root, tree@, frontier@, exp, expos, st, en, grp, fpos);
                        }
                        if !first_only {
                            assert(closed_search(keys@, adj@, *f, root, target, mark_root, visited_indices(visited)));
                        } else if keys@.no_duplicates() {
                            lemma_stuck_reached(keys@, *f, visited_indices(visited), tree@, rk, mark_root, keys@[last as int], adj@[last as int]@);
                            assert(stuck_at(keys@, *f, tree@, rk, mark_root, keys@[last as int], adj@[last as int]@));
                        }
                    }
                    return false;
                }
                let ghost f_before = frontier@;
                let ghost h0 = head;
                let u = if lifo {
                    frontier.pop().unwrap()
                } else {
                    head = head + 1;
                    frontier[head - 1]
                };
                assert(frontier@.len() - head + 1 == f_before.len() - h0);
                proof {
                    if lifo {
                        assert(u == f_before[f_before.len() - 1]);
                        assert(reached_node(keys@, rk, tree@, f_before[f_before.len() - 1]));
                    } else {
                        assert(u == f_before[h0 as int]);
                        assert(reached_node(keys@, rk, tree@, f_before[h0 as int]));
                    }
                }
                let ghost fv = frontier@;
                let ghost t0 = tree@;
                let ghost v0 = visited_indices(visited);
                assert(reached_node(keys@, rk, t0, u));
                let ghost du = depth(t0, keys@[u as int]);
                proof {
                    if bfs {
                        assert(u == f_before[h0 as int]);
                        assert(cur <= du);
                        if h0 > 0 {
                            assert(v0.contains(f_before[h0 as int]));
                        } else {
                            assert(u == root);
                            if mark_root {
                                assert(v0.contains(root)) by {
                                    assert(key_visited(keys@, v0, rk));
                                    let z = choose|z: usize| #[trigger] v0.contains(z) && (z as int) < keys@.len() && keys@[z as int] == rk;
                                    assert(z == root);
                                }
                            }
                        }
                    }
                }
                let (hit, newly) = expand(keys, adj, u, target, f, first_only, &mut visited, tree, Ghost(rk), Ghost(mark_root), Ghost(bfs), Ghost(du));
                proof {
                    if first_only && keys@.no_duplicates() {
                        lemma_first_edges_step(keys@, adj@, *f, t0, tree@, v0, rk, mark_root, u);
                    }
                }
                let ghost fp = if fpos.len() > 0 { fpos[fpos.len() - 1] } else { -1 };
                let ghost exp1 = exp.push(u);
                let ghost expos1 = expos.push(fp);
                let ghost st1 = st.push(t0.len() as int);
                let ghost en1 = en.push(tree@.len() as int);
                let ghost grp1 = grp + Seq::new((tree@.len() - t0.len()) as nat, |i: int| exp.len() as int);
                if hit {
                    proof {
                        if dfs {
                            assert(u == f_before[f_before.len() - 1]);
                            lemma_dfs_hit(keys@, adj@, *f, rk, root, t0, tree@, f_before, exp, expos, st, en, grp, fpos, u);
                        }
                        if bfs {
                            let tt = tree@;
                            let tgt = tt[tt.len() - 1].1;
                            assert(key_visited(keys@, visited_indices(visited), tgt));
                            assert(keys@.contains(tgt)) by {
                                let z = choose|z: usize| #[trigger] visited_indices(visited).contains(z) && (z as int) < keys@.len() && keys@[z as int] == tgt;
                                assert(keys@[z as int] == tgt);
                            }
                            assert forall|q: Seq<(K, K, E)>| #[trigger] is_walk(keys@, adj@, q, rk, tgt) && !blocked(*f, q) implies q.len() >= depth(tt, tgt) by {
                                if q.len() <= du {
                                    lemma_bfs_prefix(keys@, adj@, *f, t0, v0, f_before, h0 as int, cur, du, root, q, tgt, q.len() - 1);
                                }
                            }
                        }
                    }
                    return true;
                }
                proof {
                    lemma_visited_len(visited_indices(visited), n);
                    assert forall|i: int| head <= i < frontier@.len() implies #[trigger] reached_node(keys@, rk, tree@, frontier@[i]) by {
                        assert(reached_node(keys@, rk, t0, frontier@[i]));
                        if keys@[frontier@[i] as int] != rk {
                            lemma_reached_extends(tree@, t0, keys@[frontier@[i] as int]);
                        }
                    }
                }
                let mut k: usize = 0;
                while k < newly.len()
                    invariant
                        k <= newly@.len(),
                        head <= fv.len(),
                        frontier@ == fv + newly@.subrange(0, k as int),
                        forall|i: int| 0 <= i < newly@.len() ==> #[trigger] reached_node(keys@, rk, tree@, newly@[i]),
                        forall|i: int| head <= i < frontier@.len() ==> #[trigger] reached_node(keys@, rk, tree@, frontier@[i]),
                    decreases newly@.len() - k,
                {
                    let j = newly[k];
                    assert(reached_node(keys@, rk, tree@, newly@[k as int]));
                    frontier.push(j);
                    proof {
                        assert(newly@.subrange(0, k + 1) == newly@.subrange(0, k as int).push(j));
                    }
                    k = k + 1;
                }
                proof {
                    assert(newly@.subrange(0, newly@.len() as int) == newly@);
                    let v2 = visited_indices(visited);
                    if first_only {
                        assert(fv.len() == 0);
                        if newly@.len() == 0 {
                            last = u;
                            assert(frontier@.len() == 0);
                        } else {
                            assert(frontier@[0] == newly@[0]);
                        }
                    }
                    if !first_only {
                        if lifo {
                            assert(fv == f_before.drop_last());
                        }
                        lemma_after_expand(keys@, adj@, *f, v0, v2, f_before, h0 as int, frontier@, head as int, u, newly@, root, lifo);
                    }
                    if bfs {
                        assert(fv == f_before);
                        assert(frontier@ == f_before + newly@);
                        assert forall|q: int| h0 < q < f_before.len() implies v0.contains(#[trigger] f_before[q]) by {}
                        lemma_bfs_step(keys@, adj@, *f, t0, tree@, v0, v2, f_before, newly@, h0 as int, cur, du);
                        assert forall|i: int| 1 <= i < frontier@.len() implies v2.contains(#[trigger] frontier@[i]) by {
                            if i < f_before.len() {
                                assert(frontier@[i] == f_before[i]);
                            } else {
                                assert(frontier@[i] == newly@[i - f_before.len()]);
                            }
                        }
                        assert(frontier@[0] == root);
                        if h0 == 0 {
                            assert(t0.len() == 0);
                            assert(u == root);
                            assert(bounded_edges(keys@, adj@, *f, tree@, v2, root));
                            assert forall|k: int| #![trigger adj@[root as int]@[k]] 0 <= k < adj@[root as int]@.len() implies !keys@.contains(adj@[root as int]@[k].0)
                                || call_ensures(*f, (keys@[root as int], adj@[root as int]@[k].0, adj@[root as int]@[k].1), false) || (key_visited(
                                keys@,
                                v2,
                                adj@[root as int]@[k].0,
                            ) && depth(tree@, adj@[root as int]@[k].0) <= 1) by {
                                assert(edge_bounded(keys@, *f, tree@, v2, keys@[root as int], adj@[root as int]@[k]));
                            }
                        } else {
                            assert forall|k: int| #![trigger adj@[root as int]@[k]] 0 <= k < adj@[root as int]@.len() implies !keys@.contains(adj@[root as int]@[k].0)
                                || call_ensures(*f, (keys@[root as int], adj@[root as int]@[k].0, adj@[root as int]@[k].1), false) || (key_visited(
                                keys@,
                                v2,
                                adj@[root as int]@[k].0,
                            ) && depth(tree@, adj@[root as int]@[k].0) <= 1) by {
                                let x = adj@[root as int]@[k].0;
                                if keys@.contains(x) && !call_ensures(*f, (keys@[root as int], x, adj@[root as int]@[k].1), false) {
                                    let z = choose|z: usize| #[trigger] v0.contains(z) && (z as int) < keys@.len() && keys@[z as int] == x;
                                    assert(v2.contains(z));
                                }
                            }
                        }
                        cur = du;
                    }
                    match target {
                        Some(tk) => {
                            if key_visited(keys@, v2, tk) {
                                let j = choose|j: usize| #[trigger] v2.contains(j) && (j as int) < keys@.len() && keys@[j as int] == tk;
                                if !v0.contains(j) {
                                    assert(keys@[j as int] != tk);
                                }
                            }
                        },
                        None => {},
                    }
                    if dfs {
                        assert(fv == f_before.drop_last());
                        assert(frontier@ == fv + newly@);
                        assert(u == f_before[f_before.len() - 1]);
                        lemma_done_expanded(keys@, adj@, *f, v2, tree@, rk, mark_root, u);
                        lemma_dfs_step(keys@, adj@, *f, rk, root, t0, tree@, f_before, frontier@, newly@, exp, expos, st, en, grp, fpos, u);
                        exp = exp1;
                        expos = expos1;
                        st = st1;
                        en = en1;
                        grp = grp1;
                        fpos = fpos.drop_last() + Seq::new(newly@.len(), |q: int| t0.len() + q);
                    }
                }
            }
        },
    }
}

/// One more edge of `t` changes the depth of its end only.
proof fn lemma_depth_take<K, E>(t: Seq<(K, K, E)>, n: int, k: K)
    requires
        0 <= n < t.len(),
    ensures
        depth(t.take(n + 1), k) == if t[n].1 == k {
            1 + depth(t.take(n), t[n].0)
        } else {
            depth(t.take(n), k)
        },
{
    assert(t.take(n + 1).drop_last() =~= t.take(n));
    assert(t.take(n + 1).last() == t[n]);
}

/// The edges found walking `t` back from position `j` towards its start,
/// each the latest one before the previous that ends at the node the
/// previous one leaves; `k` is the node the walk has arrived at.
pub open spec fn back_from<K, E>(t: Seq<(K, K, E)>, j: int, k: K) -> Seq<(K, K, E)>
    decreases j,
{
    if j <= 0 {
        Seq::empty()
    } else if t[j - 1].1 == k {
        seq![t[j - 1]] + back_from(t, j - 1, t[j - 1].0)
    } else {
        back_from(t, j - 1, k)
    }
}

/// The path from where `t` starts to its last edge: the last edge, and
/// before it, found walking back, the latest earlier edge that ends where
/// the one after it starts.
pub open spec fn backtracked<K, E>(t: Seq<(K, K, E)>) -> Seq<(K, K, E)> {
    (seq![t[t.len() - 1]] + back_from(t, t.len() - 1, t[t.len() - 1].0)).reverse()
}

/// The path through an edge tree to its last edge: the last edge, preceded
/// by the latest earlier edge ending where it starts, and so on back to an
/// edge no earlier edge leads to. When every edge of `t` starts at `root`
/// or at the end of an earlier edge, the path starts at `root`; when no two
/// edges of `t` end at the same node, no two of the path's do.
pub fn backtrack<K: Copy + PartialEq, E: Copy>(t: &Vec<(K, K, E)>) -> (r: Vec<(K, K, E)>)
    requires
        keys_compare::<K>(),
        t@.len() > 0,
    ensures
        r@.len() > 0,
        r@[r@.len() - 1] == t@[t@.len() - 1],
        chained(r@),
        edges_from(r@, t@),
        forall|root: K| #[trigger] rooted(t@, root) ==> r@[0].0 == root,
        distinct_targets(t@) ==> distinct_targets(r@),
        r@.len() == depth(t@, t@[t@.len() - 1].1),
        r@ == backtracked(t@),
{
    let n = t.len();
    let mut rev: Vec<(K, K, E)> = Vec::new();
    rev.push(t[n - 1]);
    let ghost mut pos: int = n - 1;
    let ghost mut ix: Seq<int> = seq![n - 1];
    let mut j: usize = n - 1;
    proof {
        lemma_depth_take(t@, n - 1, t@[n - 1].1);
        assert(t@.take(n as int) =~= t@);
    }
    while j > 0
        invariant
            keys_compare::<K>(),
            n == t@.len(),
            rev@.len() >= 1,
            rev@[0] == t@[n - 1],
            0 <= j <= pos < n,
            t@[pos] == rev@[rev@.len() - 1],
            forall|q: int| j <= q < pos ==> t@[q].1 != rev@[rev@.len() - 1].0,
            forall|m: int| #![trigger rev@[m]] 0 <= m < rev@.len() - 1 ==> rev@[m + 1].1 == rev@[m].0,
            forall|m: int| #![trigger rev@[m]] 0 <= m < rev@.len() ==> t@.contains(rev@[m]),
            ix.len() == rev@.len(),
            ix[ix.len() - 1] == pos,
            forall|m: int| #![trigger ix[m]] 0 <= m < ix.len() ==> 0 <= ix[m] < n && t@[ix[m]] == rev@[m],
            forall|a: int, b: int| #![trigger ix[a], ix[b]] 0 <= a < b < ix.len() ==> ix[b] < ix[a],
            rev@.len() + depth(t@.take(j as int), rev@[rev@.len() - 1].0) == depth(t@, t@[n - 1].1),
            rev@ + back_from(t@, j as int, rev@[rev@.len() - 1].0) == seq![t@[n - 1]] + back_from(t@, n - 1, t@[n - 1].0),
        decreases j,
    {
        let ghost r0 = rev@;
        let ghost j0 = j as int;
        j = j - 1;
        let s = rev[rev.len() - 1].0;
        proof {
            lemma_depth_take(t@, j as int, s);
        }
        if key_eq(&t[j].1, &s) {
            rev.push(t[j]);
            proof {
                pos = j as int;
                ix = ix.push(j as int);
                assert(back_from(t@, j0, s) == seq![t@[j as int]] + back_from(t@, j as int, t@[j as int].0));
                assert(rev@ + back_from(t@, j as int, rev@[rev@.len() - 1].0) =~= r0 + back_from(t@, j0, s));
            }
        } else {
            proof {
                assert(back_from(t@, j0, s) == back_from(t@, j as int, s));
            }
        }
    }
    proof {
        assert(t@.take(0) =~= Seq::<(K, K, E)>::empty());
        assert(depth(t@.take(0), rev@[rev@.len() - 1].0) == 0);
        assert forall|root: K| #[trigger] rooted(t@, root) implies rev@[rev@.len() - 1].0 == root by {
            assert(t@[pos].0 == root || reached_before(t@, pos, t@[pos].0));
            if t@[pos].0 != root {
                let q = choose|q: int| #![trigger t@[q]] 0 <= q < pos && q < t@.len() && t@[q].1 == t@[pos].0;
                assert(t@[q].1 != rev@[rev@.len() - 1].0);
            }
        }
        assert forall|a: int, b: int| #![trigger rev@[a], rev@[b]] distinct_targets(t@) && 0 <= a < b < rev@.len() implies rev@[a].1
            != rev@[b].1 by {
            assert(ix[b] < ix[a]);
            assert(t@[ix[a]] == rev@[a]);
            assert(t@[ix[b]] == rev@[b]);
        }
    }
    let mut r: Vec<(K, K, E)> = Vec::new();
    let mut k: usize = rev.len();
    while k > 0
        invariant
            k <= rev@.len(),
            r@.len() == rev@.len() - k,
            forall|m: int| #![trigger r@[m]] 0 <= m < r@.len() ==> r@[m] == rev@[rev@.len() - 1 - m],
        decreases k,
    {
        k = k - 1;
        r.push(rev[k]);
    }
    proof {
        assert(back_from(t@, 0, rev@[rev@.len() - 1].0) == Seq::<(K, K, E)>::empty());
        assert(rev@ =~= seq![t@[n - 1]] + back_from(t@, n - 1, t@[n - 1].0));
        assert(r@ =~= rev@.reverse());
        assert forall|m: int| #![trigger r@[m]] 0 <= m < r@.len() - 1 implies r@[m].1 == r@[m + 1].0 by {
            assert(r@[m] == rev@[rev@.len() - 1 - m]);
            assert(r@[m + 1] == rev@[rev@.len() - 1 - (m + 1)]);
            assert(rev@[(rev@.len() - 2 - m) + 1].1 == rev@[rev@.len() - 2 - m].0);
        }
        assert forall|m: int| #![trigger r@[m]] 0 <= m < r@.len() implies t@.contains(r@[m]) by {
            assert(r@[m] == rev@[rev@.len() - 1 - m]);
        }
        assert(r@[0] == rev@[rev@.len() - 1]);
        assert(r@[r@.len() - 1] == rev@[0]);
        if distinct_targets(t@) {
            assert forall|a: int, b: int| #![trigger r@[a], r@[b]] 0 <= a < b < r@.len() implies r@[a].1 != r@[b].1 by {
                assert(r@[a] == rev@[rev@.len() - 1 - a]);
                assert(r@[b] == rev@[rev@.len() - 1 - b]);
                assert(rev@[rev@.len() - 1 - b].1 != rev@[rev@.len() - 1 - a].1);
            }
        }
    }
    r
}

/// An edge tree of a search, through `backtrack`, gives a walk of the
/// snapshot from the root to the end of the tree's last edge.
pub proof fn lemma_backtrack_walk<K, E, F: Fn(K, K, E) -> bool>(
    keys: Seq<K>,
    adj: Seq<Vec<(K, E)>>,
    root: K,
    f: F,
    t: Seq<(K, K, E)>,
    p: Seq<(K, K, E)>,
)
    requires
        is_tree(keys, adj, root, f, t),
        t.len() > 0,
        p.len() > 0,
        p[0].0 == root,
        p[p.len() - 1] == t[t.len() - 1],
        chained(p),
        edges_from(p, t),
    ensures
        is_walk(keys, adj, p, root, t[t.len() - 1].1),
        forall|j: int| #![trigger p[j]] 0 <= j < p.len() ==> accepts(f, p[j].0, p[j].1, p[j].2),
{
    assert forall|j: int| #![trigger p[j]] 0 <= j < p.len() implies is_step(keys, adj, p[j].0, p[j].1, p[j].2)
        && accepts(f, p[j].0, p[j].1, p[j].2) by {
        assert(t.contains(p[j]));
        let q = choose|q: int| 0 <= q < t.len() && t[q] == p[j];
        assert(t[q] == p[j]);
    }
}

/// The nodes along a walk.
pub fn walk_keys<K: Copy, E: Copy>(p: &Vec<(K, K, E)>) -> (r: Vec<K>)
    ensures
        r@ == walk_nodes(p@),
{
    let mut r: Vec<K> = Vec::new();
    if p.len() == 0 {
        return r;
    }
    r.push(p[0].0);
    let mut i: usize = 0;
    while i < p.len()
        invariant
            i <= p@.len(),
            p@.len() > 0,
            r@ == seq![p@[0].0] + p@.subrange(0, i as int).map_values(|x: (K, K, E)| x.1),
        decreases p@.len() - i,
    {
        r.push(p[i].1);
        proof {
            assert(p@.subrange(0, i + 1).map_values(|x: (K, K, E)| x.1) == p@.subrange(0, i as int).map_values(
                |x: (K, K, E)| x.1,
            ).push(p@[i as int].1));
        }
        i = i + 1;
    }
    proof {
        assert(p@.subrange(0, p@.len() as int) == p@);
    }
    r
}

/// A graph as searches see it: node `i` has key `keys[i]`, rank `rank[i]`
/// (used by the priority searches) and may be left along the pairs of
/// `adj[i]`.
pub struct Snapshot<K, E> {
    keys: Vec<K>,
    adj: Vec<Vec<(K, E)>>,
    rank: Vec<usize>,
}

impl<K: Copy + PartialEq, E: Copy> Snapshot<K, E> {
    /// The node keys.
    pub closed spec fn keys(&self) -> Seq<K> {
        self.keys@
    }

    /// The edges that may be followed from each node.
    pub closed spec fn adj(&self) -> Seq<Vec<(K, E)>> {
        self.adj@
    }

    /// The node ranks.
    pub closed spec fn ranks(&self) -> Seq<usize> {
        self.rank@
    }

    /// One entry per node in each list.
    pub open spec fn wf(&self) -> bool {
        self.adj().len() == self.keys().len() && self.ranks().len() == self.keys().len()
    }

    /// `(u, v, e)` is an edge of the snapshot.
    pub open spec fn step(&self, u: K, v: K, e: E) -> bool {
        is_step(self.keys(), self.adj(), u, v, e)
    }

    /// A snapshot of the given lists.
    pub fn from_parts(keys: Vec<K>, adj: Vec<Vec<(K, E)>>, rank: Vec<usize>) -> (s: Self)
        requires
            adj@.len() == keys@.len(),
            rank@.len() == keys@.len(),
        ensures
            s.keys() == keys@,
            s.adj() == adj@,
            s.ranks() == rank@,
            s.wf(),
    {
        Snapshot { keys, adj, rank }
    }

    /// Number of nodes.
    pub fn len(&self) -> (r: usize)
        ensures
            r == self.keys().len(),
    {
        self.keys.len()
    }

    /// The key list and the adjacency lists.
    pub fn lists(&self) -> (r: (&Vec<K>, &Vec<Vec<(K, E)>>))
        ensures
            r.0@ == self.keys(),
            r.1@ == self.adj(),
    {
        (&self.keys, &self.adj)
    }

    /// Index of the node with key `k`.
    pub fn index_of(&self, k: &K) -> (r: Option<usize>)
        requires
            keys_compare::<K>(),
        ensures
            match r {
                Some(i) => i < self.keys().len() && self.keys()[i as int] == *k,
                None => !self.keys().contains(*k),
            },
    {
        index_of_key(&self.keys, k)
    }

    /// Runs `search` on this snapshot from the node with key `root` (no
    /// edge is followed when there is none), the root counting as reached
    /// from the start when `mark_root`.
    pub fn run<F: Fn(K, K, E) -> bool>(
        &self,
        strategy: Strategy,
        root: &K,
        target: Option<K>,
        f: &F,
        mark_root: bool,
    ) -> (r: (bool, Vec<(K, K, E)>))
        requires
            keys_compare::<K>(),
            self.wf(),
            forall|a: K, b: K, c: E| f.requires((a, b, c)),
        ensures
            is_tree(self.keys(), self.adj(), *root, *f, r.1@),
            r.0 ==> target is Some && r.1@.len() > 0 && r.1@[r.1@.len() - 1].1 == target->0,
            target is None ==> !r.0,
            !self.keys().contains(*root) ==> r.1@.len() == 0 && !r.0,
            self.keys().no_duplicates() ==> distinct_targets(r.1@),
            self.keys().no_duplicates() && mark_root ==> forall|q: int| #![trigger r.1@[q]] 0 <= q < r.1@.len() ==> r.1@[q].1 != *root,
            r.0 && strategy == Strategy::Breadth && self.keys().no_duplicates() && (mark_root || no_loop_at(self.keys(), self.adj(), *root))
                ==> none_shorter(self.keys(), self.adj(), *f, *root, r.1@[r.1@.len() - 1].1, depth(r.1@, r.1@[r.1@.len() - 1].1) as int),
            self.keys().no_duplicates() && (strategy == Strategy::PriorityMin || strategy == Strategy::PriorityMax) ==> priority_ordered(
                self.keys(),
                self.adj(),
                self.ranks(),
                *f,
                *root,
                r.1@,
                strategy == Strategy::PriorityMin,
            ),
            self.keys().no_duplicates() && strategy == Strategy::Depth ==> stack_ordered(self.keys(), self.adj(), *f, *root, r.1@)
                && groups_complete(self.keys(), self.adj(), *f, *root, r.1@),
            self.keys().no_duplicates() && strategy == Strategy::Recursive ==> recursive_ordered(
                self.keys(),
                self.adj(),
                accepted_by(*f),
                refused_by(*f),
                *root,
                mark_root,
                r.1@,
            ),
            self.keys().no_duplicates() && (strategy == Strategy::PriorityMin || strategy == Strategy::PriorityMax) ==> groups_complete(
                self.keys(),
                self.adj(),
                *f,
                *root,
                r.1@,
            ),
            strategy == Strategy::DepthFirstEdge && self.keys().no_duplicates() ==> first_edges(
                self.keys(),
                self.adj(),
                *f,
                r.1@,
                *root,
                mark_root,
            ),
            !r.0 && strategy == Strategy::DepthFirstEdge && self.keys().no_duplicates() && self.keys().contains(*root) ==> ends_stuck(
                self.keys(),
                self.adj(),
                *f,
                r.1@,
                *root,
                mark_root,
            ),
            !r.0 && strategy != Strategy::DepthFirstEdge && self.keys().contains(*root) ==> exists|i: usize, vis: Set<usize>|
                (i as int) < self.keys().len() && self.keys()[i as int] == *root && #[trigger] closed_search(
                    self.keys(),
                    self.adj(),
                    *f,
                    i,
                    target,
                    mark_root,
                    vis,
                ),
    {
        let mut tree: Vec<(K, K, E)> = Vec::new();
        match index_of_key(&self.keys, root) {
            Some(i) => {
                let found = search(&self.keys, &self.adj, &self.rank, strategy, i, target, f, &mut tree, mark_root);
                proof {
                    if !found && strategy != Strategy::DepthFirstEdge {
                        let vis = choose|vis: Set<usize>| closed_search(self.keys(), self.adj(), *f, i, target, mark_root, vis);
                        assert(closed_search(self.keys(), self.adj(), *f, i, target, mark_root, vis));
                    }
                    if !found && strategy == Strategy::DepthFirstEdge && self.keys().no_duplicates() {
                        assert(self.keys()[i as int] == *root);
                    }
                    assert(self.keys()[i as int] == *root);
                    if found && strategy == Strategy::Breadth && self.keys().no_duplicates() {
                        assert(self.keys()[i as int] == *root);
                        if !mark_root && no_loop_at(self.keys(), self.adj(), *root) {
                            assert forall|e: E| !self.adj@[i as int]@.contains((self.keys@[i as int], e)) by {
                                assert(!self.adj()[i as int]@.contains((*root, e)));
                            }
                        }
                    }
                }
                (found, tree)
            },
            None => {
                proof {
                    assert(!self.keys().contains(*root));
                    reveal(recursive_ordered);
                }
                (false, tree)
            },
        }
    }
}

impl<K: Copy + PartialEq, E: Copy> Snapshot<K, E> {
    /// Searches from `root` for `target` (the root counting as reached from
    /// the start when `mark_root`) and returns the path through the edge
    /// tree to it: a walk of the snapshot from `root` to `target` along
    /// edges accepted by `f`. With distinct keys, no two of its edges end at
    /// the same node; it passes no node twice when `mark_root`, and, from
    /// `root` back to `root`, none but `root` itself.
    pub fn walk_to<F: Fn(K, K, E) -> bool>(
        &self,
        strategy: Strategy,
        root: &K,
        target: &K,
        f: &F,
        mark_root: bool,
    ) -> (r: Option<Vec<(K, K, E)>>)
        requires
            keys_compare::<K>(),
            self.wf(),
            forall|a: K, b: K, c: E| f.requires((a, b, c)),
        ensures
            r matches Some(p) ==> is_walk(self.keys(), self.adj(), p@, *root, *target)
                && forall|j: int| #![trigger p@[j]] 0 <= j < p@.len() ==> accepts(*f, p@[j].0, p@[j].1, p@[j].2),
            !self.keys().contains(*root) ==> r is None,
            self.keys().no_duplicates() ==> (r matches Some(p) ==> distinct_targets(p@)),
            self.keys().no_duplicates() && mark_root ==> (r matches Some(p) ==> walk_nodes(p@).no_duplicates()),
            self.keys().no_duplicates() && *target == *root ==> (r matches Some(p) ==> walk_nodes(p@).drop_last().no_duplicates()),
            strategy == Strategy::Breadth && self.keys().no_duplicates() && (mark_root || no_loop_at(self.keys(), self.adj(), *root)) ==> (
            r matches Some(p) ==> none_shorter(self.keys(), self.adj(), *f, *root, *target, p@.len() as int)),
            strategy == Strategy::Recursive && self.keys().no_duplicates() ==> (r matches Some(p) ==> recursive_path(
                self.keys(),
                self.adj(),
                accepted_by(*f),
                refused_by(*f),
                *root,
                mark_root,
                *target,
                p@,
            )),
            r is None && strategy != Strategy::DepthFirstEdge && self.keys().no_duplicates() && self.keys().contains(*target)
                && !(mark_root && *root == *target) ==> forall|p: Seq<(K, K, E)>| #[trigger]
                is_walk(self.keys(), self.adj(), p, *root, *target) ==> blocked(*f, p),
    {
        let (found, tree) = self.run(strategy, root, Some(*target), f, mark_root);
        if found {
            let p = backtrack(&tree);
            proof {
                lemma_backtrack_walk(self.keys(), self.adj(), *root, *f, tree@, p@);
                if self.keys().no_duplicates() && mark_root {
                    assert forall|j: int| #![trigger p@[j]] 0 <= j < p@.len() implies p@[j].1 != p@[0].0 by {
                        assert(tree@.contains(p@[j]));
                        let q = choose|q: int| 0 <= q < tree@.len() && tree@[q] == p@[j];
                        assert(tree@[q].1 != *root);
                    }
                    lemma_walk_nodes_distinct(p@);
                }
                if self.keys().no_duplicates() && *target == *root {
                    lemma_cycle_nodes_distinct(p@);
                }
                if strategy == Strategy::Recursive && self.keys().no_duplicates() {
                    assert(recursive_ordered(self.keys(), self.adj(), accepted_by(*f), refused_by(*f), *root, mark_root, tree@));
                }
            }
            Some(p)
        } else {
            proof {
                if strategy != Strategy::DepthFirstEdge && self.keys().no_duplicates() && self.keys().contains(*target) && !(mark_root
                    && *root == *target) {
                    assert forall|p: Seq<(K, K, E)>| #[trigger] is_walk(self.keys(), self.adj(), p, *root, *target) implies blocked(*f, p) by {
                        if self.keys().contains(*root) {
                            let (i, vis) = choose|i: usize, vis: Set<usize>| (i as int) < self.keys().len() && self.keys()[i as int] == *root
                                && #[trigger] closed_search(self.keys(), self.adj(), *f, i, Some(*target), mark_root, vis);
                            lemma_closed_search_no_walk(self.keys(), self.adj(), *f, i, *target, mark_root, vis, p);
                        } else {
                            assert(is_step(self.keys(), self.adj(), p[0].0, p[0].1, p[0].2));
                            let i = choose|i: int| #![trigger self.adj()[i]] 0 <= i < self.keys().len() && i < self.adj().len() && self.keys()[i] == p[0].0 && self.adj()[i]@.contains((p[0].1, p[0].2));
                            assert(self.keys().contains(*root));
                        }
                    }
                }
            }
            None
        }
    }
}

/// A copy of a list of edges.
pub fn copy_triples<K: Copy, E: Copy>(v: &Vec<(K, K, E)>) -> (r: Vec<(K, K, E)>)
    ensures
        r@ == v@,
{
    let mut r: Vec<(K, K, E)> = Vec::new();
    let mut i: usize = 0;
    while i < v.len()
        invariant
            i <= v@.len(),
            r@ == v@.subrange(0, i as int),
        decreases v@.len() - i,
    {
        r.push(v[i]);
        proof {
            assert(v@.subrange(0, i + 1) == v@.subrange(0, i as int).push(v@[i as int]));
        }
        i = i + 1;
    }
    proof {
        assert(v@.subrange(0, v@.len() as int) == v@);
    }
    r
}

} // verus!
