//! Strongly connected components of a directed graph: nodes are ordered by
//! post-order listings of the graph, then taken from the last; each one not
//! yet assigned starts a component, the cycle back to it found by a
//! depth-first search along inbound edges through unassigned nodes, or the
//! node alone when there is none.
use vstd::prelude::*;
use ahash::AHashSet;
use crate::keys_compare;
use crate::adjacent::has_key;
use crate::digraph::{Graph, NodeModel, keys_of};
use crate::search::{
    Snapshot, Strategy, index_of_key, visited_indices, visited_new, visited_insert, visited_contains, walk_keys,
    walk_nodes, is_walk, is_step, key_visited, accepts, distinct_targets, chained, blocked, recursive_path, lemma_recursive_path_filters,
    accepted_by, refused_by, law_recursive_path_unique, lemma_recursive_path_same_lists,
};
use crate::order::{Order, discovery};

verus! {

broadcast use vstd::set::group_set_axioms, vstd::seq_lib::group_seq_properties;

/// The node with key `u` records an inbound edge from `v`.
pub open spec fn in_link<K, N, E>(g: Seq<NodeModel<K, N, E>>, u: K, v: K) -> bool {
    exists|m: int| 0 <= m < g.len() && g[m].0 == u && #[trigger] has_key(g[m].3, v)
}

/// Read along inbound records, `c` is a cycle: each node records an
/// inbound edge from the next one, and the last from the first.
pub open spec fn inbound_cycle<K, N, E>(g: Seq<NodeModel<K, N, E>>, c: Seq<K>) -> bool {
    &&& c.len() > 0
    &&& forall|i: int| 0 <= i < c.len() - 1 ==> #[trigger] in_link(g, c[i], c[i + 1])
    &&& in_link(g, c[c.len() - 1], c[0])
}

/// A component: one node, or a cycle along inbound records.
pub open spec fn component_ok<K, N, E>(g: Seq<NodeModel<K, N, E>>, c: Seq<K>) -> bool {
    c.len() == 1 || inbound_cycle(g, c)
}

/// The indices held by the visited set behind `s`.
spec fn held(s: &AHashSet<usize>) -> Set<usize> {
    visited_indices(*s)
}

/// No key is in two of the components.
pub open spec fn disjoint_comps<K>(comps: Seq<Vec<K>>) -> bool {
    forall|a: int, b: int, x: K| 0 <= a < b < comps.len() && #[trigger] comps[a]@.contains(x) ==> !#[trigger] comps[b]@.contains(x)
}

/// Some component holds `k`.
pub open spec fn assigned<K>(comps: Seq<Vec<K>>, k: K) -> bool {
    exists|c: int| 0 <= c < comps.len() && #[trigger] comps[c]@.contains(k)
}

/// The node after position `i` of the cycle `cy`.
pub open spec fn next_on<K>(cy: Seq<K>, i: int) -> K {
    if i + 1 < cy.len() {
        cy[i + 1]
    } else {
        cy[0]
    }
}

/// A component made of one node with no inbound record from itself lies on
/// no cycle along inbound records all of whose nodes were unassigned when
/// it was formed: every such cycle through it holds a node of an earlier
/// component.
pub open spec fn alone_ok<K, N, E>(g: Seq<NodeModel<K, N, E>>, comps: Seq<Vec<K>>, c: int) -> bool {
    comps[c]@.len() == 1 && !in_link(g, comps[c]@[0], comps[c]@[0]) ==> forall|cy: Seq<K>|
        #[trigger] inbound_cycle(g, cy) && cy[0] == comps[c]@[0] ==> exists|m: int| 0 <= m < cy.len() && assigned(comps.take(c), cy[m])
}

/// `adj` holds, for each node of `g`, its inbound records.
pub open spec fn inbound_lists<K, N, E>(g: Seq<NodeModel<K, N, E>>, adj: Seq<Vec<(K, E)>>) -> bool {
    adj.len() == g.len() && forall|i: int| 0 <= i < g.len() ==> #[trigger] adj[i]@ == g[i].3
}

/// Edges to a node that one of the components `done` holds.
pub open spec fn into_comps<K, E>(done: Seq<Vec<K>>) -> spec_fn(K, K, E) -> bool {
    |u: K, v: K, e: E| assigned(done, v)
}

/// Edges to a node that none of the components `done` holds.
pub open spec fn outside_comps<K, E>(done: Seq<Vec<K>>) -> spec_fn(K, K, E) -> bool {
    |u: K, v: K, e: E| !assigned(done, v)
}

/// Component `c` is what the search from its first node gives: that node
/// alone, when it has no inbound record from itself, or the nodes of the
/// cycle back to it that a recursive depth-first search along inbound
/// records finds, through nodes of no earlier component, each edge list
/// taken in order.
pub open spec fn dfs_formed<K, N, E>(g: Seq<NodeModel<K, N, E>>, comps: Seq<Vec<K>>, c: int) -> bool {
    ||| comps[c]@.len() == 1 && !in_link(g, comps[c]@[0], comps[c]@[0])
    ||| dfs_cycle_formed(g, comps, c)
}

/// Component `c` holds the nodes of the cycle back to its first node that
/// a recursive depth-first search along inbound records finds, through
/// nodes of no earlier component, each edge list taken in order.
pub open spec fn dfs_cycle_formed<K, N, E>(g: Seq<NodeModel<K, N, E>>, comps: Seq<Vec<K>>, c: int) -> bool {
    exists|adj: Seq<Vec<(K, E)>>, p: Seq<(K, K, E)>|
        #![trigger inbound_lists(g, adj), walk_nodes(p)]
        inbound_lists(g, adj) && recursive_path(
            keys_of(g),
            adj,
            outside_comps::<K, E>(comps.take(c)),
            into_comps::<K, E>(comps.take(c)),
            comps[c]@[0],
            false,
            comps[c]@[0],
            p,
        ) && comps[c]@ == walk_nodes(p).drop_last()
}

/// The component the search from a node forms along a cycle is
/// determined by the graph and the components formed before it: two lists
/// of components that agree before position `c`, whose components at `c`
/// start at the same node and were both formed by the depth-first cycle
/// search, hold the same component there.
pub proof fn law_scc_cycle_component_determined<K, N, E>(
    g: Seq<NodeModel<K, N, E>>,
    comps1: Seq<Vec<K>>,
    comps2: Seq<Vec<K>>,
    c: int,
)
    requires
        keys_of(g).no_duplicates(),
        0 <= c < comps1.len(),
        c < comps2.len(),
        comps1.take(c) == comps2.take(c),
        comps1[c]@.len() > 0,
        comps2[c]@.len() > 0,
        comps1[c]@[0] == comps2[c]@[0],
        keys_of(g).contains(comps1[c]@[0]),
        dfs_cycle_formed(g, comps1, c),
        dfs_cycle_formed(g, comps2, c),
    ensures
        comps1[c]@ == comps2[c]@,
{
    let r = comps1[c]@[0];
    let (adj1, p1) = choose|adj: Seq<Vec<(K, E)>>, p: Seq<(K, K, E)>|
        #![trigger inbound_lists(g, adj), walk_nodes(p)]
        inbound_lists(g, adj) && recursive_path(
            keys_of(g),
            adj,
            outside_comps::<K, E>(comps1.take(c)),
            into_comps::<K, E>(comps1.take(c)),
            r,
            false,
            r,
            p,
        ) && comps1[c]@ == walk_nodes(p).drop_last();
    let (adj2, p2) = choose|adj: Seq<Vec<(K, E)>>, p: Seq<(K, K, E)>|
        #![trigger inbound_lists(g, adj), walk_nodes(p)]
        inbound_lists(g, adj) && recursive_path(
            keys_of(g),
            adj,
            outside_comps::<K, E>(comps2.take(c)),
            into_comps::<K, E>(comps2.take(c)),
            r,
            false,
            r,
            p,
        ) && comps2[c]@ == walk_nodes(p).drop_last();
    let acc = outside_comps::<K, E>(comps1.take(c));
    let refd = into_comps::<K, E>(comps1.take(c));
    assert(keys_of(g).len() == g.len());
    assert forall|i: int| 0 <= i < keys_of(g).len() implies #[trigger] adj2[i]@ == adj1[i]@ by {
        assert(adj1[i]@ == g[i].3);
        assert(adj2[i]@ == g[i].3);
    }
    lemma_recursive_path_same_lists(keys_of(g), adj2, adj1, acc, refd, r, false, r, p2);
    law_recursive_path_unique(keys_of(g), adj1, acc, refd, r, false, r, p1, p2);
}

/// Adding a component keeps what `dfs_formed` says of the earlier ones.
proof fn lemma_dfs_formed_push<K, N, E>(g: Seq<NodeModel<K, N, E>>, c0: Seq<Vec<K>>, x: Vec<K>)
    requires
        forall|c: int| 0 <= c < c0.len() ==> #[trigger] dfs_formed(g, c0, c),
    ensures
        forall|c: int| 0 <= c < c0.len() ==> #[trigger] dfs_formed(g, c0.push(x), c),
{
    assert forall|c: int| 0 <= c < c0.len() implies #[trigger] dfs_formed(g, c0.push(x), c) by {
        assert(c0.push(x)[c] == c0[c]);
        assert(c0.push(x).take(c) =~= c0.take(c));
        assert(dfs_formed(g, c0, c));
    }
}

/// Adding a component keeps what `alone_ok` says of the earlier ones.
proof fn lemma_alone_ok_push<K, N, E>(g: Seq<NodeModel<K, N, E>>, c0: Seq<Vec<K>>, x: Vec<K>)
    requires
        forall|c: int| 0 <= c < c0.len() ==> #[trigger] alone_ok(g, c0, c),
    ensures
        forall|c: int| 0 <= c < c0.len() ==> #[trigger] alone_ok(g, c0.push(x), c),
{
    assert forall|c: int| 0 <= c < c0.len() implies #[trigger] alone_ok(g, c0.push(x), c) by {
        assert(c0.push(x)[c] == c0[c]);
        assert(c0.push(x).take(c) =~= c0.take(c));
        assert(alone_ok(g, c0, c));
    }
}

/// A cycle along inbound records is a closed walk of the transposed
/// snapshot.
proof fn lemma_cycle_walk<K: Copy + PartialEq, N, E: Copy>(g: Seq<NodeModel<K, N, E>>, t: Snapshot<K, E>, cy: Seq<K>) -> (p: Seq<(K, K, E)>)
    requires
        t.wf(),
        t.keys() == keys_of(g),
        forall|i: int| 0 <= i < g.len() ==> #[trigger] t.adj()[i]@ == g[i].3,
        inbound_cycle(g, cy),
    ensures
        is_walk(t.keys(), t.adj(), p, cy[0], cy[0]),
        p.len() == cy.len(),
        forall|j: int| 0 <= j < p.len() ==> #[trigger] p[j].1 == next_on(cy, j),
{
    let p = Seq::new(
        cy.len(),
        |i: int| (cy[i], next_on(cy, i), choose|e: E| is_step(t.keys(), t.adj(), cy[i], next_on(cy, i), e)),
    );
    assert forall|j: int| #![trigger p[j]] 0 <= j < p.len() implies is_step(t.keys(), t.adj(), p[j].0, p[j].1, p[j].2) by {
        assert(in_link(g, cy[j], next_on(cy, j))) by {
            if j + 1 < cy.len() {
                assert(in_link(g, cy[j], cy[j + 1]));
            }
        }
        let m = choose|m: int| 0 <= m < g.len() && g[m].0 == cy[j] && #[trigger] has_key(g[m].3, next_on(cy, j));
        let k = choose|k: int| 0 <= k < g[m].3.len() && g[m].3[k].0 == next_on(cy, j);
        let e = g[m].3[k].1;
        assert(t.keys()[m] == g[m].0);
        assert(t.adj()[m]@ == g[m].3);
        assert(t.adj()[m]@.contains((next_on(cy, j), e))) by {
            assert(t.adj()[m]@[k] == (next_on(cy, j), e));
        }
        assert(is_step(t.keys(), t.adj(), cy[j], next_on(cy, j), e));
    }
    assert(chained(p)) by {
        assert forall|j: int| #![trigger p[j]] 0 <= j < p.len() - 1 implies p[j].1 == p[j + 1].0 by {}
    }
    p
}

/// A closed walk along inbound records, without its last node, is a
/// cycle along inbound records.
proof fn lemma_walk_cycle<K: Copy + PartialEq, N, E: Copy>(g: Seq<NodeModel<K, N, E>>, t: Snapshot<K, E>, p: Seq<(K, K, E)>, root: K)
    requires
        t.wf(),
        t.keys() == keys_of(g),
        forall|i: int| 0 <= i < g.len() ==> #[trigger] t.adj()[i]@ == g[i].3,
        is_walk(t.keys(), t.adj(), p, root, root),
    ensures
        inbound_cycle(g, walk_nodes(p).drop_last()),
        walk_nodes(p).drop_last()[0] == root,
        walk_nodes(p).drop_last().len() == p.len(),
        forall|i: int| 0 <= i < p.len() ==> #[trigger] walk_nodes(p).drop_last()[i] == p[i].0,
{
    let w = walk_nodes(p);
    let c = w.drop_last();
    assert(c.len() == p.len());
    assert forall|i: int| 0 <= i < p.len() implies #[trigger] in_link(g, p[i].0, p[i].1) by {
        assert(is_step(t.keys(), t.adj(), p[i].0, p[i].1, p[i].2));
        let m = choose|m: int| #![trigger t.adj()[m]] 0 <= m < t.keys().len() && m < t.adj().len() && t.keys()[m] == p[i].0
            && t.adj()[m]@.contains((p[i].1, p[i].2));
        assert(t.keys()[m] == g[m].0);
        assert(t.adj()[m]@ == g[m].3);
        let k = choose|k: int| 0 <= k < g[m].3.len() && g[m].3[k] == (p[i].1, p[i].2);
        assert(g[m].3[k].0 == p[i].1);
        assert(has_key(g[m].3, p[i].1));
        assert(m < g.len());
    }
    assert forall|i: int| 0 <= i < c.len() implies #[trigger] c[i] == p[i].0 by {
        if i > 0 {
            assert(w[i] == p[i - 1].1);
        }
    }
    assert forall|i: int| 0 <= i < c.len() - 1 implies #[trigger] in_link(g, c[i], c[i + 1]) by {
        assert(c[i] == p[i].0);
        assert(c[i + 1] == p[i + 1].0);
        assert(p[i].1 == p[i + 1].0);
        assert(in_link(g, p[i].0, p[i].1));
    }
    assert(c[c.len() - 1] == p[p.len() - 1].0);
    assert(in_link(g, p[p.len() - 1].0, p[p.len() - 1].1));
}

impl<K: Copy + PartialEq, N, E: Copy> Graph<K, N, E> {
    /// Every node key, in the order of post-order listings of the graph:
    /// each node not yet listed starts a listing of what it reaches through
    /// nodes not yet listed.
    fn scc_ordering(&self, s: &Snapshot<K, E>) -> (ord: Vec<K>)
        requires
            keys_compare::<K>(),
            s.wf(),
            s.keys().no_duplicates(),
        ensures
            forall|i: int| 0 <= i < s.keys().len() ==> ord@.contains(#[trigger] s.keys()[i]),
            forall|j: int| 0 <= j < ord@.len() ==> s.keys().contains(#[trigger] ord@[j]),
    {
        let (keys, _adj) = s.lists();
        let n = keys.len();
        let mut visited: AHashSet<usize> = visited_new();
        let mut ord: Vec<K> = Vec::new();
        let mut i: usize = 0;
        while i < n
            invariant
                keys_compare::<K>(),
                s.wf(),
                keys@ == s.keys(),
                keys@.no_duplicates(),
                n == keys@.len(),
                i <= n,
                forall|w: usize| #[trigger] visited_indices(visited).contains(w) ==> w < n && ord@.contains(keys@[w as int]),
                forall|w: usize| w < i ==> #[trigger] visited_indices(visited).contains(w),
                forall|j: int| 0 <= j < ord@.len() ==> keys@.contains(#[trigger] ord@[j]),
            decreases n - i,
        {
            if !visited_contains(&visited, i) {
                let vis = &visited;
                let filter = |u: K, v: K, e: E| -> (r: bool)
                    requires
                        keys_compare::<K>(),
                {
                    match index_of_key(keys, &v) {
                        Some(j) => !visited_contains(vis, j),
                        None => true,
                    }
                };
                let part = Order::new(&keys[i]).post().search_nodes_filter(s, &filter);
                proof {
                    assert(keys@.contains(keys@[i as int]));
                    assert(discovery(s.keys(), s.adj(), filter, keys@[i as int], part@.reverse()));
                    assert(part@.reverse()[0] == keys@[i as int]);
                    assert(part@[part@.len() - 1] == keys@[i as int]);
                }
                let ghost o0 = ord@;
                let mut k: usize = 0;
                while k < part.len()
                    invariant
                        keys_compare::<K>(),
                        keys@ == s.keys(),
                        keys@.no_duplicates(),
                        n == keys@.len(),
                        i < n,
                        part@.len() > 0,
                        part@[part@.len() - 1] == keys@[i as int],
                        k <= part@.len(),
                        forall|j: int| 0 <= j < part@.len() ==> keys@.contains(#[trigger] part@[j]),
                        ord@ == o0 + part@.subrange(0, k as int),
                        forall|w: usize| #[trigger] visited_indices(visited).contains(w) ==> w < n && ord@.contains(keys@[w as int]),
                        forall|w: usize| w < i ==> #[trigger] visited_indices(visited).contains(w),
                        forall|j: int| 0 <= j < ord@.len() ==> keys@.contains(#[trigger] ord@[j]),
                        k == part@.len() ==> visited_indices(visited).contains(i),
                    decreases part@.len() - k,
                {
                    let x = part[k];
                    let ghost ob = ord@;
                    ord.push(x);
                    proof {
                        assert(ord@ == o0 + part@.subrange(0, k + 1)) by {
                            assert(part@.subrange(0, k + 1) == part@.subrange(0, k as int).push(x));
                        }
                    }
                    match index_of_key(keys, &x) {
                        Some(j) => {
                            visited_insert(&mut visited, j);
                            proof {
                                assert(ord@[ord@.len() - 1] == x);
                                assert forall|w: usize| #[trigger] visited_indices(visited).contains(w) implies w < n && ord@.contains(keys@[w as int]) by {
                                    if w != j {
                                        assert(ob.contains(keys@[w as int]));
                                        let q = choose|q: int| 0 <= q < ob.len() && ob[q] == keys@[w as int];
                                        assert(ord@[q] == ob[q]);
                                    }
                                }
                                if k + 1 == part@.len() {
                                    assert(x == keys@[i as int]);
                                    assert(j == i) by {
                                        assert(keys@[j as int] == keys@[i as int]);
                                    }
                                }
                            }
                        },
                        None => {
                            proof {
                                assert(keys@.contains(x));
                            }
                        },
                    }
                    proof {
                        assert forall|w: usize| #[trigger] visited_indices(visited).contains(w) implies w < n && ord@.contains(keys@[w as int]) by {
                            if !ob.contains(keys@[w as int]) {
                            } else {
                                let q = choose|q: int| 0 <= q < ob.len() && ob[q] == keys@[w as int];
                                assert(ord@[q] == ob[q]);
                            }
                        }
                        assert forall|j: int| 0 <= j < ord@.len() implies keys@.contains(#[trigger] ord@[j]) by {
                            if j < ob.len() {
                                assert(ord@[j] == ob[j]);
                            }
                        }
                    }
                    k = k + 1;
                }
            }
            i = i + 1;
        }
        proof {
            assert forall|w: int| 0 <= w < keys@.len() implies ord@.contains(#[trigger] keys@[w]) by {
                assert(visited_indices(visited).contains(w as usize));
                assert(keys@[w] == keys@[(w as usize) as int]);
            }
        }
        ord
    }
}

impl<K: Copy + PartialEq, N, E: Copy> Graph<K, N, E> {
    /// The strongly connected components, as lists of node keys: every node
    /// is listed exactly once, and each component is a single node or a
    /// cycle read along inbound records, its first node where the cycle
    /// starts.
    /// A node without an inbound record from itself is left alone only
    /// when every cycle along inbound records through it holds a node of
    /// an earlier component (`alone_ok`).
    /// Each component is its first node alone, when that node has no
    /// inbound record from itself, or the nodes of the cycle back to it
    /// that a recursive depth-first search along inbound records through
    /// nodes of no earlier component finds (`dfs_formed`), which
    /// `law_scc_cycle_component_determined` shows determined.
    pub fn scc(&self) -> (comps: Vec<Vec<K>>)
        requires
            keys_compare::<K>(),
            self.wf(),
        ensures
            forall|c: int| 0 <= c < comps@.len() ==> #[trigger] component_ok(self@, comps@[c]@),
            forall|i: int| 0 <= i < self@.len() ==> assigned(comps@, #[trigger] self@[i].0),
            disjoint_comps(comps@),
            forall|c: int| 0 <= c < comps@.len() ==> (#[trigger] comps@[c]@).no_duplicates(),
            forall|c: int| 0 <= c < comps@.len() ==> #[trigger] alone_ok(self@, comps@, c),
            forall|c: int| 0 <= c < comps@.len() ==> #[trigger] dfs_formed(self@, comps@, c),
    {
        let s = self.snapshot();
        proof {
            assert forall|a: int, b: int| 0 <= a < s.keys().len() && 0 <= b < s.keys().len() && a != b implies s.keys()[a]
                != s.keys()[b] by {
                assert(s.keys()[a] == self@[a].0);
                assert(s.keys()[b] == self@[b].0);
            }
        }
        let ord = self.scc_ordering(&s);
        let t = self.snapshot_transposed();
        let (keys, _adj) = t.lists();
        let n = keys.len();
        let mut inv: AHashSet<usize> = visited_new();
        let mut comps: Vec<Vec<K>> = Vec::new();
        let mut k: usize = ord.len();
        while k > 0
            invariant
                keys_compare::<K>(),
                t.wf(),
                keys@ == t.keys(),
                t.keys() == keys_of(self@),
                s.keys() == keys_of(self@),
                keys@.no_duplicates(),
                forall|i: int| 0 <= i < self@.len() ==> #[trigger] t.adj()[i]@ == self@[i].3,
                n == keys@.len(),
                k <= ord@.len(),
                forall|j: int| 0 <= j < ord@.len() ==> s.keys().contains(#[trigger] ord@[j]),
                forall|w: usize| #[trigger] visited_indices(inv).contains(w) ==> w < n && assigned(comps@, keys@[w as int]),
                forall|c: int, x: K| 0 <= c < comps@.len() && #[trigger] comps@[c]@.contains(x) ==> key_visited(
                    keys@,
                    visited_indices(inv),
                    x,
                ),
                forall|q: int| k <= q < ord@.len() ==> assigned(comps@, #[trigger] ord@[q]),
                forall|c: int| 0 <= c < comps@.len() ==> #[trigger] component_ok(self@, comps@[c]@),
                disjoint_comps(comps@),
                forall|c: int| 0 <= c < comps@.len() ==> (#[trigger] comps@[c]@).no_duplicates(),
                forall|c: int| 0 <= c < comps@.len() ==> #[trigger] alone_ok(self@, comps@, c),
                forall|c: int| 0 <= c < comps@.len() ==> #[trigger] dfs_formed(self@, comps@, c),
            decreases k,
        {
            k = k - 1;
            let node = ord[k];
            let ghost c0 = comps@;
            let ghost inv0 = visited_indices(inv);
            proof {
                assert(s.keys().contains(ord@[k as int]));
            }
            let j = match index_of_key(keys, &node) {
                Some(j) => j,
                None => {
                    proof {
                        assert(false);
                    }
                    return comps;
                },
            };
            let seen = visited_contains(&inv, j);
            if !seen {
                proof {
                    assert(!key_visited(keys@, inv0, node)) by {
                        if key_visited(keys@, inv0, node) {
                            let w = choose|w: usize| #[trigger] inv0.contains(w) && (w as int) < keys@.len() && keys@[w as int] == node;
                            assert(w == j);
                        }
                    }
                }
                let vis = &inv;
                let filter = |u: K, v: K, e: E| -> (r: bool)
                    requires
                        keys_compare::<K>(),
                        keys@.no_duplicates(),
                    ensures
                        r <==> !key_visited(keys@, held(vis), v),
                {
                    match index_of_key(keys, &v) {
                        Some(x) => {
                            let r = !visited_contains(vis, x);
                            proof {
                                if r && key_visited(keys@, held(vis), v) {
                                    let w = choose|w: usize| #[trigger] held(vis).contains(w) && (w as int) < keys@.len()
                                        && keys@[w as int] == v;
                                    assert(w == x);
                                }
                                if !r {
                                    assert(held(vis).contains(x));
                                }
                            }
                            r
                        },
                        None => true,
                    }
                };
                match t.walk_to(Strategy::Recursive, &node, &node, &filter, false) {
                    Some(p) => {
                        let mut nodes = walk_keys(&p);
                        nodes.pop();
                        proof {
                            assert forall|u: K, v: K, e: E| #[trigger] accepted_by(filter)(u, v, e) implies outside_comps::<K, E>(c0)(u, v, e) by {
                                assert(call_ensures(filter, (u, v, e), true));
                                assert(!key_visited(keys@, inv0, v));
                                if assigned(c0, v) {
                                    let c = choose|c: int| 0 <= c < c0.len() && #[trigger] c0[c]@.contains(v);
                                    assert(key_visited(keys@, inv0, v));
                                }
                            }
                            assert forall|u: K, v: K, e: E| keys@.contains(v) && #[trigger] refused_by(filter)(u, v, e) implies into_comps::<K, E>(
                                c0,
                            )(u, v, e) by {
                                assert(call_ensures(filter, (u, v, e), false));
                                assert(key_visited(keys@, inv0, v));
                                let w = choose|w: usize| #[trigger] inv0.contains(w) && (w as int) < keys@.len() && keys@[w as int] == v;
                                assert(assigned(c0, keys@[w as int]));
                            }
                            lemma_recursive_path_filters(
                                t.keys(),
                                t.adj(),
                                accepted_by(filter),
                                refused_by(filter),
                                outside_comps::<K, E>(c0),
                                into_comps::<K, E>(c0),
                                node,
                                false,
                                node,
                                p@,
                            );
                            lemma_walk_cycle(self@, t, p@, node);
                            assert(nodes@ == walk_nodes(p@).drop_last());
                            assert(distinct_targets(p@));
                            assert(nodes@.no_duplicates()) by {
                                assert forall|a: int, b: int| 0 <= a < b < nodes@.len() implies nodes@[a] != nodes@[b] by {
                                    assert(nodes@[b] == p@[b].0);
                                    assert(p@[b - 1].1 == p@[b].0);
                                    if a == 0 {
                                        assert(nodes@[a] == node);
                                        assert(p@[p@.len() - 1].1 == node);
                                        assert(p@[b - 1].1 != p@[p@.len() - 1].1);
                                    } else {
                                        assert(nodes@[a] == p@[a].0);
                                        assert(p@[a - 1].1 == p@[a].0);
                                        assert(p@[a - 1].1 != p@[b - 1].1);
                                    }
                                }
                            }
                            assert forall|m: int| 0 <= m < nodes@.len() implies keys@.contains(#[trigger] nodes@[m])
                                && !key_visited(keys@, inv0, nodes@[m]) by {
                                assert(nodes@[m] == p@[m].0);
                                assert(is_step(t.keys(), t.adj(), p@[m].0, p@[m].1, p@[m].2));
                                if m > 0 {
                                    assert(p@[m - 1].1 == p@[m].0);
                                    assert(accepts(filter, p@[m - 1].0, p@[m - 1].1, p@[m - 1].2));
                                }
                            }
                        }
                        let mut q: usize = 0;
                        while q < nodes.len()
                            invariant
                                keys_compare::<K>(),
                                keys@ == t.keys(),
                                keys@.no_duplicates(),
                                n == keys@.len(),
                                comps@ == c0,
                                q <= nodes@.len(),
                                inv0.subset_of(visited_indices(inv)),
                                forall|m: int| 0 <= m < nodes@.len() ==> keys@.contains(#[trigger] nodes@[m]),
                                forall|m: int| 0 <= m < q ==> key_visited(keys@, visited_indices(inv), #[trigger] nodes@[m]),
                                forall|w: usize| #[trigger] visited_indices(inv).contains(w) ==> w < n && (assigned(comps@, keys@[w as int])
                                    || nodes@.contains(keys@[w as int])),
                            decreases nodes@.len() - q,
                        {
                            let x = nodes[q];
                            let ghost before = visited_indices(inv);
                            match index_of_key(keys, &x) {
                                Some(jj) => {
                                    visited_insert(&mut inv, jj);
                                    proof {
                                        assert(nodes@.contains(nodes@[q as int]));
                                        assert(visited_indices(inv).contains(jj));
                                        assert forall|m: int| 0 <= m < q + 1 implies key_visited(keys@, visited_indices(inv), #[trigger] nodes@[m]) by {
                                            if m < q {
                                                let w = choose|w: usize| #[trigger] before.contains(w) && (w as int) < keys@.len() && keys@[w as int]
                                                    == nodes@[m];
                                                assert(visited_indices(inv).contains(w));
                                            }
                                        }
                                    }
                                },
                                None => {
                                    proof {
                                        assert(keys@.contains(nodes@[q as int]));
                                        assert(false);
                                    }
                                },
                            }
                            q = q + 1;
                        }
                        let ghost nv = nodes@;
                        comps.push(nodes);
                        proof {
                            assert(comps@[comps@.len() - 1]@ == nv);
                            assert(component_ok(self@, nv));
                            assert forall|c: int| 0 <= c < comps@.len() implies #[trigger] component_ok(self@, comps@[c]@) by {
                                if c < c0.len() {
                                    assert(comps@[c] == c0[c]);
                                }
                            }
                            assert forall|w: usize| #[trigger] visited_indices(inv).contains(w) implies w < n && assigned(comps@, keys@[w as int]) by {
                                if nv.contains(keys@[w as int]) {
                                    assert(comps@[comps@.len() - 1]@.contains(keys@[w as int]));
                                } else {
                                    let c = choose|c: int| 0 <= c < c0.len() && #[trigger] c0[c]@.contains(keys@[w as int]);
                                    assert(comps@[c] == c0[c]);
                                }
                            }
                            assert forall|c: int, x: K| 0 <= c < comps@.len() && #[trigger] comps@[c]@.contains(x) implies key_visited(
                                keys@,
                                visited_indices(inv),
                                x,
                            ) by {
                                if c < c0.len() {
                                    assert(comps@[c] == c0[c]);
                                    assert(key_visited(keys@, inv0, x));
                                    let w = choose|w: usize| #[trigger] inv0.contains(w) && (w as int) < keys@.len() && keys@[w as int] == x;
                                    assert(visited_indices(inv).contains(w));
                                } else {
                                    let m = choose|m: int| 0 <= m < nv.len() && nv[m] == x;
                                    assert(key_visited(keys@, visited_indices(inv), nv[m]));
                                }
                            }
                            assert forall|a: int, b: int, x: K| 0 <= a < b < comps@.len() && #[trigger] comps@[a]@.contains(x) implies !#[trigger] comps@[b]@.contains(x) by {
                                assert(comps@[a] == c0[a]);
                                if b < c0.len() {
                                    assert(comps@[b] == c0[b]);
                                } else if nv.contains(x) {
                                    assert(key_visited(keys@, inv0, x));
                                    let m = choose|m: int| 0 <= m < nv.len() && nv[m] == x;
                                    assert(!key_visited(keys@, inv0, nv[m]));
                                }
                            }
                            assert forall|c: int| 0 <= c < comps@.len() implies (#[trigger] comps@[c]@).no_duplicates() by {
                                if c < c0.len() {
                                    assert(comps@[c] == c0[c]);
                                }
                            }
                            assert(nv[0] == node);
                            assert(comps@[comps@.len() - 1]@.contains(node));
                            lemma_alone_ok_push(self@, c0, comps@[comps@.len() - 1]);
                            assert(comps@ == c0.push(comps@[comps@.len() - 1]));
                            assert(alone_ok(self@, comps@, c0.len() as int)) by {
                                if nv.len() == 1 {
                                    assert(inbound_cycle(self@, nv));
                                    assert(in_link(self@, nv[nv.len() - 1], nv[0]));
                                }
                            }
                            assert forall|c: int| 0 <= c < comps@.len() implies #[trigger] alone_ok(self@, comps@, c) by {
                                if c < c0.len() {
                                    assert(alone_ok(self@, c0.push(comps@[comps@.len() - 1]), c));
                                }
                            }
                            lemma_dfs_formed_push(self@, c0, comps@[comps@.len() - 1]);
                            assert(dfs_formed(self@, comps@, c0.len() as int)) by {
                                assert(comps@.take(c0.len() as int) =~= c0);
                                assert(inbound_lists(self@, t.adj()));
                                assert(comps@[c0.len() as int]@[0] == node);
                                assert(comps@[c0.len() as int]@ == walk_nodes(p@).drop_last());
                            }
                            assert forall|c: int| 0 <= c < comps@.len() implies #[trigger] dfs_formed(self@, comps@, c) by {
                                if c < c0.len() {
                                    assert(dfs_formed(self@, c0.push(comps@[comps@.len() - 1]), c));
                                }
                            }
                        }
                    },
                    None => {
                        proof {
                            assert(t.keys().contains(node));
                            assert forall|cy: Seq<K>| #[trigger] inbound_cycle(self@, cy) && cy[0] == node implies exists|m: int|
                                0 <= m < cy.len() && assigned(c0, cy[m]) by {
                                let p = lemma_cycle_walk(self@, t, cy);
                                assert(blocked(filter, p));
                                let jj = choose|jj: int| #![trigger p[jj]] 0 <= jj < p.len() && call_ensures(filter, (p[jj].0, p[jj].1, p[jj].2), false);
                                assert(key_visited(keys@, inv0, p[jj].1));
                                let w = choose|w: usize| #[trigger] inv0.contains(w) && (w as int) < keys@.len() && keys@[w as int] == p[jj].1;
                                assert(assigned(c0, keys@[w as int]));
                                assert(p[jj].1 == next_on(cy, jj));
                                let m = if jj + 1 < cy.len() { jj + 1 } else { 0 };
                                assert(cy[m] == p[jj].1);
                            }
                        }
                        visited_insert(&mut inv, j);
                        let mut one: Vec<K> = Vec::new();
                        one.push(node);
                        let ghost ov = one@;
                        comps.push(one);
                        proof {
                            assert(comps@[comps@.len() - 1]@ == ov);
                            assert(ov.len() == 1);
                            assert forall|c: int| 0 <= c < comps@.len() implies #[trigger] component_ok(self@, comps@[c]@) by {
                                if c < c0.len() {
                                    assert(comps@[c] == c0[c]);
                                }
                            }
                            assert forall|w: usize| #[trigger] visited_indices(inv).contains(w) implies w < n && assigned(comps@, keys@[w as int]) by {
                                if w == j {
                                    assert(comps@[comps@.len() - 1]@.contains(keys@[w as int]));
                                } else {
                                    let c = choose|c: int| 0 <= c < c0.len() && #[trigger] c0[c]@.contains(keys@[w as int]);
                                    assert(comps@[c] == c0[c]);
                                }
                            }
                            assert forall|c: int, x: K| 0 <= c < comps@.len() && #[trigger] comps@[c]@.contains(x) implies key_visited(
                                keys@,
                                visited_indices(inv),
                                x,
                            ) by {
                                if c < c0.len() {
                                    assert(comps@[c] == c0[c]);
                                    assert(key_visited(keys@, inv0, x));
                                    let w = choose|w: usize| #[trigger] inv0.contains(w) && (w as int) < keys@.len() && keys@[w as int] == x;
                                    assert(visited_indices(inv).contains(w));
                                } else {
                                    assert(ov[0] == x);
                                    assert(visited_indices(inv).contains(j));
                                }
                            }
                            assert forall|a: int, b: int, x: K| 0 <= a < b < comps@.len() && #[trigger] comps@[a]@.contains(x) implies !#[trigger] comps@[b]@.contains(x) by {
                                assert(comps@[a] == c0[a]);
                                if b < c0.len() {
                                    assert(comps@[b] == c0[b]);
                                } else if ov.contains(x) {
                                    assert(ov[0] == x);
                                    assert(key_visited(keys@, inv0, x));
                                }
                            }
                            assert forall|c: int| 0 <= c < comps@.len() implies (#[trigger] comps@[c]@).no_duplicates() by {
                                if c < c0.len() {
                                    assert(comps@[c] == c0[c]);
                                }
                            }
                            assert(comps@[comps@.len() - 1]@.contains(node));
                            lemma_alone_ok_push(self@, c0, comps@[comps@.len() - 1]);
                            assert(comps@ == c0.push(comps@[comps@.len() - 1]));
                            assert(comps@.take(c0.len() as int) =~= c0);
                            assert(alone_ok(self@, comps@, c0.len() as int));
                            assert forall|c: int| 0 <= c < comps@.len() implies #[trigger] alone_ok(self@, comps@, c) by {
                                if c < c0.len() {
                                    assert(alone_ok(self@, c0.push(comps@[comps@.len() - 1]), c));
                                }
                            }
                            lemma_dfs_formed_push(self@, c0, comps@[comps@.len() - 1]);
                            assert(dfs_formed(self@, comps@, c0.len() as int)) by {
                                assert(ov[0] == node);
                                if in_link(self@, node, node) {
                                    let cy = seq![node];
                                    assert(inbound_cycle(self@, cy));
                                    let m = choose|m: int| 0 <= m < cy.len() && assigned(c0, cy[m]);
                                    let c = choose|c: int| 0 <= c < c0.len() && #[trigger] c0[c]@.contains(node);
                                    assert(key_visited(keys@, inv0, node));
                                }
                            }
                            assert forall|c: int| 0 <= c < comps@.len() implies #[trigger] dfs_formed(self@, comps@, c) by {
                                if c < c0.len() {
                                    assert(dfs_formed(self@, c0.push(comps@[comps@.len() - 1]), c));
                                }
                            }
                        }
                    },
                }
                proof {
                    assert forall|q: int| k <= q < ord@.len() implies assigned(comps@, #[trigger] ord@[q]) by {
                        if q > k {
                            assert(assigned(c0, ord@[q]));
                            let c = choose|c: int| 0 <= c < c0.len() && #[trigger] c0[c]@.contains(ord@[q]);
                            assert(comps@[c] == c0[c]);
                        } else {
                            assert(comps@[comps@.len() - 1]@.contains(node));
                        }
                    }
                }
            } else {
                proof {
                    assert(visited_indices(inv).contains(j));
                    assert(assigned(comps@, node));
                }
            }
        }
        proof {
            assert forall|i: int| 0 <= i < self@.len() implies assigned(comps@, #[trigger] self@[i].0) by {
                assert(s.keys()[i] == self@[i].0);
                assert(ord@.contains(s.keys()[i]));
                let q = choose|q: int| 0 <= q < ord@.len() && ord@[q] == s.keys()[i];
                assert(assigned(comps@, ord@[q]));
            }
        }
        comps
    }
}

} // verus!
