//! Undirected graphs. The storage is that of `digraph`: `connect(u, v)`
//! records `(v, e)` among `u`'s outbound edges and `(u, e)` among `v`'s
//! inbound ones, but an edge is followed either way: a node's neighbours are
//! those of both of its lists.
use vstd::prelude::*;
use crate::{keys_compare, key_eq};
use crate::adjacent::{Adjacent, has_key, first_with_key, without_key};
use crate::digraph::{self, NodeModel, Edge, edges_out, keys_of, distinct_keys, has_node, with_edge, cut_off};
use crate::search::Snapshot;
use crate::graph_search::{Dfs, Bfs, PfsMin, PfsMax, DfsPath, BfsPath, PfsMinPath, PfsMaxPath};
use crate::order::{Order, NodeOrder};

verus! {

/// `n` records an edge to or from the node with key `k`.
pub open spec fn adjacent_to<K, N, E>(n: NodeModel<K, N, E>, k: K) -> bool {
    has_key(n.2, k) || has_key(n.3, k)
}

/// `n` without the first inbound record of `k`, or if there is none the
/// first outbound one.
pub open spec fn drop_link<K, N, E>(n: NodeModel<K, N, E>, k: K) -> NodeModel<K, N, E> {
    match first_with_key(n.3, k) {
        Some(i) => (n.0, n.1, n.2, n.3.remove(i)),
        None => match first_with_key(n.2, k) {
            Some(i) => (n.0, n.1, n.2.remove(i), n.3),
            None => n,
        },
    }
}

/// A node of an undirected graph.
pub struct Node<K, N, E> {
    inner: digraph::Node<K, N, E>,
}

impl<K, N, E> View for Node<K, N, E> {
    type V = NodeModel<K, N, E>;

    closed spec fn view(&self) -> NodeModel<K, N, E> {
        self.inner@
    }
}

impl<K: Copy + PartialEq, N, E: Copy> Node<K, N, E> {
    /// A node with the given key and value and no edge.
    pub fn new(key: K, value: N) -> (r: Self)
        ensures
            r@ == (key, value, Seq::<(K, E)>::empty(), Seq::<(K, E)>::empty()),
    {
        Node { inner: digraph::Node::new(key, value) }
    }

    /// The node's key.
    pub fn key(&self) -> (r: &K)
        ensures
            *r == self@.0,
    {
        self.inner.key()
    }

    /// The node's value.
    pub fn value(&self) -> (r: &N)
        ensures
            *r == self@.1,
    {
        self.inner.value()
    }

    /// The node's adjacency lists.
    pub fn edges(&self) -> (r: &Adjacent<K, E>)
        ensures
            r@ == (self@.2, self@.3),
    {
        self.inner.edges()
    }

    /// Number of edges at the node.
    pub fn degree(&self) -> (r: usize)
        requires
            self@.2.len() + self@.3.len() <= usize::MAX,
        ensures
            r == self@.2.len() + self@.3.len(),
    {
        self.inner.degree()
    }

    /// Adds an edge between `self` and `other` with value `value`. Parallel
    /// edges are allowed.
    pub fn connect(&mut self, other: &mut Self, value: E)
        ensures
            final(self)@ == (old(self)@.0, old(self)@.1, old(self)@.2.push((old(other)@.0, value)), old(self)@.3),
            final(other)@ == (old(other)@.0, old(other)@.1, old(other)@.2, old(other)@.3.push((old(self)@.0, value))),
    {
        self.inner.connect(&mut other.inner, value);
    }

    /// Adds an edge between `self` and `other` unless `self` already records
    /// an edge to or from `other`; then gives `value` back.
    pub fn try_connect(&mut self, other: &mut Self, value: E) -> (r: Result<(), E>)
        requires
            keys_compare::<K>(),
        ensures
            adjacent_to(old(self)@, old(other)@.0) ==> r == Err::<(), E>(value) && final(self)@ == old(self)@
                && final(other)@ == old(other)@,
            !adjacent_to(old(self)@, old(other)@.0) ==> r == Ok::<(), E>(())
                && final(self)@ == (old(self)@.0, old(self)@.1, old(self)@.2.push((old(other)@.0, value)), old(self)@.3)
                && final(other)@ == (old(other)@.0, old(other)@.1, old(other)@.2, old(other)@.3.push((old(self)@.0, value))),
    {
        if self.is_connected(other.key()) {
            Err(value)
        } else {
            self.connect(other, value);
            Ok(())
        }
    }

    /// Disconnects `self` and `other`, in both directions: removes this
    /// node's first record of an edge with `other` (an inbound record first,
    /// else an outbound one) and the other node's first record of an edge
    /// with this node, and gives back the edge's value. `Err(())`, with
    /// neither node changed, when this node records no edge with `other`.
    pub fn disconnect(&mut self, other: &mut Self) -> (r: Result<E, ()>)
        requires
            keys_compare::<K>(),
        ensures
            r is Ok <==> adjacent_to(old(self)@, old(other)@.0),
            r is Ok ==> final(self)@ == drop_link(old(self)@, old(other)@.0) && final(other)@ == drop_link(old(other)@, old(self)@.0),
            r is Err ==> final(self)@ == old(self)@ && final(other)@ == old(other)@,
    {
        let them = *other.key();
        let me = *self.key();
        let r = self.inner.remove_undirected(&them);
        proof {
            if first_with_key(old(self)@.3, them) is None {
                assert(!has_key(old(self)@.3, them));
                if first_with_key(old(self)@.2, them) is None {
                    assert(!has_key(old(self)@.2, them));
                } else {
                    assert(has_key(old(self)@.2, them));
                }
            } else {
                assert(has_key(old(self)@.3, them));
            }
        }
        match r {
            Ok(e) => {
                let _ = other.inner.remove_undirected(&me);
                Ok(e)
            },
            Err(()) => Err(()),
        }
    }

    /// Removes this node's first record of an edge with `other` (an inbound
    /// record first, else an outbound one) and gives back the edge's value;
    /// `Err(())` when there is none.
    pub(crate) fn drop_record(&mut self, other: &K) -> (r: Result<E, ()>)
        requires
            keys_compare::<K>(),
        ensures
            final(self)@ == drop_link(old(self)@, *other),
            r is Ok <==> adjacent_to(old(self)@, *other),
    {
        let r = self.inner.remove_undirected(other);
        proof {
            if first_with_key(old(self)@.3, *other) is None {
                assert(!has_key(old(self)@.3, *other));
                if first_with_key(old(self)@.2, *other) is None {
                    assert(!has_key(old(self)@.2, *other));
                } else {
                    assert(has_key(old(self)@.2, *other));
                }
            } else {
                assert(has_key(old(self)@.3, *other));
            }
        }
        r
    }

    /// Removes every edge at this node, in both directions: afterwards no
    /// node of `g` records an edge with it, and its own lists are empty.
    pub fn isolate(&mut self, g: &mut Graph<K, N, E>)
        requires
            keys_compare::<K>(),
            old(g).wf(),
        ensures
            final(self)@ == (old(self)@.0, old(self)@.1, Seq::<(K, E)>::empty(), Seq::<(K, E)>::empty()),
            final(g).wf(),
            final(g)@ == old(g)@.map_values(|n: NodeModel<K, N, E>| cut_off(n, old(self)@.0)),
    {
        let me = *self.key();
        g.isolate(&me);
        self.inner.clear();
    }

    /// The node records no edge.
    pub fn is_orphan(&self) -> (r: bool)
        ensures
            r == (self@.2.len() == 0 && self@.3.len() == 0),
    {
        self.inner.is_orphan()
    }

    /// The node records an edge to or from the node with key `other`.
    pub fn is_connected(&self, other: &K) -> (r: bool)
        requires
            keys_compare::<K>(),
        ensures
            r == adjacent_to(self@, *other),
    {
        let r = self.inner.find_adjacent(other).is_some();
        proof {
            if first_with_key(self@.2, *other) is None {
                assert(!has_key(self@.2, *other));
                if first_with_key(self@.3, *other) is None {
                    assert(!has_key(self@.3, *other));
                } else {
                    assert(has_key(self@.3, *other));
                }
            } else {
                assert(has_key(self@.2, *other));
            }
        }
        r
    }

    /// The first outbound record of `other`, else the first inbound one, as
    /// a `(neighbour, value)` pair.
    pub fn find_adjacent(&self, other: &K) -> (r: Option<(K, E)>)
        requires
            keys_compare::<K>(),
        ensures
            r == (match first_with_key(self@.2, *other) {
                Some(i) => Some(self@.2[i]),
                None => match first_with_key(self@.3, *other) {
                    Some(i) => Some(self@.3[i]),
                    None => None,
                },
            }),
    {
        self.inner.find_adjacent(other)
    }

    /// The edges at the node, each seen from it: those it recorded as
    /// outbound, then those it recorded as inbound.
    pub fn iter(&self) -> (r: Vec<Edge<K, E>>)
        ensures
            r@ == edges_out(self@.0, self@.2) + edges_out(self@.0, self@.3),
    {
        self.inner.iter_undir()
    }

    /// A depth-first search from this node.
    pub fn dfs(&self) -> (r: Dfs<K>)
        ensures
            r.root_key() == self@.0,
            r.goal_key() == None::<K>,
    {
        self.inner.dfs()
    }

    /// A breadth-first search from this node.
    pub fn bfs(&self) -> (r: Bfs<K>)
        ensures
            r.root_key() == self@.0,
            r.goal_key() == None::<K>,
    {
        self.inner.bfs()
    }

    /// A least-rank-first search from this node.
    pub fn pfs_min(&self) -> (r: PfsMin<K>)
        ensures
            r.root_key() == self@.0,
            r.goal_key() == None::<K>,
    {
        self.inner.pfs_min()
    }

    /// A greatest-rank-first search from this node.
    pub fn pfs_max(&self) -> (r: PfsMax<K>)
        ensures
            r.root_key() == self@.0,
            r.goal_key() == None::<K>,
    {
        self.inner.pfs_max()
    }

    /// A depth-first search from this node that keeps its edge tree.
    pub fn dfs_path(&self) -> (r: DfsPath<K, E>)
        ensures
            r.root_key() == self@.0,
            r.tree() == Seq::<(K, K, E)>::empty(),
            r.wf(),
    {
        self.inner.dfs_path()
    }

    /// A breadth-first search from this node that keeps its edge tree.
    pub fn bfs_path(&self) -> (r: BfsPath<K, E>)
        ensures
            r.root_key() == self@.0,
            r.tree() == Seq::<(K, K, E)>::empty(),
            r.wf(),
    {
        self.inner.bfs_path()
    }

    /// A least-rank-first search from this node that keeps its edge tree.
    pub fn pfs_min_path(&self) -> (r: PfsMinPath<K, E>)
        ensures
            r.root_key() == self@.0,
            r.tree() == Seq::<(K, K, E)>::empty(),
            r.wf(),
    {
        self.inner.pfs_min_path()
    }

    /// A greatest-rank-first search from this node that keeps its edge
    /// tree.
    pub fn pfs_max_path(&self) -> (r: PfsMaxPath<K, E>)
        ensures
            r.root_key() == self@.0,
            r.tree() == Seq::<(K, K, E)>::empty(),
            r.wf(),
    {
        self.inner.pfs_max_path()
    }

    /// A pre-order listing of what is reached from this node.
    pub fn order(&self) -> (r: Order<K>)
        ensures
            r.root_key() == self@.0,
            r.kind() == NodeOrder::PreOrder,
    {
        self.inner.order()
    }
}

/// An undirected graph: nodes with distinct keys.
pub struct Graph<K, N, E> {
    nodes: Vec<Node<K, N, E>>,
}

impl<K, N, E> View for Graph<K, N, E> {
    type V = Seq<NodeModel<K, N, E>>;

    closed spec fn view(&self) -> Seq<NodeModel<K, N, E>> {
        self.nodes@.map_values(|n: Node<K, N, E>| n@)
    }
}

/// The nodes with key `u` and `v` record an edge between them (in `s`).
pub open spec fn linked_in<K, N, E>(s: Seq<NodeModel<K, N, E>>, u: K, v: K) -> bool {
    exists|i: int| 0 <= i < s.len() && s[i].0 == u && #[trigger] adjacent_to(s[i], v)
}

impl<K: Copy + PartialEq, N, E: Copy> Graph<K, N, E> {
    /// The nodes have distinct keys.
    pub open spec fn wf(&self) -> bool {
        distinct_keys(self@)
    }

    /// An empty graph.
    pub fn new() -> (g: Self)
        ensures
            g@ == Seq::<NodeModel<K, N, E>>::empty(),
            g.wf(),
    {
        let g = Graph { nodes: Vec::new() };
        assert(g@ =~= Seq::<NodeModel<K, N, E>>::empty());
        g
    }

    /// Number of nodes.
    pub fn len(&self) -> (r: usize)
        ensures
            r == self@.len(),
    {
        self.nodes.len()
    }

    /// The graph has no node.
    pub fn is_empty(&self) -> (r: bool)
        ensures
            r == (self@.len() == 0),
    {
        self.nodes.len() == 0
    }

    fn position(&self, key: &K) -> (r: Option<usize>)
        requires
            keys_compare::<K>(),
        ensures
            match r {
                Some(i) => i < self@.len() && self@[i as int].0 == *key,
                None => !has_node(self@, *key),
            },
    {
        let mut i: usize = 0;
        while i < self.nodes.len()
            invariant
                keys_compare::<K>(),
                i <= self@.len(),
                self@.len() == self.nodes@.len(),
                forall|j: int| 0 <= j < i ==> self@[j].0 != *key,
            decreases self@.len() - i,
        {
            if key_eq(self.nodes[i].key(), key) {
                return Some(i);
            }
            i = i + 1;
        }
        None
    }

    /// A node with key `key` is in the graph.
    pub fn contains(&self, key: &K) -> (r: bool)
        requires
            keys_compare::<K>(),
        ensures
            r == has_node(self@, *key),
    {
        self.position(key).is_some()
    }

    /// The node with key `key`.
    pub fn get(&self, key: &K) -> (r: Option<&Node<K, N, E>>)
        requires
            keys_compare::<K>(),
        ensures
            match r {
                Some(n) => n@.0 == *key && self@.contains(n@),
                None => !has_node(self@, *key),
            },
    {
        match self.position(key) {
            Some(i) => Some(&self.nodes[i]),
            None => None,
        }
    }

    /// Adds `node` unless a node with its key is already in the graph;
    /// returns whether it was added.
    pub fn insert(&mut self, node: Node<K, N, E>) -> (r: bool)
        requires
            keys_compare::<K>(),
            old(self).wf(),
        ensures
            final(self).wf(),
            r == !has_node(old(self)@, node@.0),
            r ==> final(self)@ == old(self)@.push(node@),
            !r ==> final(self)@ == old(self)@,
    {
        if self.contains(node.key()) {
            false
        } else {
            self.nodes.push(node);
            assert(self@ =~= old(self)@.push(node@));
            true
        }
    }

    /// Removes the node with key `key` and gives it back. Records that
    /// other nodes keep of edges with it stay in their lists.
    pub fn remove(&mut self, key: &K) -> (r: Option<Node<K, N, E>>)
        requires
            keys_compare::<K>(),
            old(self).wf(),
        ensures
            !has_node(final(self)@, *key),
            final(self).wf(),
            match r {
                Some(n) => n@.0 == *key && exists|i: int|
                    0 <= i < old(self)@.len() && old(self)@[i] == n@ && final(self)@ == old(self)@.remove(i),
                None => !has_node(old(self)@, *key) && final(self)@ == old(self)@,
            },
    {
        match self.position(key) {
            Some(i) => {
                let n = self.nodes.remove(i);
                assert(self@ =~= old(self)@.remove(i as int));
                Some(n)
            },
            None => None,
        }
    }

    /// Adds an edge between `u` and `v` with value `value` (recorded as
    /// `u -> v`). Returns false, changing nothing, when `u` or `v` is not in
    /// the graph.
    pub fn connect(&mut self, u: &K, v: &K, value: E) -> (r: bool)
        requires
            keys_compare::<K>(),
            old(self).wf(),
        ensures
            final(self).wf(),
            r == (has_node(old(self)@, *u) && has_node(old(self)@, *v)),
            !r ==> final(self)@ == old(self)@,
            r ==> final(self)@ == old(self)@.map_values(|n: NodeModel<K, N, E>| with_edge(n, *u, *v, value)),
    {
        match self.position(u) {
            Some(i) => match self.position(v) {
                Some(j) => {
                    self.nodes[i].inner.push_out(*v, value);
                    self.nodes[j].inner.push_in(*u, value);
                    proof {
                        assert forall|m: int| 0 <= m < old(self)@.len() implies #[trigger] self@[m] == (
                            old(self)@[m].0,
                            old(self)@[m].1,
                            if old(self)@[m].0 == *u { old(self)@[m].2.push((*v, value)) } else { old(self)@[m].2 },
                            if old(self)@[m].0 == *v { old(self)@[m].3.push((*u, value)) } else { old(self)@[m].3 },
                        ) by {
                            if m != i as int {
                                assert(old(self)@[m].0 != *u);
                            }
                            if m != j as int {
                                assert(old(self)@[m].0 != *v);
                            }
                        }
                        assert(distinct_keys(self@)) by {
                            assert forall|a: int, b: int| 0 <= a < self@.len() && 0 <= b < self@.len() && a != b implies self@[a].0 != self@[b].0 by {
                                assert(self@[a].0 == old(self)@[a].0);
                                assert(self@[b].0 == old(self)@[b].0);
                            }
                        }
                        assert(self@ =~= old(self)@.map_values(|n: NodeModel<K, N, E>| with_edge(n, *u, *v, value)));
                    }
                    true
                },
                None => false,
            },
            None => false,
        }
    }

    /// The nodes with keys `u` and `v` record an edge between them.
    pub fn is_connected(&self, u: &K, v: &K) -> (r: bool)
        requires
            keys_compare::<K>(),
            self.wf(),
        ensures
            r == linked_in(self@, *u, *v),
    {
        match self.position(u) {
            Some(i) => {
                let r = self.nodes[i].is_connected(v);
                proof {
                    if !r {
                        assert forall|m: int| 0 <= m < self@.len() && self@[m].0 == *u implies !#[trigger] adjacent_to(self@[m], *v) by {
                            assert(m == i as int);
                        }
                    }
                }
                r
            },
            None => false,
        }
    }

    /// Adds an edge between `u` and `v` unless `u` records one with `v`
    /// already, or one of them is missing; then gives `value` back.
    pub fn try_connect(&mut self, u: &K, v: &K, value: E) -> (r: Result<(), E>)
        requires
            keys_compare::<K>(),
            old(self).wf(),
        ensures
            final(self).wf(),
            r is Ok <==> (has_node(old(self)@, *u) && has_node(old(self)@, *v) && !linked_in(old(self)@, *u, *v)),
            r is Err ==> r == Err::<(), E>(value) && final(self)@ == old(self)@,
            r is Ok ==> final(self)@ == old(self)@.map_values(|n: NodeModel<K, N, E>| with_edge(n, *u, *v, value)),
    {
        if self.is_connected(u, v) {
            return Err(value);
        }
        if self.connect(u, v, value) {
            Ok(())
        } else {
            Err(value)
        }
    }

    /// Removes one edge between `u` and `v`: the first record of it at `u`
    /// (inbound first, else outbound) and, when there was one, the first
    /// record of it at `v`; gives back the value found at `u`. `Err(())`,
    /// changing nothing, when `u` records no edge with `v`.
    pub fn disconnect(&mut self, u: &K, v: &K) -> (r: Result<E, ()>)
        requires
            keys_compare::<K>(),
            old(self).wf(),
        ensures
            final(self).wf(),
            r is Ok <==> linked_in(old(self)@, *u, *v),
            r is Err ==> final(self)@ == old(self)@,
            r is Ok ==> final(self)@.len() == old(self)@.len() && forall|m: int| 0 <= m < old(self)@.len() ==> #[trigger] final(self)@[m] == (
                if old(self)@[m].0 == *v {
                    drop_link(if old(self)@[m].0 == *u { drop_link(old(self)@[m], *v) } else { old(self)@[m] }, *u)
                } else {
                    if old(self)@[m].0 == *u { drop_link(old(self)@[m], *v) } else { old(self)@[m] }
                }
            ),
    {
        match self.position(u) {
            Some(i) => {
                let res = self.nodes[i].drop_record(v);
                match res {
                    Ok(e) => {
                        let ghost mid = self@;
                        proof {
                            assert forall|m: int| 0 <= m < old(self)@.len() && m != i implies #[trigger] mid[m] == old(self)@[m] by {}
                        }
                        match self.position(v) {
                            Some(j) => {
                                let _ = self.nodes[j].drop_record(u);
                                proof {
                                    assert forall|m: int| 0 <= m < old(self)@.len() implies #[trigger] self@[m] == (
                                        if old(self)@[m].0 == *v {
                                            drop_link(if old(self)@[m].0 == *u { drop_link(old(self)@[m], *v) } else { old(self)@[m] }, *u)
                                        } else {
                                            if old(self)@[m].0 == *u { drop_link(old(self)@[m], *v) } else { old(self)@[m] }
                                        }
                                    ) by {
                                        if m != i as int {
                                            assert(old(self)@[m].0 != *u);
                                        }
                                        if m != j as int {
                                            assert(mid[m].0 != *v);
                                            assert(self@[m] == mid[m]);
                                        }
                                    }
                                }
                            },
                            None => {
                                proof {
                                    assert forall|m: int| 0 <= m < old(self)@.len() implies #[trigger] self@[m] == (
                                        if old(self)@[m].0 == *v {
                                            drop_link(if old(self)@[m].0 == *u { drop_link(old(self)@[m], *v) } else { old(self)@[m] }, *u)
                                        } else {
                                            if old(self)@[m].0 == *u { drop_link(old(self)@[m], *v) } else { old(self)@[m] }
                                        }
                                    ) by {
                                        if m != i as int {
                                            assert(old(self)@[m].0 != *u);
                                        }
                                        assert(mid[m].0 == old(self)@[m].0);
                                        assert(mid[m].0 != *v);
                                    }
                                }
                            },
                        }
                        proof {
                            assert(linked_in(old(self)@, *u, *v)) by {
                                assert(adjacent_to(old(self)@[i as int], *v));
                            }
                            assert(distinct_keys(self@)) by {
                                assert forall|a: int, b: int| 0 <= a < self@.len() && 0 <= b < self@.len() && a != b implies self@[a].0 != self@[b].0 by {
                                    assert(self@[a].0 == old(self)@[a].0);
                                    assert(self@[b].0 == old(self)@[b].0);
                                }
                            }
                        }
                        Ok(e)
                    },
                    Err(_) => {
                        proof {
                            assert(self@ =~= old(self)@);
                            assert forall|m: int| 0 <= m < old(self)@.len() && old(self)@[m].0 == *u implies !#[trigger] adjacent_to(old(self)@[m], *v) by {
                                assert(m == i as int);
                            }
                        }
                        Err(())
                    },
                }
            },
            None => Err(()),
        }
    }

    /// Removes every edge at the node with key `key`, from every node's
    /// lists: afterwards no node records an edge with it, and its own lists
    /// are empty.
    pub fn isolate(&mut self, key: &K)
        requires
            keys_compare::<K>(),
            old(self).wf(),
        ensures
            final(self).wf(),
            final(self)@ == old(self)@.map_values(|n: NodeModel<K, N, E>| cut_off(n, *key)),
    {
        let mut i: usize = 0;
        while i < self.nodes.len()
            invariant
                keys_compare::<K>(),
                i <= self.nodes@.len(),
                self.nodes@.len() == old(self)@.len(),
                forall|m: int| 0 <= m < old(self)@.len() ==> #[trigger] self@[m] == (if m < i {
                    (
                        old(self)@[m].0,
                        old(self)@[m].1,
                        if old(self)@[m].0 == *key { Seq::<(K, E)>::empty() } else { without_key(old(self)@[m].2, *key) },
                        if old(self)@[m].0 == *key { Seq::<(K, E)>::empty() } else { without_key(old(self)@[m].3, *key) },
                    )
                } else {
                    old(self)@[m]
                }),
            decreases self.nodes@.len() - i,
        {
            let ghost before = self@;
            assert(before[i as int] == old(self)@[i as int]);
            if key_eq(self.nodes[i].key(), key) {
                self.nodes[i].inner.clear();
                assert(self@[i as int] == (old(self)@[i as int].0, old(self)@[i as int].1, Seq::<(K, E)>::empty(), Seq::<(K, E)>::empty()));
            } else {
                self.nodes[i].inner.forget(key);
                assert(self@[i as int] == (old(self)@[i as int].0, old(self)@[i as int].1, without_key(old(self)@[i as int].2, *key), without_key(old(self)@[i as int].3, *key)));
            }
            proof {
                assert forall|m: int| 0 <= m < old(self)@.len() && m != i implies #[trigger] self@[m] == before[m] by {}
            }
            i = i + 1;
        }
        proof {
            assert(distinct_keys(self@)) by {
                assert forall|a: int, b: int| 0 <= a < self@.len() && 0 <= b < self@.len() && a != b implies self@[a].0 != self@[b].0 by {
                    assert(self@[a].0 == old(self)@[a].0);
                    assert(self@[b].0 == old(self)@[b].0);
                }
            }
            assert(self@ =~= old(self)@.map_values(|n: NodeModel<K, N, E>| cut_off(n, *key)));
        }
    }

    /// The graph as searches see it: from a node along the edges it
    /// recorded as outbound, then along those it recorded as inbound.
    pub fn snapshot(&self) -> (s: Snapshot<K, E>)
        ensures
            s.wf(),
            s.keys() == keys_of(self@),
            forall|i: int| 0 <= i < self@.len() ==> #[trigger] s.adj()[i]@ == self@[i].2 + self@[i].3,
    {
        let mut keys: Vec<K> = Vec::new();
        let mut adj: Vec<Vec<(K, E)>> = Vec::new();
        let mut rank: Vec<usize> = Vec::new();
        let mut i: usize = 0;
        while i < self.nodes.len()
            invariant
                i <= self.nodes@.len(),
                self@.len() == self.nodes@.len(),
                keys@ == keys_of(self@).subrange(0, i as int),
                adj@.len() == i,
                rank@.len() == i,
                forall|j: int| 0 <= j < i ==> #[trigger] adj@[j]@ == self@[j].2 + self@[j].3,
            decreases self.nodes@.len() - i,
        {
            let n = &self.nodes[i];
            keys.push(*n.key());
            adj.push(n.edges().iter_undir());
            rank.push(0);
            proof {
                assert(keys_of(self@).subrange(0, i + 1) =~= keys_of(self@).subrange(0, i as int).push(n@.0));
            }
            i = i + 1;
        }
        proof {
            assert(keys_of(self@).subrange(0, self@.len() as int) =~= keys_of(self@));
        }
        Snapshot::from_parts(keys, adj, rank)
    }
}

} // verus!
