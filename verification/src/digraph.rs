//! Directed graphs. A `Node` holds a key, a value and its adjacency lists;
//! a `Graph` holds nodes with distinct keys. An edge `u -> v` with value `e`
//! is the pair `(v, e)` among `u`'s outbound edges; `connect` also records
//! `(u, e)` among `v`'s inbound edges.
use vstd::prelude::*;
use crate::{keys_compare, key_eq};
use crate::adjacent::{Adjacent, has_key, first_with_key, last_with_key, without_key};
use crate::search::{Snapshot, is_walk, is_step, chained, blocked, none_shorter, no_loop_at, first_from, reached_by, priority_ordered, first_edges, first_edge_at, first_reached, expanded_by, stack_ordered,
    groups_complete, reached_before};
use crate::graph_search::{Dfs, Bfs, PfsMin, PfsMax, DfsPath, BfsPath, PfsMinPath, PfsMaxPath};
use crate::order::{Order, NodeOrder};
use vstd::std_specs::cmp::PartialOrdSpec;

verus! {

broadcast use vstd::seq_lib::group_seq_properties;

/// A node as a value: key, value, outbound edges, inbound edges.
pub type NodeModel<K, N, E> = (K, N, Seq<(K, E)>, Seq<(K, E)>);

/// An edge `Edge(u, v, e)` from the node with key `u` to the node with key
/// `v`, with value `e`.
#[derive(Clone, Copy, Debug, PartialEq, Eq)]
pub struct Edge<K, E>(pub K, pub K, pub E);

impl<K: Copy, E: Copy> Edge<K, E> {
    /// Key of the source node.
    pub fn source(&self) -> (r: &K)
        ensures
            *r == self.0,
    {
        &self.0
    }

    /// Key of the target node.
    pub fn target(&self) -> (r: &K)
        ensures
            *r == self.1,
    {
        &self.1
    }

    /// The edge's value.
    pub fn value(&self) -> (r: &E)
        ensures
            *r == self.2,
    {
        &self.2
    }

    /// The same edge in the other direction.
    pub fn reverse(&self) -> (r: Edge<K, E>)
        ensures
            r.0 == self.1,
            r.1 == self.0,
            r.2 == self.2,
    {
        Edge(self.1, self.0, self.2)
    }
}

/// A node of a directed graph.
pub struct Node<K, N, E> {
    key: K,
    value: N,
    edges: Adjacent<K, E>,
}

impl<K, N, E> View for Node<K, N, E> {
    type V = NodeModel<K, N, E>;

    closed spec fn view(&self) -> NodeModel<K, N, E> {
        (self.key, self.value, self.edges@.0, self.edges@.1)
    }
}

/// The list of `(neighbour, edge value)` pairs turned into edges leaving
/// `from`.
pub open spec fn edges_out<K, E>(from: K, s: Seq<(K, E)>) -> Seq<Edge<K, E>> {
    s.map_values(|p: (K, E)| Edge(from, p.0, p.1))
}

/// The list of `(neighbour, edge value)` pairs turned into edges entering
/// `to`.
pub open spec fn edges_in<K, E>(to: K, s: Seq<(K, E)>) -> Seq<Edge<K, E>> {
    s.map_values(|p: (K, E)| Edge(p.0, to, p.1))
}

/// Turns a list of pairs into edges from or to `me`.
fn pairs_to_edges<K: Copy, E: Copy>(me: K, s: &Vec<(K, E)>, outward: bool) -> (r: Vec<Edge<K, E>>)
    ensures
        outward ==> r@ == edges_out(me, s@),
        !outward ==> r@ == edges_in(me, s@),
{
    let mut r: Vec<Edge<K, E>> = Vec::new();
    let mut i: usize = 0;
    while i < s.len()
        invariant
            i <= s@.len(),
            outward ==> r@ == edges_out(me, s@.subrange(0, i as int)),
            !outward ==> r@ == edges_in(me, s@.subrange(0, i as int)),
        decreases s@.len() - i,
    {
        let p = s[i];
        if outward {
            r.push(Edge(me, p.0, p.1));
        } else {
            r.push(Edge(p.0, me, p.1));
        }
        proof {
            assert(s@.subrange(0, i + 1) == s@.subrange(0, i as int).push(p));
        }
        i = i + 1;
    }
    proof {
        assert(s@.subrange(0, s@.len() as int) == s@);
    }
    r
}

impl<K: Copy + PartialEq, N, E: Copy> Node<K, N, E> {
    /// A node with the given key and value and no edge.
    pub fn new(key: K, value: N) -> (r: Self)
        ensures
            r@ == (key, value, Seq::<(K, E)>::empty(), Seq::<(K, E)>::empty()),
    {
        Node { key, value, edges: Adjacent::new() }
    }

    /// The node's key.
    pub fn key(&self) -> (r: &K)
        ensures
            *r == self@.0,
    {
        &self.key
    }

    /// The node's value.
    pub fn value(&self) -> (r: &N)
        ensures
            *r == self@.1,
    {
        &self.value
    }

    /// The node's value.
    pub fn params(&self) -> (r: &N)
        ensures
            *r == self@.1,
    {
        &self.value
    }

    /// The node's adjacency lists.
    pub fn edges(&self) -> (r: &Adjacent<K, E>)
        ensures
            r@ == (self@.2, self@.3),
    {
        &self.edges
    }

    /// The outbound edges as `(target, value)` pairs.
    pub fn outbound(&self) -> (r: &Vec<(K, E)>)
        ensures
            r@ == self@.2,
    {
        self.edges.outbound()
    }

    /// The inbound edges as `(source, value)` pairs.
    pub fn inbound(&self) -> (r: &Vec<(K, E)>)
        ensures
            r@ == self@.3,
    {
        self.edges.inbound()
    }

    /// Adds the edge `self -> other` with value `value`, recorded in both
    /// nodes. Parallel edges are allowed.
    pub fn connect(&mut self, other: &mut Self, value: E)
        ensures
            final(self)@ == (old(self)@.0, old(self)@.1, old(self)@.2.push((old(other)@.0, value)), old(self)@.3),
            final(other)@ == (old(other)@.0, old(other)@.1, old(other)@.2, old(other)@.3.push((old(self)@.0, value))),
    {
        self.edges.push_outbound((other.key, value));
        other.edges.push_inbound((self.key, value));
    }

    /// Adds the edge `self -> other` unless an edge from `self` to a node
    /// with `other`'s key exists; then gives `value` back.
    pub fn try_connect(&mut self, other: &mut Self, value: E) -> (r: Result<(), E>)
        requires
            keys_compare::<K>(),
        ensures
            has_key(old(self)@.2, old(other)@.0) ==> r == Err::<(), E>(value) && final(self)@ == old(self)@
                && final(other)@ == old(other)@,
            !has_key(old(self)@.2, old(other)@.0) ==> r == Ok::<(), E>(())
                && final(self)@ == (old(self)@.0, old(self)@.1, old(self)@.2.push((old(other)@.0, value)), old(self)@.3)
                && final(other)@ == (old(other)@.0, old(other)@.1, old(other)@.2, old(other)@.3.push((old(self)@.0, value))),
    {
        if self.is_connected(&other.key) {
            Err(value)
        } else {
            self.connect(other, value);
            Ok(())
        }
    }

    /// Removes the first edge `self -> other`, and the first record of an
    /// edge from `self` among `other`'s inbound edges; gives back the value.
    /// `Err(())` when there is no such edge.
    pub fn disconnect(&mut self, other: &mut Self) -> (r: Result<E, ()>)
        requires
            keys_compare::<K>(),
        ensures
            final(self)@.0 == old(self)@.0 && final(self)@.1 == old(self)@.1 && final(self)@.3 == old(self)@.3,
            final(other)@.0 == old(other)@.0 && final(other)@.1 == old(other)@.1 && final(other)@.2 == old(other)@.2,
            match first_with_key(old(self)@.2, old(other)@.0) {
                Some(i) => r == Ok::<E, ()>(old(self)@.2[i].1) && final(self)@.2 == old(self)@.2.remove(i)
                    && final(other)@.3 == (match first_with_key(old(other)@.3, old(self)@.0) {
                        Some(j) => old(other)@.3.remove(j),
                        None => old(other)@.3,
                    }),
                None => r == Err::<E, ()>(()) && final(self)@ == old(self)@ && final(other)@ == old(other)@,
            },
    {
        match self.edges.remove_outbound(&other.key) {
            Ok(e) => {
                let _ = other.edges.remove_inbound(&self.key);
                Ok(e)
            },
            Err(_) => Err(()),
        }
    }

    /// Removes every edge `self -> other`, and every record of an edge from
    /// `self` among `other`'s inbound edges; returns whether there was such
    /// an edge.
    pub fn disconnect_all(&mut self, other: &mut Self) -> (r: bool)
        requires
            keys_compare::<K>(),
        ensures
            r == has_key(old(self)@.2, old(other)@.0),
            r ==> final(self)@ == (old(self)@.0, old(self)@.1, without_key(old(self)@.2, old(other)@.0), old(self)@.3)
                && final(other)@ == (old(other)@.0, old(other)@.1, old(other)@.2, without_key(old(other)@.3, old(self)@.0)),
            !r ==> final(self)@ == old(self)@ && final(other)@ == old(other)@,
    {
        if self.edges.remove_outbound_all(&other.key) {
            let ghost in0 = other@.3;
            let removed = other.edges.remove_inbound_all(&self.key);
            proof {
                if !removed {
                    crate::adjacent::lemma_without_absent_key(in0, self@.0);
                }
            }
            true
        } else {
            false
        }
    }

    /// There is an edge from this node to the node with key `other`.
    pub fn is_connected(&self, other: &K) -> (r: bool)
        requires
            keys_compare::<K>(),
        ensures
            r == has_key(self@.2, *other),
    {
        self.edges.find_outbound(other).is_some()
    }

    /// The first outbound edge to `other`, else the first inbound edge from
    /// it, as a `(neighbour, value)` pair.
    pub fn find_adjacent(&self, other: &K) -> (r: Option<(K, E)>)
        requires
            keys_compare::<K>(),
        ensures
            r == (match first_with_key(self@.2, *other) {
                Some(i) => Some(self@.2[i]),
                None => match first_with_key(self@.3, *other) {
                    Some(i) => Some(self@.3[i]),
                    None => None,
                },
            }),
    {
        self.edges.find_adjacent(other)
    }

    /// No edge enters the node.
    pub fn is_root(&self) -> (r: bool)
        ensures
            r == (self@.3.len() == 0),
    {
        self.edges.inbound_len() == 0
    }

    /// No edge leaves the node.
    pub fn is_leaf(&self) -> (r: bool)
        ensures
            r == (self@.2.len() == 0),
    {
        self.edges.outbound_len() == 0
    }

    /// No edge enters or leaves the node.
    pub fn is_orphan(&self) -> (r: bool)
        ensures
            r == (self@.2.len() == 0 && self@.3.len() == 0),
    {
        self.is_root() && self.is_leaf()
    }

    /// Number of edges entering or leaving the node.
    pub fn degree(&self) -> (r: usize)
        requires
            self@.2.len() + self@.3.len() <= usize::MAX,
        ensures
            r == self@.2.len() + self@.3.len(),
    {
        self.edges.outbound_len() + self.edges.inbound_len()
    }

    /// Number of edges leaving the node.
    pub fn out_degree(&self) -> (r: usize)
        ensures
            r == self@.2.len(),
    {
        self.edges.outbound_len()
    }

    /// Number of edges entering the node.
    pub fn in_degree(&self) -> (r: usize)
        ensures
            r == self@.3.len(),
    {
        self.edges.inbound_len()
    }

    /// The edges leaving the node, in the order they were added.
    pub fn iter_outbound(&self) -> (r: Vec<Edge<K, E>>)
        ensures
            r@ == edges_out(self@.0, self@.2),
    {
        pairs_to_edges(self.key, self.edges.outbound(), true)
    }

    /// The edges leaving the node, in the order they were added.
    pub fn iter_out(&self) -> (r: Vec<Edge<K, E>>)
        ensures
            r@ == edges_out(self@.0, self@.2),
    {
        self.iter_outbound()
    }

    /// The edges entering the node, in the order they were added.
    pub fn iter_inbound(&self) -> (r: Vec<Edge<K, E>>)
        ensures
            r@ == edges_in(self@.0, self@.3),
    {
        pairs_to_edges(self.key, self.edges.inbound(), false)
    }

    /// The edges entering the node, in the order they were added.
    pub fn iter_in(&self) -> (r: Vec<Edge<K, E>>)
        ensures
            r@ == edges_in(self@.0, self@.3),
    {
        self.iter_inbound()
    }

    /// Every edge at the node seen from it: the edges leaving it, then the
    /// edges entering it turned around.
    pub fn iter_undir(&self) -> (r: Vec<Edge<K, E>>)
        ensures
            r@ == edges_out(self@.0, self@.2) + edges_out(self@.0, self@.3),
    {
        let mut r = pairs_to_edges(self.key, self.edges.outbound(), true);
        let back = pairs_to_edges(self.key, self.edges.inbound(), true);
        let mut i: usize = 0;
        while i < back.len()
            invariant
                i <= back@.len(),
                r@ == edges_out(self@.0, self@.2) + back@.subrange(0, i as int),
            decreases back@.len() - i,
        {
            r.push(back[i]);
            proof {
                assert(back@.subrange(0, i + 1) == back@.subrange(0, i as int).push(back@[i as int]));
            }
            i = i + 1;
        }
        proof {
            assert(back@.subrange(0, back@.len() as int) == back@);
        }
        r
    }

    /// The edges leaving the node.
    pub fn iter(&self) -> (r: Vec<Edge<K, E>>)
        ensures
            r@ == edges_out(self@.0, self@.2),
    {
        self.iter_outbound()
    }

    /// A depth-first search from this node.
    pub fn dfs(&self) -> (r: Dfs<K>)
        ensures
            r.root_key() == self@.0,
            r.goal_key() == None::<K>,
    {
        Dfs::new(&self.key)
    }

    /// A breadth-first search from this node.
    pub fn bfs(&self) -> (r: Bfs<K>)
        ensures
            r.root_key() == self@.0,
            r.goal_key() == None::<K>,
    {
        Bfs::new(&self.key)
    }

    /// A least-rank-first search from this node.
    pub fn pfs_min(&self) -> (r: PfsMin<K>)
        ensures
            r.root_key() == self@.0,
            r.goal_key() == None::<K>,
    {
        PfsMin::new(&self.key)
    }

    /// A greatest-rank-first search from this node.
    pub fn pfs_max(&self) -> (r: PfsMax<K>)
        ensures
            r.root_key() == self@.0,
            r.goal_key() == None::<K>,
    {
        PfsMax::new(&self.key)
    }

    /// A depth-first search from this node that keeps its edge tree.
    pub fn dfs_path(&self) -> (r: DfsPath<K, E>)
        ensures
            r.root_key() == self@.0,
            r.tree() == Seq::<(K, K, E)>::empty(),
            r.wf(),
    {
        DfsPath::new(&self.key)
    }

    /// A breadth-first search from this node that keeps its edge tree.
    pub fn bfs_path(&self) -> (r: BfsPath<K, E>)
        ensures
            r.root_key() == self@.0,
            r.tree() == Seq::<(K, K, E)>::empty(),
            r.wf(),
    {
        BfsPath::new(&self.key)
    }

    /// A least-rank-first search from this node that keeps its edge tree.
    pub fn pfs_min_path(&self) -> (r: PfsMinPath<K, E>)
        ensures
            r.root_key() == self@.0,
            r.tree() == Seq::<(K, K, E)>::empty(),
            r.wf(),
    {
        PfsMinPath::new(&self.key)
    }

    /// A greatest-rank-first search from this node that keeps its edge
    /// tree.
    pub fn pfs_max_path(&self) -> (r: PfsMaxPath<K, E>)
        ensures
            r.root_key() == self@.0,
            r.tree() == Seq::<(K, K, E)>::empty(),
            r.wf(),
    {
        PfsMaxPath::new(&self.key)
    }

    /// A pre-order listing of what is reached from this node.
    pub fn order(&self) -> (r: Order<K>)
        ensures
            r.root_key() == self@.0,
            r.kind() == NodeOrder::PreOrder,
    {
        Order::new(&self.key)
    }

    /// A pre-order listing of what is reached from this node.
    pub fn preorder(&self) -> (r: Order<K>)
        ensures
            r.root_key() == self@.0,
            r.kind() == NodeOrder::PreOrder,
    {
        Order::new(&self.key)
    }

    /// A post-order listing of what is reached from this node.
    pub fn postorder(&self) -> (r: Order<K>)
        ensures
            r.root_key() == self@.0,
            r.kind() == NodeOrder::PostOrder,
    {
        Order::new(&self.key).post()
    }

    /// Appends `(other, value)` to the outbound edges.
    pub(crate) fn push_out(&mut self, other: K, value: E)
        ensures
            final(self)@ == (old(self)@.0, old(self)@.1, old(self)@.2.push((other, value)), old(self)@.3),
    {
        self.edges.push_outbound((other, value));
    }

    /// Appends `(other, value)` to the inbound edges.
    pub(crate) fn push_in(&mut self, other: K, value: E)
        ensures
            final(self)@ == (old(self)@.0, old(self)@.1, old(self)@.2, old(self)@.3.push((other, value))),
    {
        self.edges.push_inbound((other, value));
    }

    /// Removes the first inbound edge from `other`, or if there is none the
    /// first outbound edge to it, in this node's own lists.
    pub(crate) fn remove_undirected(&mut self, other: &K) -> (r: Result<E, ()>)
        requires
            keys_compare::<K>(),
        ensures
            final(self)@.0 == old(self)@.0,
            final(self)@.1 == old(self)@.1,
            match first_with_key(old(self)@.3, *other) {
                Some(i) => r == Ok::<E, ()>(old(self)@.3[i].1) && final(self)@.3 == old(self)@.3.remove(i)
                    && final(self)@.2 == old(self)@.2,
                None => final(self)@.3 == old(self)@.3 && match first_with_key(old(self)@.2, *other) {
                    Some(i) => r == Ok::<E, ()>(old(self)@.2[i].1) && final(self)@.2 == old(self)@.2.remove(i),
                    None => r == Err::<E, ()>(()) && final(self)@.2 == old(self)@.2,
                },
            },
    {
        self.edges.remove_undirected(other)
    }

    /// Removes every outbound edge to `other` and every inbound edge from it
    /// in this node's own lists.
    pub(crate) fn forget(&mut self, other: &K)
        requires
            keys_compare::<K>(),
        ensures
            final(self)@.0 == old(self)@.0,
            final(self)@.1 == old(self)@.1,
            final(self)@.2 == without_key(old(self)@.2, *other),
            final(self)@.3 == without_key(old(self)@.3, *other),
    {
        let out = keep_other_keys(self.edges.outbound(), other);
        let inb = keep_other_keys(self.edges.inbound(), other);
        self.edges.clear_outbound();
        self.edges.clear_inbound();
        let mut i: usize = 0;
        while i < out.len()
            invariant
                i <= out@.len(),
                self.key == old(self)@.0,
                self@.1 == old(self)@.1,
                self.edges@.0 == out@.subrange(0, i as int),
                self.edges@.1 == Seq::<(K, E)>::empty(),
            decreases out@.len() - i,
        {
            self.edges.push_outbound(out[i]);
            proof {
                assert(out@.subrange(0, i + 1) == out@.subrange(0, i as int).push(out@[i as int]));
            }
            i = i + 1;
        }
        let mut j: usize = 0;
        while j < inb.len()
            invariant
                j <= inb@.len(),
                self.key == old(self)@.0,
                self@.1 == old(self)@.1,
                self.edges@.0 == out@.subrange(0, out@.len() as int),
                self.edges@.1 == inb@.subrange(0, j as int),
            decreases inb@.len() - j,
        {
            self.edges.push_inbound(inb[j]);
            proof {
                assert(inb@.subrange(0, j + 1) == inb@.subrange(0, j as int).push(inb@[j as int]));
            }
            j = j + 1;
        }
        proof {
            assert(out@.subrange(0, out@.len() as int) == out@);
            assert(inb@.subrange(0, inb@.len() as int) == inb@);
        }
    }

    /// Removes the last outbound edge to `target`; returns whether there
    /// was one.
    pub(crate) fn delete_last_outbound(&mut self, target: &K) -> (r: bool)
        requires
            keys_compare::<K>(),
        ensures
            final(self)@.0 == old(self)@.0 && final(self)@.1 == old(self)@.1 && final(self)@.3 == old(self)@.3,
            match last_with_key(old(self)@.2, *target) {
                Some(i) => r && final(self)@.2 == old(self)@.2.remove(i),
                None => !r && final(self)@.2 == old(self)@.2,
            },
    {
        self.edges.delete_last_outbound(target)
    }

    /// Removes the last inbound edge from `source`; returns whether there
    /// was one.
    pub(crate) fn delete_last_inbound(&mut self, source: &K) -> (r: bool)
        requires
            keys_compare::<K>(),
        ensures
            final(self)@.0 == old(self)@.0 && final(self)@.1 == old(self)@.1 && final(self)@.2 == old(self)@.2,
            match last_with_key(old(self)@.3, *source) {
                Some(i) => r && final(self)@.3 == old(self)@.3.remove(i),
                None => !r && final(self)@.3 == old(self)@.3,
            },
    {
        self.edges.delete_last_inbound(source)
    }

    /// Removes every edge of the node's own lists.
    pub(crate) fn clear(&mut self)
        ensures
            final(self)@ == (old(self)@.0, old(self)@.1, Seq::<(K, E)>::empty(), Seq::<(K, E)>::empty()),
    {
        self.edges.clear_outbound();
        self.edges.clear_inbound();
    }
}

impl<K: Copy + PartialEq, N: Copy, E: Copy> Node<K, N, E> {
    /// A copy of the node, with its key, value and edge lists.
    pub(crate) fn duplicate(&self) -> (r: Self)
        ensures
            r@ == self@,
    {
        Node { key: self.key, value: self.value, edges: self.edges.duplicate() }
    }
}

/// The pairs of `v` whose key is not `k`, in order.
pub fn keep_other_keys<K: Copy + PartialEq, E: Copy>(v: &Vec<(K, E)>, k: &K) -> (r: Vec<(K, E)>)
    requires
        keys_compare::<K>(),
    ensures
        r@ == without_key(v@, *k),
{
    let mut r: Vec<(K, E)> = Vec::new();
    let mut i: usize = 0;
    while i < v.len()
        invariant
            keys_compare::<K>(),
            i <= v@.len(),
            r@ == without_key(v@.subrange(0, i as int), *k),
        decreases v@.len() - i,
    {
        let p = v[i];
        proof {
            assert(v@.subrange(0, i + 1) == v@.subrange(0, i as int).push(p));
            v@.subrange(0, i as int).lemma_filter_push(p, |q: (K, E)| q.0 != *k);
        }
        if !key_eq(&p.0, k) {
            r.push(p);
        }
        i = i + 1;
    }
    proof {
        assert(v@.subrange(0, v@.len() as int) == v@);
    }
    r
}

/// The keys of a list of nodes.
pub open spec fn keys_of<K, N, E>(s: Seq<NodeModel<K, N, E>>) -> Seq<K> {
    s.map_values(|n: NodeModel<K, N, E>| n.0)
}

/// The edges a walk may take from node `n`: its outbound edges, and with
/// `both` its inbound ones too.
pub open spec fn adj_of<K, N, E>(n: NodeModel<K, N, E>, both: bool) -> Seq<(K, E)> {
    if both { n.2 + n.3 } else { n.2 }
}

/// `(u, v, e)` is among the edges a walk may take from the node with key `u`.
pub open spec fn graph_step<K, N, E>(g: Seq<NodeModel<K, N, E>>, u: K, v: K, e: E, both: bool) -> bool {
    exists|i: int| 0 <= i < g.len() && g[i].0 == u && #[trigger] adj_of(g[i], both).contains((v, e))
}

/// `p` is a non-empty walk of `g` from `from` to `to`, each edge taken
/// along the outbound list of its source (with `both`, or its inbound
/// list).
pub open spec fn graph_walk<K, N, E>(g: Seq<NodeModel<K, N, E>>, p: Seq<(K, K, E)>, from: K, to: K, both: bool) -> bool {
    &&& p.len() > 0
    &&& p[0].0 == from
    &&& p[p.len() - 1].1 == to
    &&& chained(p)
    &&& forall|j: int| #![trigger p[j]] 0 <= j < p.len() ==> graph_step(g, p[j].0, p[j].1, p[j].2, both)
}

/// A walk of `g` is a walk of a snapshot that lists for each node the
/// edges a walk may take from it.
pub proof fn lemma_graph_walk_is_walk<K, N, E>(
    g: Seq<NodeModel<K, N, E>>,
    keys: Seq<K>,
    adj: Seq<Vec<(K, E)>>,
    p: Seq<(K, K, E)>,
    from: K,
    to: K,
    both: bool,
)
    requires
        keys == keys_of(g),
        adj.len() == g.len(),
        forall|i: int| 0 <= i < g.len() ==> #[trigger] adj[i]@ == adj_of(g[i], both),
        graph_walk(g, p, from, to, both),
    ensures
        is_walk(keys, adj, p, from, to),
{
    assert forall|j: int| #![trigger p[j]] 0 <= j < p.len() implies is_step(keys, adj, p[j].0, p[j].1, p[j].2) by {
        assert(graph_step(g, p[j].0, p[j].1, p[j].2, both));
        let i = choose|i: int| 0 <= i < g.len() && g[i].0 == p[j].0 && #[trigger] adj_of(g[i], both).contains((p[j].1, p[j].2));
        assert(adj[i]@ == adj_of(g[i], both));
        assert(keys[i] == g[i].0);
    }
}

/// No walk of `g` from `from` to `to` along edges `f` never refuses has
/// fewer than `n` edges.
pub open spec fn graph_none_shorter<K, N, E, F: Fn(K, K, E) -> bool>(
    g: Seq<NodeModel<K, N, E>>,
    f: F,
    from: K,
    to: K,
    n: int,
    both: bool,
) -> bool {
    forall|q: Seq<(K, K, E)>| #[trigger] graph_walk(g, q, from, to, both) && !blocked(f, q) ==> q.len() >= n
}

/// No edge a walk may take leads from the node with key `k` back to it.
pub open spec fn no_graph_loop<K, N, E>(g: Seq<NodeModel<K, N, E>>, k: K, both: bool) -> bool {
    forall|e: E| !#[trigger] graph_step(g, k, k, e, both)
}

/// What a snapshot says of the walks to a node, said of `g`; and a node of
/// `g` without a loop has none in the snapshot.
pub proof fn lemma_graph_none_shorter<K, N, E, F: Fn(K, K, E) -> bool>(
    g: Seq<NodeModel<K, N, E>>,
    keys: Seq<K>,
    adj: Seq<Vec<(K, E)>>,
    f: F,
    from: K,
    to: K,
    n: int,
    both: bool,
)
    requires
        keys == keys_of(g),
        adj.len() == g.len(),
        forall|i: int| 0 <= i < g.len() ==> #[trigger] adj[i]@ == adj_of(g[i], both),
    ensures
        no_graph_loop(g, from, both) ==> no_loop_at(keys, adj, from),
        none_shorter(keys, adj, f, from, to, n) ==> graph_none_shorter(g, f, from, to, n, both),
{
    if no_graph_loop(g, from, both) {
        assert forall|i: int, e: E| 0 <= i < keys.len() && i < adj.len() && keys[i] == from implies !#[trigger] adj[i]@.contains((from, e)) by {
            if adj[i]@.contains((from, e)) {
                assert(adj[i]@ == adj_of(g[i], both));
                assert(g[i].0 == from);
                assert(graph_step(g, from, from, e, both));
            }
        }
    }
    if none_shorter(keys, adj, f, from, to, n) {
        assert forall|q: Seq<(K, K, E)>| #[trigger] graph_walk(g, q, from, to, both) && !blocked(f, q) implies q.len() >= n by {
            lemma_graph_walk_is_walk(g, keys, adj, q, from, to, both);
        }
    }
}

/// Distinct node keys make a key list without duplicates, which holds the
/// key of each node.
pub proof fn lemma_keys_of<K, N, E>(g: Seq<NodeModel<K, N, E>>, k: K)
    ensures
        distinct_keys(g) ==> keys_of(g).no_duplicates(),
        has_node(g, k) ==> keys_of(g).contains(k),
{
    if has_node(g, k) {
        let i = choose|i: int| 0 <= i < g.len() && #[trigger] g[i].0 == k;
        assert(keys_of(g)[i] == k);
    }
}

/// No two nodes share a key.
pub open spec fn distinct_keys<K, N, E>(s: Seq<NodeModel<K, N, E>>) -> bool {
    forall|i: int, j: int| 0 <= i < s.len() && 0 <= j < s.len() && i != j ==> s[i].0 != s[j].0
}

/// A node with key `k` is in the list.
pub open spec fn has_node<K, N, E>(s: Seq<NodeModel<K, N, E>>, k: K) -> bool {
    exists|i: int| 0 <= i < s.len() && #[trigger] s[i].0 == k
}

/// A directed graph: nodes with distinct keys.
pub struct Graph<K, N, E> {
    nodes: Vec<Node<K, N, E>>,
}

impl<K, N, E> View for Graph<K, N, E> {
    type V = Seq<NodeModel<K, N, E>>;

    closed spec fn view(&self) -> Seq<NodeModel<K, N, E>> {
        self.nodes@.map_values(|n: Node<K, N, E>| n@)
    }
}

impl<K: Copy + PartialEq, N, E: Copy> Graph<K, N, E> {
    /// The nodes have distinct keys.
    pub open spec fn wf(&self) -> bool {
        distinct_keys(self@)
    }

    /// An empty graph.
    pub fn new() -> (g: Self)
        ensures
            g@ == Seq::<NodeModel<K, N, E>>::empty(),
            g.wf(),
    {
        let g = Graph { nodes: Vec::new() };
        assert(g@ =~= Seq::<NodeModel<K, N, E>>::empty());
        g
    }

    /// Number of nodes.
    pub fn len(&self) -> (r: usize)
        ensures
            r == self@.len(),
    {
        self.nodes.len()
    }

    /// The graph has no node.
    pub fn is_empty(&self) -> (r: bool)
        ensures
            r == (self@.len() == 0),
    {
        self.nodes.len() == 0
    }

    /// Position of the node with key `key`.
    fn position(&self, key: &K) -> (r: Option<usize>)
        requires
            keys_compare::<K>(),
        ensures
            match r {
                Some(i) => i < self@.len() && self@[i as int].0 == *key,
                None => !has_node(self@, *key),
            },
    {
        let mut i: usize = 0;
        while i < self.nodes.len()
            invariant
                keys_compare::<K>(),
                i <= self@.len(),
                self@.len() == self.nodes@.len(),
                forall|j: int| 0 <= j < i ==> self@[j].0 != *key,
            decreases self@.len() - i,
        {
            if key_eq(&self.nodes[i].key, key) {
                return Some(i);
            }
            i = i + 1;
        }
        None
    }

    /// A node with key `key` is in the graph.
    pub fn contains(&self, key: &K) -> (r: bool)
        requires
            keys_compare::<K>(),
        ensures
            r == has_node(self@, *key),
    {
        self.position(key).is_some()
    }

    /// The node with key `key`.
    pub fn get(&self, key: &K) -> (r: Option<&Node<K, N, E>>)
        requires
            keys_compare::<K>(),
        ensures
            match r {
                Some(n) => n@.0 == *key && self@.contains(n@),
                None => !has_node(self@, *key),
            },
    {
        match self.position(key) {
            Some(i) => Some(&self.nodes[i]),
            None => None,
        }
    }

    /// Adds `node` unless a node with its key is already in the graph;
    /// returns whether it was added.
    pub fn insert(&mut self, node: Node<K, N, E>) -> (r: bool)
        requires
            keys_compare::<K>(),
            old(self).wf(),
        ensures
            final(self).wf(),
            r == !has_node(old(self)@, node@.0),
            r ==> final(self)@ == old(self)@.push(node@),
            !r ==> final(self)@ == old(self)@,
    {
        if self.contains(&node.key) {
            false
        } else {
            let ghost k = node@.0;
            self.nodes.push(node);
            assert(self@ =~= old(self)@.push(node@));
            true
        }
    }

    /// Removes the node with key `key` and gives it back. Edges that other
    /// nodes record to or from it stay in their lists.
    pub fn remove(&mut self, key: &K) -> (r: Option<Node<K, N, E>>)
        requires
            keys_compare::<K>(),
            old(self).wf(),
        ensures
            !has_node(final(self)@, *key),
            final(self).wf(),
            match r {
                Some(n) => n@.0 == *key && exists|i: int|
                    0 <= i < old(self)@.len() && old(self)@[i] == n@ && final(self)@ == old(self)@.remove(i),
                None => !has_node(old(self)@, *key) && final(self)@ == old(self)@,
            },
    {
        match self.position(key) {
            Some(i) => {
                let n = self.nodes.remove(i);
                assert(self@ =~= old(self)@.remove(i as int));
                Some(n)
            },
            None => None,
        }
    }

    /// The nodes, in insertion order.
    pub fn to_vec(&self) -> (r: Vec<&Node<K, N, E>>)
        ensures
            r@.map_values(|n: &Node<K, N, E>| n@) == self@,
    {
        let mut r: Vec<&Node<K, N, E>> = Vec::new();
        let mut i: usize = 0;
        while i < self.nodes.len()
            invariant
                i <= self.nodes@.len(),
                r@.map_values(|n: &Node<K, N, E>| n@) == self@.subrange(0, i as int),
            decreases self.nodes@.len() - i,
        {
            let n = &self.nodes[i];
            proof {
                assert(self@.subrange(0, i + 1) == self@.subrange(0, i as int).push(n@));
            }
            r.push(n);
            proof {
                assert(r@.map_values(|m: &Node<K, N, E>| m@) =~= self@.subrange(0, i as int).push(n@));
            }
            i = i + 1;
        }
        proof {
            assert(self@.subrange(0, self@.len() as int) == self@);
        }
        r
    }

    /// The nodes that pass `kind`: 0 no inbound edge, 1 no outbound edge,
    /// 2 neither.
    fn select(&self, kind: u8) -> (r: Vec<&Node<K, N, E>>)
        ensures
            r@.map_values(|n: &Node<K, N, E>| n@) == self@.filter(|n: NodeModel<K, N, E>| selected(n, kind)),
    {
        let mut r: Vec<&Node<K, N, E>> = Vec::new();
        let mut i: usize = 0;
        while i < self.nodes.len()
            invariant
                i <= self.nodes@.len(),
                r@.map_values(|n: &Node<K, N, E>| n@) == self@.subrange(0, i as int).filter(
                    |n: NodeModel<K, N, E>| selected(n, kind),
                ),
            decreases self.nodes@.len() - i,
        {
            let n = &self.nodes[i];
            proof {
                assert(self@.subrange(0, i + 1) == self@.subrange(0, i as int).push(n@));
                self@.subrange(0, i as int).lemma_filter_push(n@, |m: NodeModel<K, N, E>| selected(m, kind));
            }
            let keep = if kind == 0 {
                n.is_root()
            } else if kind == 1 {
                n.is_leaf()
            } else {
                n.is_orphan()
            };
            if keep {
                r.push(n);
                proof {
                    assert(r@.map_values(|m: &Node<K, N, E>| m@) =~= self@.subrange(0, i as int).filter(
                        |m: NodeModel<K, N, E>| selected(m, kind),
                    ).push(n@));
                }
            }
            i = i + 1;
        }
        proof {
            assert(self@.subrange(0, self@.len() as int) == self@);
        }
        r
    }

    /// The nodes no edge enters.
    pub fn roots(&self) -> (r: Vec<&Node<K, N, E>>)
        ensures
            r@.map_values(|n: &Node<K, N, E>| n@) == self@.filter(|n: NodeModel<K, N, E>| n.3.len() == 0),
    {
        let r = self.select(0);
        proof {
            assert((|n: NodeModel<K, N, E>| selected(n, 0)) =~= (|n: NodeModel<K, N, E>| n.3.len() == 0));
        }
        r
    }

    /// The nodes no edge leaves.
    pub fn leaves(&self) -> (r: Vec<&Node<K, N, E>>)
        ensures
            r@.map_values(|n: &Node<K, N, E>| n@) == self@.filter(|n: NodeModel<K, N, E>| n.2.len() == 0),
    {
        let r = self.select(1);
        proof {
            assert((|n: NodeModel<K, N, E>| selected(n, 1)) =~= (|n: NodeModel<K, N, E>| n.2.len() == 0));
        }
        r
    }

    /// The nodes no edge enters or leaves.
    pub fn orphans(&self) -> (r: Vec<&Node<K, N, E>>)
        ensures
            r@.map_values(|n: &Node<K, N, E>| n@) == self@.filter(
                |n: NodeModel<K, N, E>| n.2.len() == 0 && n.3.len() == 0,
            ),
    {
        let r = self.select(2);
        proof {
            assert((|n: NodeModel<K, N, E>| selected(n, 2)) =~= (|n: NodeModel<K, N, E>| n.2.len() == 0 && n.3.len()
                == 0));
        }
        r
    }
}

impl<K: Copy + PartialEq, N, E: Copy> Graph<K, N, E> {
    /// Adds the edge `u -> v` with value `value`: `(v, value)` joins the
    /// outbound edges of `u` and `(u, value)` the inbound edges of `v`.
    /// Returns false, changing nothing, when `u` or `v` is not in the graph.
    pub fn connect(&mut self, u: &K, v: &K, value: E) -> (r: bool)
        requires
            keys_compare::<K>(),
            old(self).wf(),
        ensures
            final(self).wf(),
            r == (has_node(old(self)@, *u) && has_node(old(self)@, *v)),
            !r ==> final(self)@ == old(self)@,
            r ==> final(self)@ == old(self)@.map_values(|n: NodeModel<K, N, E>| with_edge(n, *u, *v, value)),
    {
        match self.position(u) {
            Some(i) => match self.position(v) {
                Some(j) => {
                    self.nodes[i].edges.push_outbound((*v, value));
                    self.nodes[j].edges.push_inbound((*u, value));
                    proof {
                        assert forall|m: int| 0 <= m < old(self)@.len() implies #[trigger] self@[m] == (
                            old(self)@[m].0,
                            old(self)@[m].1,
                            if old(self)@[m].0 == *u { old(self)@[m].2.push((*v, value)) } else { old(self)@[m].2 },
                            if old(self)@[m].0 == *v { old(self)@[m].3.push((*u, value)) } else { old(self)@[m].3 },
                        ) by {
                            if m != i as int {
                                assert(old(self)@[m].0 != *u);
                            }
                            if m != j as int {
                                assert(old(self)@[m].0 != *v);
                            }
                        }
                        assert(distinct_keys(self@)) by {
                            assert forall|a: int, b: int| 0 <= a < self@.len() && 0 <= b < self@.len() && a != b implies self@[a].0 != self@[b].0 by {
                                assert(self@[a].0 == old(self)@[a].0);
                                assert(self@[b].0 == old(self)@[b].0);
                            }
                        }
                        assert(self@ =~= old(self)@.map_values(|n: NodeModel<K, N, E>| with_edge(n, *u, *v, value)));
                    }
                    true
                },
                None => false,
            },
            None => false,
        }
    }

    /// Adds the edge `u -> v` unless `u` already has an edge to `v`, or one
    /// of them is missing; then gives `value` back.
    pub fn try_connect(&mut self, u: &K, v: &K, value: E) -> (r: Result<(), E>)
        requires
            keys_compare::<K>(),
            old(self).wf(),
        ensures
            final(self).wf(),
            r is Ok <==> (has_node(old(self)@, *u) && has_node(old(self)@, *v) && !connected_in(old(self)@, *u, *v)),
            r is Err ==> r == Err::<(), E>(value) && final(self)@ == old(self)@,
            r is Ok ==> final(self)@ == old(self)@.map_values(|n: NodeModel<K, N, E>| with_edge(n, *u, *v, value)),
    {
        if self.is_connected(u, v) {
            return Err(value);
        }
        if self.connect(u, v, value) {
            Ok(())
        } else {
            Err(value)
        }
    }

    /// The node with key `u` has an edge to the node with key `v`.
    pub fn is_connected(&self, u: &K, v: &K) -> (r: bool)
        requires
            keys_compare::<K>(),
            self.wf(),
        ensures
            r == connected_in(self@, *u, *v),
    {
        match self.position(u) {
            Some(i) => {
                let r = self.nodes[i].is_connected(v);
                proof {
                    if !r {
                        assert forall|m: int| 0 <= m < self@.len() && self@[m].0 == *u implies !#[trigger] has_key(self@[m].2, *v) by {
                            assert(m == i as int);
                        }
                    }
                }
                r
            },
            None => false,
        }
    }

    /// Removes the first edge `u -> v`, and the first record of an edge
    /// from `u` among the inbound edges of `v`; gives back the edge's value.
    /// `Err(())`, changing nothing, when there is no such edge.
    #[verifier::rlimit(40)]
    pub fn disconnect(&mut self, u: &K, v: &K) -> (r: Result<E, ()>)
        requires
            keys_compare::<K>(),
            old(self).wf(),
        ensures
            final(self).wf(),
            r is Ok <==> connected_in(old(self)@, *u, *v),
            r is Err ==> final(self)@ == old(self)@,
            r is Ok ==> final(self)@ == old(self)@.map_values(|n: NodeModel<K, N, E>| without_edge(n, *u, *v)),
            forall|m: int| 0 <= m < old(self)@.len() && old(self)@[m].0 == *u ==> (r matches Ok(e) ==> e == old(self)@[m].2[first_with_key(old(self)@[m].2, *v)->0].1),
    {
        match self.position(u) {
            Some(i) => {
                let res = self.nodes[i].edges.remove_outbound(v);
                match res {
                    Ok(e) => {
                        let ghost mid = self@;
                        proof {
                            assert forall|m: int| 0 <= m < old(self)@.len() && m != i implies #[trigger] mid[m] == old(self)@[m] by {}
                            assert(mid[i as int] == (old(self)@[i as int].0, old(self)@[i as int].1, remove_first(old(self)@[i as int].2, *v), old(self)@[i as int].3));
                        }
                        let pv = self.position(v);
                        match pv {
                            Some(j) => {
                                let _ = self.nodes[j].edges.remove_inbound(u);
                                proof {
                                    assert forall|m: int| 0 <= m < old(self)@.len() implies #[trigger] self@[m] == (
                                        old(self)@[m].0,
                                        old(self)@[m].1,
                                        if old(self)@[m].0 == *u { remove_first(old(self)@[m].2, *v) } else { old(self)@[m].2 },
                                        if old(self)@[m].0 == *v { remove_first(old(self)@[m].3, *u) } else { old(self)@[m].3 },
                                    ) by {
                                        if m != i as int {
                                            assert(old(self)@[m].0 != *u);
                                        }
                                        if m != j as int {
                                            assert(mid[m].0 != *v);
                                            assert(self@[m] == mid[m]);
                                        }
                                    }
                                }
                            },
                            None => {
                                proof {
                                    assert forall|m: int| 0 <= m < old(self)@.len() implies #[trigger] self@[m] == (
                                        old(self)@[m].0,
                                        old(self)@[m].1,
                                        if old(self)@[m].0 == *u { remove_first(old(self)@[m].2, *v) } else { old(self)@[m].2 },
                                        if old(self)@[m].0 == *v { remove_first(old(self)@[m].3, *u) } else { old(self)@[m].3 },
                                    ) by {
                                        if m != i as int {
                                            assert(old(self)@[m].0 != *u);
                                        }
                                        assert(mid[m].0 == old(self)@[m].0);
                                        assert(mid[m].0 != *v);
                                    }
                                }
                            },
                        }
                        proof {
                            assert(connected_in(old(self)@, *u, *v)) by {
                                assert(has_key(old(self)@[i as int].2, *v));
                            }
                            assert(distinct_keys(self@)) by {
                                assert forall|a: int, b: int| 0 <= a < self@.len() && 0 <= b < self@.len() && a != b implies self@[a].0 != self@[b].0 by {
                                    assert(self@[a].0 == old(self)@[a].0);
                                    assert(self@[b].0 == old(self)@[b].0);
                                }
                            }
                            assert forall|m: int| 0 <= m < old(self)@.len() && old(self)@[m].0 == *u implies (res matches Ok(e2) ==> e2 == old(self)@[m].2[first_with_key(old(self)@[m].2, *v)->0].1) by {
                                assert(m == i as int);
                            }
                            assert(self@ =~= old(self)@.map_values(|n: NodeModel<K, N, E>| without_edge(n, *u, *v)));
                        }
                        Ok(e)
                    },
                    Err(_) => {
                        proof {
                            assert(self@ =~= old(self)@);
                            assert forall|m: int| 0 <= m < old(self)@.len() && old(self)@[m].0 == *u implies !#[trigger] has_key(old(self)@[m].2, *v) by {
                                assert(m == i as int);
                            }
                        }
                        Err(())
                    },
                }
            },
            None => Err(()),
        }
    }

    /// Removes every edge entering or leaving the node with key `key`, from
    /// every node's lists: afterwards no node records an edge to or from it,
    /// and its own lists are empty.
    pub fn isolate(&mut self, key: &K)
        requires
            keys_compare::<K>(),
            old(self).wf(),
        ensures
            final(self).wf(),
            final(self)@ == old(self)@.map_values(|n: NodeModel<K, N, E>| cut_off(n, *key)),
    {
        let mut i: usize = 0;
        while i < self.nodes.len()
            invariant
                keys_compare::<K>(),
                i <= self.nodes@.len(),
                self.nodes@.len() == old(self)@.len(),
                forall|m: int| 0 <= m < old(self)@.len() ==> #[trigger] self@[m] == (if m < i {
                    (
                        old(self)@[m].0,
                        old(self)@[m].1,
                        if old(self)@[m].0 == *key { Seq::<(K, E)>::empty() } else { without_key(old(self)@[m].2, *key) },
                        if old(self)@[m].0 == *key { Seq::<(K, E)>::empty() } else { without_key(old(self)@[m].3, *key) },
                    )
                } else {
                    old(self)@[m]
                }),
            decreases self.nodes@.len() - i,
        {
            let ghost before = self@;
            assert(before[i as int] == old(self)@[i as int]);
            if key_eq(&self.nodes[i].key, key) {
                self.nodes[i].clear();
                assert(self@[i as int] == (old(self)@[i as int].0, old(self)@[i as int].1, Seq::<(K, E)>::empty(), Seq::<(K, E)>::empty()));
            } else {
                self.nodes[i].forget(key);
                assert(self@[i as int] == (old(self)@[i as int].0, old(self)@[i as int].1, without_key(old(self)@[i as int].2, *key), without_key(old(self)@[i as int].3, *key)));
            }
            proof {
                assert forall|m: int| 0 <= m < old(self)@.len() && m != i implies #[trigger] self@[m] == before[m] by {}
            }
            i = i + 1;
        }
        proof {
            assert(distinct_keys(self@)) by {
                assert forall|a: int, b: int| 0 <= a < self@.len() && 0 <= b < self@.len() && a != b implies self@[a].0 != self@[b].0 by {
                    assert(self@[a].0 == old(self)@[a].0);
                    assert(self@[b].0 == old(self)@[b].0);
                }
            }
            assert(self@ =~= old(self)@.map_values(|n: NodeModel<K, N, E>| cut_off(n, *key)));
        }
    }

    /// The graph as searches see it, following edges forwards.
    pub fn snapshot(&self) -> (s: Snapshot<K, E>)
        ensures
            s.wf(),
            s.keys() == keys_of(self@),
            forall|i: int| 0 <= i < self@.len() ==> #[trigger] s.adj()[i]@ == self@[i].2,
    {
        self.snapshot_dir(true)
    }

    /// The graph as searches see it, following edges backwards.
    pub fn snapshot_transposed(&self) -> (s: Snapshot<K, E>)
        ensures
            s.wf(),
            s.keys() == keys_of(self@),
            forall|i: int| 0 <= i < self@.len() ==> #[trigger] s.adj()[i]@ == self@[i].3,
    {
        self.snapshot_dir(false)
    }

    /// The graph as searches see it, following edges both ways: from a node
    /// along its outbound edges, then back along its inbound ones.
    pub fn snapshot_undirected(&self) -> (s: Snapshot<K, E>)
        ensures
            s.wf(),
            s.keys() == keys_of(self@),
            forall|i: int| 0 <= i < self@.len() ==> #[trigger] s.adj()[i]@ == self@[i].2 + self@[i].3,
    {
        let mut keys: Vec<K> = Vec::new();
        let mut adj: Vec<Vec<(K, E)>> = Vec::new();
        let mut rank: Vec<usize> = Vec::new();
        let mut i: usize = 0;
        while i < self.nodes.len()
            invariant
                i <= self.nodes@.len(),
                self@.len() == self.nodes@.len(),
                keys@ == keys_of(self@).subrange(0, i as int),
                adj@.len() == i,
                rank@.len() == i,
                forall|j: int| 0 <= j < i ==> #[trigger] adj@[j]@ == self@[j].2 + self@[j].3,
            decreases self.nodes@.len() - i,
        {
            let n = &self.nodes[i];
            keys.push(n.key);
            adj.push(n.edges.iter_undir());
            rank.push(0);
            proof {
                assert(keys_of(self@).subrange(0, i + 1) =~= keys_of(self@).subrange(0, i as int).push(n.key));
            }
            i = i + 1;
        }
        proof {
            assert(keys_of(self@).subrange(0, self@.len() as int) =~= keys_of(self@));
        }
        Snapshot::from_parts(keys, adj, rank)
    }

    fn snapshot_dir(&self, forwards: bool) -> (s: Snapshot<K, E>)
        ensures
            s.wf(),
            s.keys() == keys_of(self@),
            forall|i: int| 0 <= i < self@.len() ==> #[trigger] s.adj()[i]@ == (if forwards { self@[i].2 } else { self@[i].3 }),
    {
        let (keys, adj) = self.parts(forwards);
        let mut rank: Vec<usize> = Vec::new();
        let mut i: usize = 0;
        while i < keys.len()
            invariant
                i <= keys@.len(),
                rank@.len() == i,
            decreases keys@.len() - i,
        {
            rank.push(0);
            i = i + 1;
        }
        Snapshot::from_parts(keys, adj, rank)
    }

    /// The keys and the chosen adjacency lists of the nodes.
    fn parts(&self, forwards: bool) -> (r: (Vec<K>, Vec<Vec<(K, E)>>))
        ensures
            r.0@ == keys_of(self@),
            r.1@.len() == self@.len(),
            forall|i: int| 0 <= i < self@.len() ==> #[trigger] r.1@[i]@ == (if forwards { self@[i].2 } else { self@[i].3 }),
    {
        let mut keys: Vec<K> = Vec::new();
        let mut adj: Vec<Vec<(K, E)>> = Vec::new();
        let mut i: usize = 0;
        while i < self.nodes.len()
            invariant
                i <= self.nodes@.len(),
                self@.len() == self.nodes@.len(),
                keys@ == keys_of(self@).subrange(0, i as int),
                adj@.len() == i,
                forall|j: int| 0 <= j < i ==> #[trigger] adj@[j]@ == (if forwards { self@[j].2 } else { self@[j].3 }),
            decreases self.nodes@.len() - i,
        {
            let n = &self.nodes[i];
            keys.push(n.key);
            if forwards {
                adj.push(crate::adjacent::copy_pairs(n.edges.outbound()));
            } else {
                adj.push(crate::adjacent::copy_pairs(n.edges.inbound()));
            }
            proof {
                assert(keys_of(self@).subrange(0, i + 1) =~= keys_of(self@).subrange(0, i as int).push(n.key));
            }
            i = i + 1;
        }
        proof {
            assert(keys_of(self@).subrange(0, self@.len() as int) =~= keys_of(self@));
        }
        (keys, adj)
    }
}

impl<K: Copy + PartialEq, N: PartialOrd, E: Copy> Graph<K, N, E> {
    /// The graph as the priority searches see it, following edges forwards:
    /// a node's rank is the number of nodes whose value is less than its own.
    pub fn snapshot_ranked(&self) -> (s: Snapshot<K, E>)
        requires
            N::obeys_partial_cmp_spec(),
        ensures
            s.wf(),
            s.keys() == keys_of(self@),
            forall|i: int| 0 <= i < self@.len() ==> #[trigger] s.adj()[i]@ == self@[i].2,
            forall|i: int| 0 <= i < self@.len() ==> #[trigger] s.ranks()[i] == count_less(values_of(self@), self@[i].1),
    {
        let (keys, adj) = self.parts(true);
        let mut rank: Vec<usize> = Vec::new();
        let mut i: usize = 0;
        while i < self.nodes.len()
            invariant
                N::obeys_partial_cmp_spec(),
                i <= self.nodes@.len(),
                self@.len() == self.nodes@.len(),
                rank@.len() == i,
                forall|j: int| 0 <= j < i ==> #[trigger] rank@[j] == count_less(values_of(self@), self@[j].1),
            decreases self.nodes@.len() - i,
        {
            let c = self.count_below(&self.nodes[i].value);
            rank.push(c);
            i = i + 1;
        }
        Snapshot::from_parts(keys, adj, rank)
    }

    /// Number of nodes whose value is less than `x`.
    fn count_below(&self, x: &N) -> (r: usize)
        requires
            N::obeys_partial_cmp_spec(),
        ensures
            r == count_less(values_of(self@), *x),
    {
        let mut c: usize = 0;
        let mut j: usize = 0;
        while j < self.nodes.len()
            invariant
                N::obeys_partial_cmp_spec(),
                j <= self.nodes@.len(),
                self@.len() == self.nodes@.len(),
                c == prefix_count(values_of(self@), *x, j),
                c <= j,
            decreases self.nodes@.len() - j,
        {
            let y = &self.nodes[j].value;
            proof {
                lemma_prefix_count_step(values_of(self@), *x, j);
            }
            if *y < *x {
                c = c + 1;
            }
            j = j + 1;
        }
        proof {
            lemma_prefix_count_all(values_of(self@), *x);
        }
        c
    }
}

/// Number of the first `j` values of `s` less than `x`.
pub open spec fn prefix_count<N: PartialOrd>(s: Seq<N>, x: N, j: usize) -> nat {
    count_less(s.subrange(0, j as int), x)
}

proof fn lemma_prefix_count_step<N: PartialOrd>(s: Seq<N>, x: N, j: usize)
    requires
        j < s.len(),
        s.len() <= usize::MAX,
    ensures
        prefix_count(s, x, (j + 1) as usize) == prefix_count(s, x, j) + (if value_lt(s[j as int], x) { 1int } else { 0int }),
        prefix_count(s, x, j) <= j,
{
    assert(s.subrange(0, j + 1) == s.subrange(0, j as int).push(s[j as int]));
    s.subrange(0, j as int).lemma_filter_push(s[j as int], |z: N| value_lt(z, x));
    s.subrange(0, j as int).lemma_filter_len(|z: N| value_lt(z, x));
}

proof fn lemma_prefix_count_all<N: PartialOrd>(s: Seq<N>, x: N)
    requires
        s.len() <= usize::MAX,
    ensures
        prefix_count(s, x, s.len() as usize) == count_less(s, x),
{
    assert(s.subrange(0, s.len() as int) == s);
}

/// Each edge of the chain `t` from `root` is the first edge a walk of `g`
/// may take from its source, in list order, that leads to a node of `g`
/// not reached by the edges before it (nor the root), and `f` accepts it.
pub open spec fn graph_first_edges<K, N, E, F: Fn(K, K, E) -> bool>(
    g: Seq<NodeModel<K, N, E>>,
    f: F,
    t: Seq<(K, K, E)>,
    root: K,
    both: bool,
) -> bool {
    forall|j: int| 0 <= j < t.len() ==> #[trigger] graph_first_edge_at(g, f, t, root, both, j)
}

/// Edge `j` of `t` is the first edge a walk of `g` may take from its
/// source, in list order, that leads to a node of `g` not reached by the
/// edges before it (nor the root), and `f` accepts it.
pub open spec fn graph_first_edge_at<K, N, E, F: Fn(K, K, E) -> bool>(
    g: Seq<NodeModel<K, N, E>>,
    f: F,
    t: Seq<(K, K, E)>,
    root: K,
    both: bool,
    j: int,
) -> bool {
    exists|i: int| 0 <= i < g.len() && g[i].0 == t[j].0 && #[trigger] first_reached(
        keys_of(g),
        f,
        t.take(j),
        root,
        false,
        t[j].0,
        adj_of(g[i], both),
        t[j].1,
        t[j].2,
    )
}

/// What a snapshot of `g` says of a first-edge chain, said of `g`.
pub proof fn lemma_graph_first_edges<K: Copy + PartialEq, N, E: Copy, F: Fn(K, K, E) -> bool>(
    g: Seq<NodeModel<K, N, E>>,
    s: Snapshot<K, E>,
    f: F,
    t: Seq<(K, K, E)>,
    root: K,
    both: bool,
)
    requires
        s.keys() == keys_of(g),
        forall|i: int| 0 <= i < g.len() ==> #[trigger] s.adj()[i]@ == adj_of(g[i], both),
        first_edges(s.keys(), s.adj(), f, t, root, false),
    ensures
        graph_first_edges(g, f, t, root, both),
{
    assert forall|j: int| 0 <= j < t.len() implies #[trigger] graph_first_edge_at(g, f, t, root, both, j) by {
        assert(first_edge_at(s.keys(), s.adj(), f, t, root, false, j));
        let u = choose|u: usize| (u as int) < s.keys().len() && s.keys()[u as int] == t[j].0 && #[trigger] first_reached(
            s.keys(),
            f,
            t.take(j),
            root,
            false,
            t[j].0,
            s.adj()[u as int]@,
            t[j].1,
            t[j].2,
        );
        assert(s.adj()[u as int]@ == adj_of(g[u as int], both));
        assert(keys_of(g)[u as int] == g[u as int].0);
    }
}

/// Node `v` of `g` was expanded within the first `n` edges of `t`: every
/// edge a walk may take from it to a node of `g`, and that `f` does not
/// refuse, ends at a node reached by then.
pub open spec fn graph_expanded_by<K, N, E, F: Fn(K, K, E) -> bool>(
    g: Seq<NodeModel<K, N, E>>,
    f: F,
    t: Seq<(K, K, E)>,
    root: K,
    v: int,
    n: int,
    both: bool,
) -> bool {
    forall|w: K, e: E| #[trigger] adj_of(g[v], both).contains((w, e)) && has_node(g, w) && !call_ensures(f, (g[v].0, w, e), false)
        ==> reached_by(t, root, n, w)
}

/// The tree `t` of a last-in first-out search of `g` from `root`: when a
/// node `u` is expanded (where its first edge in `t` stands), every node
/// reached after `u` has been expanded already.
pub open spec fn graph_stack_ordered<K, N, E, F: Fn(K, K, E) -> bool>(g: Seq<NodeModel<K, N, E>>, f: F, root: K, t: Seq<(K, K, E)>, both: bool) -> bool {
    forall|a: int, iv: int, u: int, v: int|
        #![trigger t[a], t[iv], g[u], g[v]]
        0 <= iv < a < t.len() && 0 <= u < g.len() && 0 <= v < g.len() && g[u].0 == t[a].0 && first_from(t, a) && g[v].0 == t[iv].1 && ((
        g[u].0 == root && !reached_before(t, a, root)) || reached_before(t, iv, g[u].0)) ==> graph_expanded_by(g, f, t, root, v, a, both)
}

/// Every node of `g` whose first run of edges in `t` (from `a` up to `b`,
/// where an edge from another node follows) was expanded there in full.
pub open spec fn graph_groups_complete<K, N, E, F: Fn(K, K, E) -> bool>(g: Seq<NodeModel<K, N, E>>, f: F, root: K, t: Seq<(K, K, E)>, both: bool) -> bool {
    forall|a: int, b: int, u: int|
        #![trigger t[a], t[b], g[u]]
        0 <= a < b < t.len() && 0 <= u < g.len() && g[u].0 == t[a].0 && first_from(t, a) && t[b].0 != t[a].0 && (forall|q: int|
            a <= q < b ==> #[trigger] t[q].0 == t[a].0) ==> graph_expanded_by(g, f, t, root, u, b, both)
}

/// What a snapshot of `g` says of how a search expanded nodes, said of `g`.
pub proof fn lemma_graph_expansions<K: Copy + PartialEq, N, E: Copy, F: Fn(K, K, E) -> bool>(
    g: Seq<NodeModel<K, N, E>>,
    s: Snapshot<K, E>,
    f: F,
    root: K,
    t: Seq<(K, K, E)>,
    both: bool,
)
    requires
        s.keys() == keys_of(g),
        s.adj().len() == g.len(),
        forall|i: int| 0 <= i < g.len() ==> #[trigger] s.adj()[i]@ == adj_of(g[i], both),
    ensures
        stack_ordered(s.keys(), s.adj(), f, root, t) ==> graph_stack_ordered(g, f, root, t, both),
        groups_complete(s.keys(), s.adj(), f, root, t) ==> graph_groups_complete(g, f, root, t, both),
{
    assert forall|v: int, n: int| 0 <= v < g.len() && #[trigger] expanded_by(s.keys(), s.adj(), f, t, root, v, n) implies graph_expanded_by(
        g,
        f,
        t,
        root,
        v,
        n,
        both,
    ) by {
        assert(s.keys()[v] == g[v].0);
        assert(s.adj()[v]@ == adj_of(g[v], both));
        assert forall|w: K, e: E| #[trigger] adj_of(g[v], both).contains((w, e)) && has_node(g, w) && !call_ensures(f, (g[v].0, w, e), false)
            implies reached_by(t, root, n, w) by {
            lemma_keys_of(g, w);
        }
    }
    if stack_ordered(s.keys(), s.adj(), f, root, t) {
        assert forall|a: int, iv: int, u: int, v: int|
            #![trigger t[a], t[iv], g[u], g[v]]
            0 <= iv < a < t.len() && 0 <= u < g.len() && 0 <= v < g.len() && g[u].0 == t[a].0 && first_from(t, a) && g[v].0 == t[iv].1 && ((
            g[u].0 == root && !reached_before(t, a, root)) || reached_before(t, iv, g[u].0)) implies graph_expanded_by(g, f, t, root, v, a, both) by {
            assert(s.keys()[u] == g[u].0);
            assert(s.keys()[v] == g[v].0);
            assert(expanded_by(s.keys(), s.adj(), f, t, root, v, a));
        }
    }
    if groups_complete(s.keys(), s.adj(), f, root, t) {
        assert forall|a: int, b: int, u: int|
            #![trigger t[a], t[b], g[u]]
            0 <= a < b < t.len() && 0 <= u < g.len() && g[u].0 == t[a].0 && first_from(t, a) && t[b].0 != t[a].0 && (forall|q: int|
                a <= q < b ==> #[trigger] t[q].0 == t[a].0) implies graph_expanded_by(g, f, t, root, u, b, both) by {
            assert(s.keys()[u] == g[u].0);
            assert(expanded_by(s.keys(), s.adj(), f, t, root, u, b));
        }
    }
}

/// Node `v` of `g` ranks strictly before node `u` in the order a priority
/// search takes them: fewer nodes have a smaller value for `min`, more
/// otherwise.
pub open spec fn graph_ranks_before<K, N: PartialOrd, E>(g: Seq<NodeModel<K, N, E>>, v: int, u: int, min: bool) -> bool {
    if min {
        count_less(values_of(g), g[v].1) < count_less(values_of(g), g[u].1)
    } else {
        count_less(values_of(g), g[v].1) > count_less(values_of(g), g[u].1)
    }
}

/// The tree `t` of a priority search of `g` from `root`: when a node `u` is
/// expanded (where its first edge in `t` stands), every node reached by
/// then that ranks strictly before `u` has been expanded already: each of
/// its edges to a node of `g` that `f` does not refuse ends at a node
/// reached by then.
pub open spec fn graph_priority_ordered<K, N: PartialOrd, E, F: Fn(K, K, E) -> bool>(
    g: Seq<NodeModel<K, N, E>>,
    f: F,
    root: K,
    t: Seq<(K, K, E)>,
    min: bool,
    both: bool,
) -> bool {
    forall|a: int, u: int, v: int|
        #![trigger t[a], g[u], g[v]]
        0 <= a < t.len() && 0 <= u < g.len() && 0 <= v < g.len() && g[u].0 == t[a].0 && first_from(t, a) && reached_by(
            t,
            root,
            a,
            g[v].0,
        ) && graph_ranks_before(g, v, u, min) ==> forall|w: K, e: E| #[trigger]
            adj_of(g[v], both).contains((w, e)) && has_node(g, w) && !call_ensures(f, (g[v].0, w, e), false) ==> reached_by(t, root, a, w)
}

/// What a ranked snapshot of `g` says of the order of a priority search,
/// said of `g`.
pub proof fn lemma_graph_priority_ordered<K: Copy + PartialEq, N: PartialOrd, E: Copy, F: Fn(K, K, E) -> bool>(
    g: Seq<NodeModel<K, N, E>>,
    s: Snapshot<K, E>,
    f: F,
    root: K,
    t: Seq<(K, K, E)>,
    min: bool,
    both: bool,
)
    requires
        s.keys() == keys_of(g),
        s.adj().len() == g.len(),
        forall|i: int| 0 <= i < g.len() ==> #[trigger] s.adj()[i]@ == adj_of(g[i], both),
        forall|i: int| 0 <= i < g.len() ==> #[trigger] s.ranks()[i] == count_less(values_of(g), g[i].1),
        priority_ordered(s.keys(), s.adj(), s.ranks(), f, root, t, min),
    ensures
        graph_priority_ordered(g, f, root, t, min, both),
{
    assert forall|a: int, u: int, v: int|
        #![trigger t[a], g[u], g[v]]
        0 <= a < t.len() && 0 <= u < g.len() && 0 <= v < g.len() && g[u].0 == t[a].0 && first_from(t, a) && reached_by(
            t,
            root,
            a,
            g[v].0,
        ) && graph_ranks_before(g, v, u, min) implies forall|w: K, e: E| #[trigger]
            adj_of(g[v], both).contains((w, e)) && has_node(g, w) && !call_ensures(f, (g[v].0, w, e), false) ==> reached_by(t, root, a, w) by {
        assert(s.keys()[u] == g[u].0);
        assert(s.keys()[v] == g[v].0);
        assert(s.ranks()[u] == count_less(values_of(g), g[u].1));
        assert(s.ranks()[v] == count_less(values_of(g), g[v].1));
        assert(s.adj()[v]@ == adj_of(g[v], both));
        assert forall|w: K, e: E| #[trigger] adj_of(g[v], both).contains((w, e)) && has_node(g, w) && !call_ensures(f, (g[v].0, w, e), false)
            implies reached_by(t, root, a, w) by {
            lemma_keys_of(g, w);
        }
    }
}

/// The node values.
pub open spec fn values_of<K, N, E>(s: Seq<NodeModel<K, N, E>>) -> Seq<N> {
    s.map_values(|n: NodeModel<K, N, E>| n.1)
}

/// `a` is less than `b`.
pub open spec fn value_lt<N: PartialOrd>(a: N, b: N) -> bool {
    a.partial_cmp_spec(&b) == Some(core::cmp::Ordering::Less)
}

/// Number of values in `s` less than `x`.
pub open spec fn count_less<N: PartialOrd>(s: Seq<N>, x: N) -> nat {
    s.filter(|z: N| value_lt(z, x)).len()
}

/// The node with key `u` has an edge to the node with key `v`.
pub open spec fn connected_in<K, N, E>(s: Seq<NodeModel<K, N, E>>, u: K, v: K) -> bool {
    exists|i: int| 0 <= i < s.len() && s[i].0 == u && #[trigger] has_key(s[i].2, v)
}

/// Node `n` once the edge `u -> v` with value `e` is added to the graph.
pub open spec fn with_edge<K, N, E>(n: NodeModel<K, N, E>, u: K, v: K, e: E) -> NodeModel<K, N, E> {
    (n.0, n.1, if n.0 == u { n.2.push((v, e)) } else { n.2 }, if n.0 == v { n.3.push((u, e)) } else { n.3 })
}

/// Node `n` once the first edge `u -> v` is removed from the graph.
pub open spec fn without_edge<K, N, E>(n: NodeModel<K, N, E>, u: K, v: K) -> NodeModel<K, N, E> {
    (n.0, n.1, if n.0 == u { remove_first(n.2, v) } else { n.2 }, if n.0 == v { remove_first(n.3, u) } else { n.3 })
}

/// Node `n` once every edge at the node with key `k` is removed.
pub open spec fn cut_off<K, N, E>(n: NodeModel<K, N, E>, k: K) -> NodeModel<K, N, E> {
    (
        n.0,
        n.1,
        if n.0 == k { Seq::<(K, E)>::empty() } else { without_key(n.2, k) },
        if n.0 == k { Seq::<(K, E)>::empty() } else { without_key(n.3, k) },
    )
}

/// `s` with the first pair whose key is `k` removed (unchanged if none).
pub open spec fn remove_first<K, E>(s: Seq<(K, E)>, k: K) -> Seq<(K, E)> {
    match first_with_key(s, k) {
        Some(i) => s.remove(i),
        None => s,
    }
}

/// The selection made by `Graph::select`.
pub open spec fn selected<K, N, E>(n: NodeModel<K, N, E>, kind: u8) -> bool {
    if kind == 0 {
        n.3.len() == 0
    } else if kind == 1 {
        n.2.len() == 0
    } else {
        n.2.len() == 0 && n.3.len() == 0
    }
}

} // verus!
