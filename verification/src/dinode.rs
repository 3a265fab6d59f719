//! Directed graphs of self-contained nodes: a node owns its key, its parameters and its edge lists, and is
//! connected to other nodes on its own before it joins a graph. Nodes are
//! identified by their keys.
use vstd::prelude::*;
use crate::keys_compare;
use crate::adjacent::{has_key, first_with_key, last_with_key};
use crate::digraph::{Node, Graph, NodeModel, cut_off, has_node, keys_of, distinct_keys, graph_walk, lemma_graph_walk_is_walk, lemma_keys_of,
    graph_none_shorter, no_graph_loop, lemma_graph_none_shorter, graph_priority_ordered, lemma_graph_priority_ordered, count_less,
    graph_stack_ordered, graph_groups_complete, lemma_graph_expansions,
    values_of, graph_first_edges, lemma_graph_first_edges};
use crate::search::{
    Snapshot, backtracked, distinct_targets, ends_stuck, end_key, stuck_at, Strategy, backtrack, is_tree, is_step, accepts, rooted, chained, edges_from, walk_nodes, walk_keys, extends, added, lemma_rooted_append, is_walk, blocked,
    closed_search, lemma_closed_search_no_walk, none_shorter, no_loop_at, priority_ordered, stack_ordered, groups_complete, first_edges,
};
use crate::traverse::depth;
use crate::graph_search::{follow_all, lemma_follow_all_never_blocked};
use vstd::std_specs::cmp::PartialOrdSpec;

verus! {

/// An edge `source -> target` with its parameters.
#[derive(Clone, Copy)]
pub struct DiEdge<K, E> {
    source: K,
    target: K,
    params: E,
}

impl<K, E> View for DiEdge<K, E> {
    type V = (K, K, E);

    closed spec fn view(&self) -> (K, K, E) {
        (self.source, self.target, self.params)
    }
}

/// A second handle on an edge, given out by `DiEdge::downgrade`.
pub struct WeakDiEdge<K, E> {
    edge: DiEdge<K, E>,
}

impl<K, E> View for WeakDiEdge<K, E> {
    type V = (K, K, E);

    closed spec fn view(&self) -> (K, K, E) {
        self.edge@
    }
}

impl<K: Copy, E: Copy> DiEdge<K, E> {
    /// An edge with the given ends and parameters.
    pub fn make(source: K, target: K, params: E) -> (r: Self)
        ensures
            r@ == (source, target, params),
    {
        DiEdge { source, target, params }
    }

    /// A second handle on this edge.
    pub fn downgrade(&self) -> (r: WeakDiEdge<K, E>)
        ensures
            r@ == self@,
    {
        WeakDiEdge { edge: *self }
    }

    /// The node the edge leaves.
    pub fn source(&self) -> (r: K)
        ensures
            r == self@.0,
    {
        self.source
    }

    /// The node the edge enters.
    pub fn target(&self) -> (r: K)
        ensures
            r == self@.1,
    {
        self.target
    }

    /// The edge's parameters.
    pub fn params(&self) -> (r: &E)
        ensures
            *r == self@.2,
    {
        &self.params
    }

    /// Source, target and parameters.
    pub fn decomp(&self) -> (r: (K, K, E))
        ensures
            r == self@,
    {
        (self.source, self.target, self.params)
    }
}

/// `(neighbour, parameters)` pairs leaving `from` as edge triples.
pub open spec fn di_out<K, E>(from: K, s: Seq<(K, E)>) -> Seq<(K, K, E)> {
    s.map_values(|x: (K, E)| (from, x.0, x.1))
}

/// `(neighbour, parameters)` pairs entering `to` as edge triples.
pub open spec fn di_in<K, E>(to: K, s: Seq<(K, E)>) -> Seq<(K, K, E)> {
    s.map_values(|x: (K, E)| (x.0, to, x.1))
}

/// The views of a list of edges.
pub open spec fn di_views<K, E>(s: Seq<DiEdge<K, E>>) -> Seq<(K, K, E)> {
    s.map_values(|e: DiEdge<K, E>| e@)
}

/// The pairs of `s` as edges leaving `me` (`outward`) or entering it.
fn di_pairs_to_edges<K: Copy, E: Copy>(me: K, s: &Vec<(K, E)>, outward: bool) -> (r: Vec<DiEdge<K, E>>)
    ensures
        outward ==> di_views(r@) == di_out(me, s@),
        !outward ==> di_views(r@) == di_in(me, s@),
{
    let mut r: Vec<DiEdge<K, E>> = Vec::new();
    let mut i: usize = 0;
    while i < s.len()
        invariant
            i <= s@.len(),
            outward ==> di_views(r@) == di_out(me, s@.subrange(0, i as int)),
            !outward ==> di_views(r@) == di_in(me, s@.subrange(0, i as int)),
        decreases s@.len() - i,
    {
        let x = s[i];
        let e = if outward {
            DiEdge { source: me, target: x.0, params: x.1 }
        } else {
            DiEdge { source: x.0, target: me, params: x.1 }
        };
        let ghost r0 = r@;
        r.push(e);
        proof {
            assert(s@.subrange(0, i + 1) == s@.subrange(0, i as int).push(x));
            assert(di_views(r@) =~= di_views(r0).push(e@));
            if outward {
                assert(e@ == (me, x.0, x.1));
                assert(di_views(r@) =~= di_out(me, s@.subrange(0, i + 1)));
            } else {
                assert(e@ == (x.0, me, x.1));
                assert(di_views(r@) =~= di_in(me, s@.subrange(0, i + 1)));
            }
        }
        i = i + 1;
    }
    proof {
        assert(s@.subrange(0, s@.len() as int) == s@);
    }
    r
}

/// The triples of `v` as edges.
fn di_triples_to_edges<K: Copy, E: Copy>(v: &Vec<(K, K, E)>) -> (r: Vec<DiEdge<K, E>>)
    ensures
        di_views(r@) == v@,
{
    let mut r: Vec<DiEdge<K, E>> = Vec::new();
    let mut i: usize = 0;
    while i < v.len()
        invariant
            i <= v@.len(),
            di_views(r@) == v@.subrange(0, i as int),
        decreases v@.len() - i,
    {
        let x = v[i];
        r.push(DiEdge { source: x.0, target: x.1, params: x.2 });
        proof {
            assert(v@.subrange(0, i + 1) == v@.subrange(0, i as int).push(x));
            assert(di_views(r@) =~= v@.subrange(0, i + 1));
        }
        i = i + 1;
    }
    proof {
        assert(v@.subrange(0, v@.len() as int) == v@);
    }
    r
}

/// A node: key, parameters, outbound and inbound edges.
pub struct DiNode<K, N, E> {
    node: Node<K, N, E>,
}

impl<K, N, E> View for DiNode<K, N, E> {
    type V = NodeModel<K, N, E>;

    closed spec fn view(&self) -> NodeModel<K, N, E> {
        self.node@
    }
}

impl<K: Copy + PartialEq, N, E: Copy> DiNode<K, N, E> {
    /// A node with the given key and parameters and no edge.
    pub fn new(key: K, params: N) -> (r: Self)
        ensures
            r@ == (key, params, Seq::<(K, E)>::empty(), Seq::<(K, E)>::empty()),
    {
        DiNode { node: Node::new(key, params) }
    }

    /// The node's key.
    pub fn key(&self) -> (r: &K)
        ensures
            *r == self@.0,
    {
        self.node.key()
    }

    /// The node's parameters.
    pub fn params(&self) -> (r: &N)
        ensures
            *r == self@.1,
    {
        self.node.params()
    }

    /// The edges leaving the node.
    pub fn outbound(&self) -> (r: Vec<DiEdge<K, E>>)
        ensures
            di_views(r@) == di_out(self@.0, self@.2),
    {
        di_pairs_to_edges(*self.node.key(), self.node.outbound(), true)
    }

    /// The first edge from this node to the node with key `other`.
    pub fn find_outbound(&self, other: &K) -> (r: Option<DiEdge<K, E>>)
        requires
            keys_compare::<K>(),
        ensures
            match first_with_key(self@.2, *other) {
                Some(i) => r matches Some(e) && e@ == (self@.0, self@.2[i].0, self@.2[i].1),
                None => r is None,
            },
    {
        match self.node.edges().find_outbound(other) {
            Some(x) => Some(DiEdge { source: *self.node.key(), target: x.0, params: x.1 }),
            None => None,
        }
    }

    /// The edges entering the node.
    pub fn inbound(&self) -> (r: Vec<DiEdge<K, E>>)
        ensures
            di_views(r@) == di_in(self@.0, self@.3),
    {
        di_pairs_to_edges(*self.node.key(), self.node.inbound(), false)
    }

    /// The first edge into this node from the node with key `other`.
    pub fn find_inbound(&self, other: &K) -> (r: Option<DiEdge<K, E>>)
        requires
            keys_compare::<K>(),
        ensures
            match first_with_key(self@.3, *other) {
                Some(i) => r matches Some(e) && e@ == (self@.3[i].0, self@.0, self@.3[i].1),
                None => r is None,
            },
    {
        match self.node.edges().find_inbound(other) {
            Some(x) => Some(DiEdge { source: x.0, target: *self.node.key(), params: x.1 }),
            None => None,
        }
    }

    /// There is an edge from this node to the node with key `other`.
    pub fn is_connected(&self, other: &K) -> (r: bool)
        requires
            keys_compare::<K>(),
        ensures
            r == has_key(self@.2, *other),
    {
        self.node.is_connected(other)
    }

    /// Adds the edge `self -> other`, recorded in both nodes.
    pub fn connect(&mut self, other: &mut Self, params: E)
        ensures
            final(self)@ == (old(self)@.0, old(self)@.1, old(self)@.2.push((old(other)@.0, params)), old(self)@.3),
            final(other)@ == (old(other)@.0, old(other)@.1, old(other)@.2, old(other)@.3.push((old(self)@.0, params))),
    {
        self.node.connect(&mut other.node, params);
    }

    /// Adds the edge `self -> other` unless this node already has an edge
    /// to a node with `other`'s key; returns whether it was added.
    pub fn try_connect(&mut self, other: &mut Self, params: E) -> (r: bool)
        requires
            keys_compare::<K>(),
        ensures
            r == !has_key(old(self)@.2, old(other)@.0),
            !r ==> final(self)@ == old(self)@ && final(other)@ == old(other)@,
            r ==> final(self)@ == (old(self)@.0, old(self)@.1, old(self)@.2.push((old(other)@.0, params)), old(self)@.3)
                && final(other)@ == (old(other)@.0, old(other)@.1, old(other)@.2, old(other)@.3.push((old(self)@.0, params))),
    {
        self.node.try_connect(&mut other.node, params).is_ok()
    }

    /// Removes the last record of an edge from this node among `other`'s
    /// inbound edges; when there was one, removes the last edge
    /// `self -> other` from this node's outbound edges and returns whether
    /// there was such an edge. Returns false, changing nothing, when
    /// `other` records no edge from this node.
    pub fn disconnect(&mut self, other: &mut Self) -> (r: bool)
        requires
            keys_compare::<K>(),
        ensures
            final(self)@.0 == old(self)@.0 && final(self)@.1 == old(self)@.1 && final(self)@.3 == old(self)@.3,
            final(other)@.0 == old(other)@.0 && final(other)@.1 == old(other)@.1 && final(other)@.2 == old(other)@.2,
            match last_with_key(old(other)@.3, old(self)@.0) {
                Some(j) => final(other)@.3 == old(other)@.3.remove(j) && match last_with_key(old(self)@.2, old(other)@.0) {
                    Some(i) => r && final(self)@.2 == old(self)@.2.remove(i),
                    None => !r && final(self)@.2 == old(self)@.2,
                },
                None => !r && final(self)@ == old(self)@ && final(other)@ == old(other)@,
            },
    {
        let me = *self.node.key();
        let them = *other.node.key();
        if other.node.delete_last_inbound(&me) {
            self.node.delete_last_outbound(&them)
        } else {
            false
        }
    }

    /// Removes every edge entering or leaving this node, in both
    /// directions: afterwards no node of `g` records an edge to or from it,
    /// and its own lists are empty.
    pub fn isolate(&mut self, g: &mut DiGraph<K, N, E>)
        requires
            keys_compare::<K>(),
            old(g).wf(),
        ensures
            final(self)@ == (old(self)@.0, old(self)@.1, Seq::<(K, E)>::empty(), Seq::<(K, E)>::empty()),
            final(g).wf(),
            final(g)@ == old(g)@.map_values(|n: NodeModel<K, N, E>| cut_off(n, old(self)@.0)),
    {
        let me = *self.node.key();
        g.isolate(&me);
        self.node.clear();
    }

    /// A search from this node that has not run.
    pub fn search(&self) -> (r: DiNodeSearch<K, E>)
        ensures
            r.root_key() == self@.0,
            r.tree() == Seq::<(K, K, E)>::empty(),
            r.wf(),
    {
        DiNodeSearch { root: *self.node.key(), edge_tree: Vec::new() }
    }
}

impl<K: Copy + PartialEq, N: Copy, E: Copy> DiNode<K, N, E> {
    /// A copy of the node.
    fn duplicate(&self) -> (r: Self)
        ensures
            r@ == self@,
    {
        DiNode { node: self.node.duplicate() }
    }
}

/// The views of a list of nodes.
pub open spec fn di_node_views<K, N, E>(s: Seq<DiNode<K, N, E>>) -> Seq<NodeModel<K, N, E>> {
    s.map_values(|n: DiNode<K, N, E>| n@)
}

/// Copies of the nodes of `v`.
fn di_own_nodes<K: Copy + PartialEq, N: Copy, E: Copy>(v: &Vec<&Node<K, N, E>>) -> (r: Vec<DiNode<K, N, E>>)
    ensures
        di_node_views(r@) == v@.map_values(|n: &Node<K, N, E>| n@),
{
    let ghost w = v@.map_values(|n: &Node<K, N, E>| n@);
    let mut r: Vec<DiNode<K, N, E>> = Vec::new();
    let mut i: usize = 0;
    while i < v.len()
        invariant
            i <= v@.len(),
            w == v@.map_values(|n: &Node<K, N, E>| n@),
            di_node_views(r@) == w.subrange(0, i as int),
        decreases v@.len() - i,
    {
        let n = DiNode { node: v[i].duplicate() };
        r.push(n);
        proof {
            assert(w.subrange(0, i + 1) == w.subrange(0, i as int).push(w[i as int]));
            assert(di_node_views(r@) =~= w.subrange(0, i + 1));
        }
        i = i + 1;
    }
    proof {
        assert(w.subrange(0, w.len() as int) == w);
    }
    r
}

/// A graph: nodes with distinct keys.
pub struct DiGraph<K, N, E> {
    graph: Graph<K, N, E>,
}

impl<K, N, E> View for DiGraph<K, N, E> {
    type V = Seq<NodeModel<K, N, E>>;

    closed spec fn view(&self) -> Seq<NodeModel<K, N, E>> {
        self.graph@
    }
}

impl<K: Copy + PartialEq, N, E: Copy> DiGraph<K, N, E> {
    /// No two nodes share a key.
    pub open spec fn wf(&self) -> bool {
        distinct_keys(self@)
    }

    /// An empty graph.
    pub fn new() -> (g: Self)
        ensures
            g@ == Seq::<NodeModel<K, N, E>>::empty(),
            g.wf(),
    {
        DiGraph { graph: Graph::new() }
    }

    /// A node with key `key` is in the graph.
    pub fn contains(&self, key: &K) -> (r: bool)
        requires
            keys_compare::<K>(),
        ensures
            r == has_node(self@, *key),
    {
        self.graph.contains(key)
    }

    /// Number of nodes.
    pub fn len(&self) -> (r: usize)
        ensures
            r == self@.len(),
    {
        self.graph.len()
    }

    /// The graph has no node.
    pub fn is_empty(&self) -> (r: bool)
        ensures
            r == (self@.len() == 0),
    {
        self.graph.is_empty()
    }

    /// Adds `node` unless a node with its key is in the graph; returns
    /// whether it was added.
    pub fn insert(&mut self, node: DiNode<K, N, E>) -> (r: bool)
        requires
            keys_compare::<K>(),
            old(self).wf(),
        ensures
            final(self).wf(),
            r == !has_node(old(self)@, node@.0),
            r ==> final(self)@ == old(self)@.push(node@),
            !r ==> final(self)@ == old(self)@,
    {
        self.graph.insert(node.node)
    }

    /// Removes the node with key `key` and gives it back.
    pub fn remove(&mut self, key: &K) -> (r: Option<DiNode<K, N, E>>)
        requires
            keys_compare::<K>(),
            old(self).wf(),
        ensures
            !has_node(final(self)@, *key),
            final(self).wf(),
            match r {
                Some(n) => n@.0 == *key && exists|i: int|
                    0 <= i < old(self)@.len() && old(self)@[i] == n@ && final(self)@ == old(self)@.remove(i),
                None => !has_node(old(self)@, *key) && final(self)@ == old(self)@,
            },
    {
        match self.graph.remove(key) {
            Some(n) => {
                let r = DiNode { node: n };
                proof {
                    let i = choose|i: int| 0 <= i < old(self)@.len() && old(self)@[i] == n@ && self@ == old(self)@.remove(i);
                    assert(r@ == n@);
                    assert(0 <= i < old(self)@.len() && old(self)@[i] == r@ && self@ == old(self)@.remove(i));
                }
                Some(r)
            },
            None => None,
        }
    }

    /// Removes every edge entering or leaving the node with key `key`, from
    /// every node's lists: afterwards no node of the graph records an edge
    /// to or from it, and its own lists are empty.
    pub fn isolate(&mut self, key: &K)
        requires
            keys_compare::<K>(),
            old(self).wf(),
        ensures
            final(self).wf(),
            final(self)@ == old(self)@.map_values(|n: NodeModel<K, N, E>| cut_off(n, *key)),
    {
        self.graph.isolate(key);
    }

    /// The graph as searches see it.
    fn snapshot(&self) -> (s: Snapshot<K, E>)
        ensures
            s.wf(),
            s.keys() == keys_of(self@),
            forall|i: int| 0 <= i < self@.len() ==> #[trigger] s.adj()[i]@ == self@[i].2,
    {
        self.graph.snapshot()
    }
}

impl<K: Copy + PartialEq, N: Copy, E: Copy> DiGraph<K, N, E> {
    /// A copy of the node with key `key`.
    pub fn get(&self, key: &K) -> (r: Option<DiNode<K, N, E>>)
        requires
            keys_compare::<K>(),
        ensures
            match r {
                Some(n) => n@.0 == *key && self@.contains(n@),
                None => !has_node(self@, *key),
            },
    {
        match self.graph.get(key) {
            Some(n) => Some(DiNode { node: n.duplicate() }),
            None => None,
        }
    }

    /// Copies of the nodes, in insertion order.
    pub fn to_vec(&self) -> (r: Vec<DiNode<K, N, E>>)
        ensures
            di_node_views(r@) == self@,
    {
        di_own_nodes(&self.graph.to_vec())
    }

    /// Copies of the nodes no edge enters or leaves.
    pub fn orphans(&self) -> (r: Vec<DiNode<K, N, E>>)
        ensures
            di_node_views(r@) == self@.filter(|n: NodeModel<K, N, E>| n.2.len() == 0 && n.3.len() == 0),
    {
        di_own_nodes(&self.graph.orphans())
    }

    /// Copies of the nodes no edge enters.
    pub fn roots(&self) -> (r: Vec<DiNode<K, N, E>>)
        ensures
            di_node_views(r@) == self@.filter(|n: NodeModel<K, N, E>| n.3.len() == 0),
    {
        di_own_nodes(&self.graph.roots())
    }

    /// Copies of the nodes no edge leaves.
    pub fn leaves(&self) -> (r: Vec<DiNode<K, N, E>>)
        ensures
            di_node_views(r@) == self@.filter(|n: NodeModel<K, N, E>| n.2.len() == 0),
    {
        di_own_nodes(&self.graph.leaves())
    }
}

impl<K: Copy + PartialEq, N: PartialOrd, E: Copy> DiGraph<K, N, E> {
    /// The graph as the priority searches see it.
    fn snapshot_ranked(&self) -> (s: Snapshot<K, E>)
        requires
            N::obeys_partial_cmp_spec(),
        ensures
            s.wf(),
            s.keys() == keys_of(self@),
            forall|i: int| 0 <= i < self@.len() ==> #[trigger] s.adj()[i]@ == self@[i].2,
            forall|i: int| 0 <= i < self@.len() ==> #[trigger] s.ranks()[i] == count_less(values_of(self@), self@[i].1),
    {
        self.graph.snapshot_ranked()
    }
}

/// `(u, v, e)` is an edge of the graph (along outbound edges).
pub open spec fn di_step<K, N, E>(g: Seq<NodeModel<K, N, E>>, u: K, v: K, e: E) -> bool {
    exists|i: int| 0 <= i < g.len() && g[i].0 == u && #[trigger] g[i].2.contains((v, e))
}

/// `t` is the edge tree of a search of `g` from `root`: each edge is an
/// edge of `g` from the root or from where an earlier edge ends.
pub open spec fn di_tree<K, N, E>(g: Seq<NodeModel<K, N, E>>, root: K, t: Seq<(K, K, E)>) -> bool {
    &&& rooted(t, root)
    &&& forall|j: int| #![trigger t[j]] 0 <= j < t.len() ==> di_step(g, t[j].0, t[j].1, t[j].2)
}

/// A tree of a snapshot of `g` is a tree of `g`.
proof fn lemma_di_tree<K: Copy + PartialEq, N, E: Copy, F: Fn(K, K, E) -> bool>(g: Seq<NodeModel<K, N, E>>, s: Snapshot<K, E>, root: K, f: F, t: Seq<(K, K, E)>)
    requires
        s.wf(),
        s.keys() == keys_of(g),
        forall|i: int| 0 <= i < g.len() ==> #[trigger] s.adj()[i]@ == g[i].2,
        is_tree(s.keys(), s.adj(), root, f, t),
    ensures
        di_tree(g, root, t),
{
    assert forall|j: int| #![trigger t[j]] 0 <= j < t.len() implies di_step(g, t[j].0, t[j].1, t[j].2) by {
        assert(is_step(s.keys(), s.adj(), t[j].0, t[j].1, t[j].2));
        let i = choose|i: int| #![trigger s.adj()[i]] 0 <= i < s.keys().len() && i < s.adj().len() && s.keys()[i] == t[j].0 && s.adj()[i]@.contains((t[j].1, t[j].2));
        assert(s.adj()[i]@ == g[i].2);
    }
}

/// The chain `t` of a first-edge depth-first search from `root` in `g`
/// ends at a node of `g` with no outbound edge left to follow first.
pub open spec fn di_ends_stuck<K, N, E, F: Fn(K, K, E) -> bool>(g: Seq<NodeModel<K, N, E>>, f: F, t: Seq<(K, K, E)>, root: K) -> bool {
    exists|i: int| 0 <= i < g.len() && g[i].0 == end_key(t, root) && #[trigger] stuck_at(keys_of(g), f, t, root, false, g[i].0, g[i].2)
}

/// What a snapshot of `g` says of where the chain ends, said of `g`.
proof fn lemma_di_ends_stuck<K: Copy + PartialEq, N, E: Copy, F: Fn(K, K, E) -> bool>(
    g: Seq<NodeModel<K, N, E>>,
    s: Snapshot<K, E>,
    f: F,
    t: Seq<(K, K, E)>,
    root: K,
)
    requires
        s.keys() == keys_of(g),
        forall|i: int| 0 <= i < g.len() ==> #[trigger] s.adj()[i]@ == g[i].2,
        ends_stuck(s.keys(), s.adj(), f, t, root, false),
    ensures
        di_ends_stuck(g, f, t, root),
{
    let u = choose|u: usize|
        (u as int) < s.keys().len() && s.keys()[u as int] == end_key(t, root) && #[trigger] stuck_at(
            s.keys(),
            f,
            t,
            root,
            false,
            s.keys()[u as int],
            s.adj()[u as int]@,
        );
    assert(keys_of(g)[u as int] == g[u as int].0);
    assert(s.adj()[u as int]@ == g[u as int].2);
    assert(stuck_at(keys_of(g), f, t, root, false, g[u as int].0, g[u as int].2));
}

/// A search from a node that keeps the edges it followed. Each run
/// appends the edges by which it first reached nodes; in a graph with
/// distinct keys no two edges added by one run end at the same node.
pub struct DiNodeSearch<K, E> {
    root: K,
    edge_tree: Vec<(K, K, E)>,
}

impl<K: Copy + PartialEq, E: Copy> DiNodeSearch<K, E> {
    /// The node the search starts from.
    pub closed spec fn root_key(&self) -> K {
        self.root
    }

    /// The edges the searches run so far have followed, in order.
    pub closed spec fn tree(&self) -> Seq<(K, K, E)> {
        self.edge_tree@
    }

    /// Every edge of the tree starts at the root or where an earlier edge
    /// ends.
    pub open spec fn wf(&self) -> bool {
        rooted(self.tree(), self.root_key())
    }

    /// Runs a search of the snapshot for `target`.
    fn run<F: Fn(K, K, E) -> bool>(&mut self, s: &Snapshot<K, E>, strategy: Strategy, target: &K, f: &F) -> (r: bool)
        requires
            keys_compare::<K>(),
            s.wf(),
            forall|a: K, b: K, c: E| f.requires((a, b, c)),
        ensures
            final(self).root_key() == old(self).root_key(),
            extends(final(self).tree(), old(self).tree()),
            is_tree(s.keys(), s.adj(), final(self).root_key(), *f, added(final(self).tree(), old(self).tree())),
            s.keys().no_duplicates() ==> distinct_targets(added(final(self).tree(), old(self).tree())),
            forall|j: int| #![trigger final(self).tree()[j]] old(self).tree().len() <= j < final(self).tree().len() ==> accepts(
                *f,
                final(self).tree()[j].0,
                final(self).tree()[j].1,
                final(self).tree()[j].2,
            ),
            old(self).wf() ==> final(self).wf(),
            r ==> final(self).tree().len() > old(self).tree().len() && final(self).tree()[final(self).tree().len() - 1].1 == *target,
            s.keys().no_duplicates() && strategy == Strategy::Depth ==> stack_ordered(
                s.keys(),
                s.adj(),
                *f,
                final(self).root_key(),
                added(final(self).tree(), old(self).tree()),
            ) && groups_complete(s.keys(), s.adj(), *f, final(self).root_key(), added(final(self).tree(), old(self).tree())),
            s.keys().no_duplicates() && (strategy == Strategy::PriorityMin || strategy == Strategy::PriorityMax) ==> groups_complete(
                s.keys(),
                s.adj(),
                *f,
                final(self).root_key(),
                added(final(self).tree(), old(self).tree()),
            ),
            s.keys().no_duplicates() && strategy == Strategy::DepthFirstEdge ==> first_edges(
                s.keys(),
                s.adj(),
                *f,
                added(final(self).tree(), old(self).tree()),
                final(self).root_key(),
                false,
            ),
            s.keys().no_duplicates() && (strategy == Strategy::PriorityMin || strategy == Strategy::PriorityMax) ==> priority_ordered(
                s.keys(),
                s.adj(),
                s.ranks(),
                *f,
                final(self).root_key(),
                added(final(self).tree(), old(self).tree()),
                strategy == Strategy::PriorityMin,
            ),
            r && strategy == Strategy::Breadth && s.keys().no_duplicates() && no_loop_at(s.keys(), s.adj(), final(self).root_key()) ==> none_shorter(
                s.keys(),
                s.adj(),
                *f,
                final(self).root_key(),
                *target,
                depth(added(final(self).tree(), old(self).tree()), *target) as int,
            ),
            !r && strategy == Strategy::DepthFirstEdge && s.keys().no_duplicates() && s.keys().contains(final(self).root_key()) ==> ends_stuck(
                s.keys(),
                s.adj(),
                *f,
                added(final(self).tree(), old(self).tree()),
                final(self).root_key(),
                false,
            ),
            !r && strategy != Strategy::DepthFirstEdge && s.keys().no_duplicates() && s.keys().contains(*target) ==> forall|
                p: Seq<(K, K, E)>,
            | #[trigger] is_walk(s.keys(), s.adj(), p, final(self).root_key(), *target) ==> blocked(*f, p),
    {
        let (found, mut tree) = s.run(strategy, &self.root, Some(*target), f, false);
        proof {
            if !found && strategy != Strategy::DepthFirstEdge && s.keys().no_duplicates() && s.keys().contains(*target) {
                assert forall|p: Seq<(K, K, E)>| #[trigger] is_walk(s.keys(), s.adj(), p, self.root, *target) implies blocked(*f, p) by {
                    assert(is_step(s.keys(), s.adj(), p[0].0, p[0].1, p[0].2));
                    let w = choose|w: int| #![trigger s.adj()[w]] 0 <= w < s.keys().len() && w < s.adj().len() && s.keys()[w] == p[0].0
                        && s.adj()[w]@.contains((p[0].1, p[0].2));
                    assert(s.keys().contains(self.root));
                    let (i, vis) = choose|i: usize, vis: Set<usize>| (i as int) < s.keys().len() && s.keys()[i as int] == self.root
                        && #[trigger] closed_search(s.keys(), s.adj(), *f, i, Some(*target), false, vis);
                    lemma_closed_search_no_walk(s.keys(), s.adj(), *f, i, *target, false, vis, p);
                }
            }
        }
        let ghost t0 = self.edge_tree@;
        let ghost t1 = tree@;
        self.edge_tree.append(&mut tree);
        proof {
            let t = self.edge_tree@;
            assert(t.skip(t0.len() as int) =~= t1);
            if rooted(t0, self.root) {
                lemma_rooted_append(t0, t1, self.root);
            }
            assert(extends(t, t0)) by {
                assert forall|i: int| #![trigger t0[i]] 0 <= i < t0.len() implies t[i] == t0[i] by {}
            }
            assert forall|j: int| #![trigger t[j]] t0.len() <= j < t.len() implies accepts(*f, t[j].0, t[j].1, t[j].2) by {
                assert(t1[j - t0.len()] == t[j]);
            }
        }
        found
    }

    /// Searches depth first from the root: from each node it takes
    /// only the first edge to a node not reached yet (`graph_first_edges`),
    /// and stops at a node with no such edge (see `di_ends_stuck`).
    /// Returns whether `target` was reached; the last tree edge then ends
    /// at it.
    pub fn dfs<N>(&mut self, g: &DiGraph<K, N, E>, target: &K) -> (r: bool)
        requires
            keys_compare::<K>(),
        ensures
            final(self).root_key() == old(self).root_key(),
            old(self).wf() ==> final(self).wf(),
            extends(final(self).tree(), old(self).tree()),
            di_tree(g@, final(self).root_key(), added(final(self).tree(), old(self).tree())),
            distinct_keys(g@) ==> distinct_targets(added(final(self).tree(), old(self).tree())),
            r ==> final(self).tree().len() > old(self).tree().len() && final(self).tree()[final(self).tree().len() - 1].1 == *target,
            distinct_keys(g@) ==> graph_first_edges(
                g@,
                follow_all::<K, E>,
                added(final(self).tree(), old(self).tree()),
                final(self).root_key(),
                false,
            ),
            !r && distinct_keys(g@) && has_node(g@, final(self).root_key()) ==> di_ends_stuck(
                g@,
                follow_all::<K, E>,
                added(final(self).tree(), old(self).tree()),
                final(self).root_key(),
            ),
    {
        let s = g.snapshot();
        let r = self.run(&s, Strategy::DepthFirstEdge, target, &follow_all::<K, E>);
        proof {
            if distinct_keys(g@) {
                lemma_keys_of(g@, self.root);
                lemma_graph_first_edges(g@, s, follow_all::<K, E>, added(self.edge_tree@, old(self).edge_tree@), self.root, false);
            }
            lemma_keys_of(g@, *target);
            lemma_keys_of(g@, self.root);
            if !r && distinct_keys(g@) && has_node(g@, self.root) {
                lemma_di_ends_stuck(g@, s, follow_all::<K, E>, added(self.edge_tree@, old(self).edge_tree@), self.root);
            }
            lemma_di_tree(g@, s, self.root, follow_all::<K, E>, added(self.edge_tree@, old(self).edge_tree@));
        }
        r
    }

    /// As `dfs`, following only the edges `(source, target, parameters)`
    /// for which `f` returns true.
    pub fn dfs_map<N, F: Fn(K, K, E) -> bool>(&mut self, g: &DiGraph<K, N, E>, target: &K, f: &F) -> (r: bool)
        requires
            keys_compare::<K>(),
            forall|a: K, b: K, c: E| f.requires((a, b, c)),
        ensures
            final(self).root_key() == old(self).root_key(),
            old(self).wf() ==> final(self).wf(),
            extends(final(self).tree(), old(self).tree()),
            di_tree(g@, final(self).root_key(), added(final(self).tree(), old(self).tree())),
            distinct_keys(g@) ==> distinct_targets(added(final(self).tree(), old(self).tree())),
            forall|j: int| #![trigger final(self).tree()[j]] old(self).tree().len() <= j < final(self).tree().len() ==> accepts(
                *f,
                final(self).tree()[j].0,
                final(self).tree()[j].1,
                final(self).tree()[j].2,
            ),
            r ==> final(self).tree().len() > old(self).tree().len() && final(self).tree()[final(self).tree().len() - 1].1 == *target,
            distinct_keys(g@) ==> graph_first_edges(
                g@,
                *f,
                added(final(self).tree(), old(self).tree()),
                final(self).root_key(),
                false,
            ),
            !r && distinct_keys(g@) && has_node(g@, final(self).root_key()) ==> di_ends_stuck(
                g@,
                *f,
                added(final(self).tree(), old(self).tree()),
                final(self).root_key(),
            ),
    {
        let s = g.snapshot();
        let r = self.run(&s, Strategy::DepthFirstEdge, target, f);
        proof {
            if distinct_keys(g@) {
                lemma_keys_of(g@, self.root);
                lemma_graph_first_edges(g@, s, *f, added(self.edge_tree@, old(self).edge_tree@), self.root, false);
            }
            lemma_keys_of(g@, *target);
            lemma_keys_of(g@, self.root);
            if !r && distinct_keys(g@) && has_node(g@, self.root) {
                lemma_di_ends_stuck(g@, s, *f, added(self.edge_tree@, old(self).edge_tree@), self.root);
            }
            lemma_di_tree(g@, s, self.root, *f, added(self.edge_tree@, old(self).edge_tree@));
        }
        r
    }

    /// Searches breadth first from the root.
    /// Returns whether `target` was reached; the last tree edge then ends
    /// at it, and in a graph with distinct keys and no loop at the root no
    /// walk to `target` is shorter than the tree's path to it.
    pub fn bfs<N>(&mut self, g: &DiGraph<K, N, E>, target: &K) -> (r: bool)
        requires
            keys_compare::<K>(),
        ensures
            final(self).root_key() == old(self).root_key(),
            old(self).wf() ==> final(self).wf(),
            extends(final(self).tree(), old(self).tree()),
            di_tree(g@, final(self).root_key(), added(final(self).tree(), old(self).tree())),
            distinct_keys(g@) ==> distinct_targets(added(final(self).tree(), old(self).tree())),
            r ==> final(self).tree().len() > old(self).tree().len() && final(self).tree()[final(self).tree().len() - 1].1 == *target,
            r && distinct_keys(g@) && no_graph_loop(g@, final(self).root_key(), false) ==> graph_none_shorter(
                g@,
                follow_all::<K, E>,
                final(self).root_key(),
                *target,
                depth(added(final(self).tree(), old(self).tree()), *target) as int,
                false,
            ),
            !r && distinct_keys(g@) && has_node(g@, *target) ==> forall|p: Seq<(K, K, E)>|
                !#[trigger] graph_walk(g@, p, final(self).root_key(), *target, false),
    {
        let s = g.snapshot();
        let r = self.run(&s, Strategy::Breadth, target, &follow_all::<K, E>);
        proof {
            lemma_graph_none_shorter(
                g@,
                s.keys(),
                s.adj(),
                follow_all::<K, E>,
                self.root,
                *target,
                depth(added(self.edge_tree@, old(self).edge_tree@), *target) as int,
                false,
            );
            lemma_keys_of(g@, *target);
            if !r && distinct_keys(g@) && has_node(g@, *target) {
                lemma_keys_of(g@, *target);
                assert forall|p: Seq<(K, K, E)>| #[trigger] graph_walk(g@, p, self.root, *target, false) implies false by {
                    lemma_graph_walk_is_walk(g@, s.keys(), s.adj(), p, self.root, *target, false);
                    lemma_follow_all_never_blocked(p);
                }
            }
            lemma_di_tree(g@, s, self.root, follow_all::<K, E>, added(self.edge_tree@, old(self).edge_tree@));
        }
        r
    }

    /// As `bfs`, following only the edges `(source, target, parameters)`
    /// for which `f` returns true.
    pub fn bfs_map<N, F: Fn(K, K, E) -> bool>(&mut self, g: &DiGraph<K, N, E>, target: &K, f: &F) -> (r: bool)
        requires
            keys_compare::<K>(),
            forall|a: K, b: K, c: E| f.requires((a, b, c)),
        ensures
            final(self).root_key() == old(self).root_key(),
            old(self).wf() ==> final(self).wf(),
            extends(final(self).tree(), old(self).tree()),
            di_tree(g@, final(self).root_key(), added(final(self).tree(), old(self).tree())),
            distinct_keys(g@) ==> distinct_targets(added(final(self).tree(), old(self).tree())),
            forall|j: int| #![trigger final(self).tree()[j]] old(self).tree().len() <= j < final(self).tree().len() ==> accepts(
                *f,
                final(self).tree()[j].0,
                final(self).tree()[j].1,
                final(self).tree()[j].2,
            ),
            r ==> final(self).tree().len() > old(self).tree().len() && final(self).tree()[final(self).tree().len() - 1].1 == *target,
            r && distinct_keys(g@) && no_graph_loop(g@, final(self).root_key(), false) ==> graph_none_shorter(
                g@,
                *f,
                final(self).root_key(),
                *target,
                depth(added(final(self).tree(), old(self).tree()), *target) as int,
                false,
            ),
            !r && distinct_keys(g@) && has_node(g@, *target) ==> forall|p: Seq<(K, K, E)>|
                #[trigger] graph_walk(g@, p, final(self).root_key(), *target, false) ==> blocked(*f, p),
    {
        let s = g.snapshot();
        let r = self.run(&s, Strategy::Breadth, target, f);
        proof {
            lemma_graph_none_shorter(
                g@,
                s.keys(),
                s.adj(),
                *f,
                self.root,
                *target,
                depth(added(self.edge_tree@, old(self).edge_tree@), *target) as int,
                false,
            );
            lemma_keys_of(g@, *target);
            if !r && distinct_keys(g@) && has_node(g@, *target) {
                lemma_keys_of(g@, *target);
                assert forall|p: Seq<(K, K, E)>| #[trigger] graph_walk(g@, p, self.root, *target, false) implies blocked(*f, p) by {
                    lemma_graph_walk_is_walk(g@, s.keys(), s.adj(), p, self.root, *target, false);
                }
            }
            lemma_di_tree(g@, s, self.root, *f, added(self.edge_tree@, old(self).edge_tree@));
        }
        r
    }

    /// Searches from the root, expanding first the reached node whose
    /// parameters are least, until `target` is reached. In a graph with
    /// distinct keys the tree keeps that order (`graph_priority_ordered`)
    /// and records every edge of an expanded node to a node not reached
    /// yet (`graph_groups_complete`).
    /// Returns whether `target` was reached; the last tree edge then ends
    /// at it.
    pub fn pfs_min<N: PartialOrd>(&mut self, g: &DiGraph<K, N, E>, target: &K) -> (r: bool)
        requires
            keys_compare::<K>(),
            N::obeys_partial_cmp_spec(),
        ensures
            final(self).root_key() == old(self).root_key(),
            old(self).wf() ==> final(self).wf(),
            extends(final(self).tree(), old(self).tree()),
            di_tree(g@, final(self).root_key(), added(final(self).tree(), old(self).tree())),
            distinct_keys(g@) ==> distinct_targets(added(final(self).tree(), old(self).tree())),
            r ==> final(self).tree().len() > old(self).tree().len() && final(self).tree()[final(self).tree().len() - 1].1 == *target,
            distinct_keys(g@) ==> graph_groups_complete(g@, follow_all::<K, E>, final(self).root_key(), added(final(self).tree(), old(self).tree()), false),
            distinct_keys(g@) ==> graph_priority_ordered(
                g@,
                follow_all::<K, E>,
                final(self).root_key(),
                added(final(self).tree(), old(self).tree()),
                true,
                false,
            ),
            !r && distinct_keys(g@) && has_node(g@, *target) ==> forall|p: Seq<(K, K, E)>|
                !#[trigger] graph_walk(g@, p, final(self).root_key(), *target, false),
    {
        let s = g.snapshot_ranked();
        let r = self.run(&s, Strategy::PriorityMin, target, &follow_all::<K, E>);
        proof {
            if distinct_keys(g@) {
                lemma_keys_of(g@, self.root);
                lemma_graph_expansions(g@, s, follow_all::<K, E>, self.root, added(self.edge_tree@, old(self).edge_tree@), false);
            }
            if distinct_keys(g@) {
                lemma_keys_of(g@, self.root);
                lemma_graph_priority_ordered(g@, s, follow_all::<K, E>, self.root, added(self.edge_tree@, old(self).edge_tree@), true, false);
            }
            lemma_keys_of(g@, *target);
            if !r && distinct_keys(g@) && has_node(g@, *target) {
                lemma_keys_of(g@, *target);
                assert forall|p: Seq<(K, K, E)>| #[trigger] graph_walk(g@, p, self.root, *target, false) implies false by {
                    lemma_graph_walk_is_walk(g@, s.keys(), s.adj(), p, self.root, *target, false);
                    lemma_follow_all_never_blocked(p);
                }
            }
            lemma_di_tree(g@, s, self.root, follow_all::<K, E>, added(self.edge_tree@, old(self).edge_tree@));
        }
        r
    }

    /// As `pfs_min`, following only the edges `(source, target, parameters)`
    /// for which `f` returns true.
    pub fn pfs_min_map<N: PartialOrd, F: Fn(K, K, E) -> bool>(&mut self, g: &DiGraph<K, N, E>, target: &K, f: &F) -> (r: bool)
        requires
            keys_compare::<K>(),
            N::obeys_partial_cmp_spec(),
            forall|a: K, b: K, c: E| f.requires((a, b, c)),
        ensures
            final(self).root_key() == old(self).root_key(),
            old(self).wf() ==> final(self).wf(),
            extends(final(self).tree(), old(self).tree()),
            di_tree(g@, final(self).root_key(), added(final(self).tree(), old(self).tree())),
            distinct_keys(g@) ==> distinct_targets(added(final(self).tree(), old(self).tree())),
            forall|j: int| #![trigger final(self).tree()[j]] old(self).tree().len() <= j < final(self).tree().len() ==> accepts(
                *f,
                final(self).tree()[j].0,
                final(self).tree()[j].1,
                final(self).tree()[j].2,
            ),
            r ==> final(self).tree().len() > old(self).tree().len() && final(self).tree()[final(self).tree().len() - 1].1 == *target,
            distinct_keys(g@) ==> graph_groups_complete(g@, *f, final(self).root_key(), added(final(self).tree(), old(self).tree()), false),
            distinct_keys(g@) ==> graph_priority_ordered(
                g@,
                *f,
                final(self).root_key(),
                added(final(self).tree(), old(self).tree()),
                true,
                false,
            ),
            !r && distinct_keys(g@) && has_node(g@, *target) ==> forall|p: Seq<(K, K, E)>|
                #[trigger] graph_walk(g@, p, final(self).root_key(), *target, false) ==> blocked(*f, p),
    {
        let s = g.snapshot_ranked();
        let r = self.run(&s, Strategy::PriorityMin, target, f);
        proof {
            if distinct_keys(g@) {
                lemma_keys_of(g@, self.root);
                lemma_graph_expansions(g@, s, *f, self.root, added(self.edge_tree@, old(self).edge_tree@), false);
            }
            if distinct_keys(g@) {
                lemma_keys_of(g@, self.root);
                lemma_graph_priority_ordered(g@, s, *f, self.root, added(self.edge_tree@, old(self).edge_tree@), true, false);
            }
            lemma_keys_of(g@, *target);
            if !r && distinct_keys(g@) && has_node(g@, *target) {
                lemma_keys_of(g@, *target);
                assert forall|p: Seq<(K, K, E)>| #[trigger] graph_walk(g@, p, self.root, *target, false) implies blocked(*f, p) by {
                    lemma_graph_walk_is_walk(g@, s.keys(), s.adj(), p, self.root, *target, false);
                }
            }
            lemma_di_tree(g@, s, self.root, *f, added(self.edge_tree@, old(self).edge_tree@));
        }
        r
    }

    /// Searches from the root, expanding first the reached node whose
    /// parameters are greatest, until `target` is reached. In a graph with
    /// distinct keys the tree keeps that order (`graph_priority_ordered`)
    /// and records every edge of an expanded node to a node not reached
    /// yet (`graph_groups_complete`).
    /// Returns whether `target` was reached; the last tree edge then ends
    /// at it.
    pub fn pfs_max<N: PartialOrd>(&mut self, g: &DiGraph<K, N, E>, target: &K) -> (r: bool)
        requires
            keys_compare::<K>(),
            N::obeys_partial_cmp_spec(),
        ensures
            final(self).root_key() == old(self).root_key(),
            old(self).wf() ==> final(self).wf(),
            extends(final(self).tree(), old(self).tree()),
            di_tree(g@, final(self).root_key(), added(final(self).tree(), old(self).tree())),
            distinct_keys(g@) ==> distinct_targets(added(final(self).tree(), old(self).tree())),
            r ==> final(self).tree().len() > old(self).tree().len() && final(self).tree()[final(self).tree().len() - 1].1 == *target,
            distinct_keys(g@) ==> graph_groups_complete(g@, follow_all::<K, E>, final(self).root_key(), added(final(self).tree(), old(self).tree()), false),
            distinct_keys(g@) ==> graph_priority_ordered(
                g@,
                follow_all::<K, E>,
                final(self).root_key(),
                added(final(self).tree(), old(self).tree()),
                false,
                false,
            ),
            !r && distinct_keys(g@) && has_node(g@, *target) ==> forall|p: Seq<(K, K, E)>|
                !#[trigger] graph_walk(g@, p, final(self).root_key(), *target, false),
    {
        let s = g.snapshot_ranked();
        let r = self.run(&s, Strategy::PriorityMax, target, &follow_all::<K, E>);
        proof {
            if distinct_keys(g@) {
                lemma_keys_of(g@, self.root);
                lemma_graph_expansions(g@, s, follow_all::<K, E>, self.root, added(self.edge_tree@, old(self).edge_tree@), false);
            }
            if distinct_keys(g@) {
                lemma_keys_of(g@, self.root);
                lemma_graph_priority_ordered(g@, s, follow_all::<K, E>, self.root, added(self.edge_tree@, old(self).edge_tree@), false, false);
            }
            lemma_keys_of(g@, *target);
            if !r && distinct_keys(g@) && has_node(g@, *target) {
                lemma_keys_of(g@, *target);
                assert forall|p: Seq<(K, K, E)>| #[trigger] graph_walk(g@, p, self.root, *target, false) implies false by {
                    lemma_graph_walk_is_walk(g@, s.keys(), s.adj(), p, self.root, *target, false);
                    lemma_follow_all_never_blocked(p);
                }
            }
            lemma_di_tree(g@, s, self.root, follow_all::<K, E>, added(self.edge_tree@, old(self).edge_tree@));
        }
        r
    }

    /// As `pfs_max`, following only the edges `(source, target, parameters)`
    /// for which `f` returns true.
    pub fn pfs_max_map<N: PartialOrd, F: Fn(K, K, E) -> bool>(&mut self, g: &DiGraph<K, N, E>, target: &K, f: &F) -> (r: bool)
        requires
            keys_compare::<K>(),
            N::obeys_partial_cmp_spec(),
            forall|a: K, b: K, c: E| f.requires((a, b, c)),
        ensures
            final(self).root_key() == old(self).root_key(),
            old(self).wf() ==> final(self).wf(),
            extends(final(self).tree(), old(self).tree()),
            di_tree(g@, final(self).root_key(), added(final(self).tree(), old(self).tree())),
            distinct_keys(g@) ==> distinct_targets(added(final(self).tree(), old(self).tree())),
            forall|j: int| #![trigger final(self).tree()[j]] old(self).tree().len() <= j < final(self).tree().len() ==> accepts(
                *f,
                final(self).tree()[j].0,
                final(self).tree()[j].1,
                final(self).tree()[j].2,
            ),
            r ==> final(self).tree().len() > old(self).tree().len() && final(self).tree()[final(self).tree().len() - 1].1 == *target,
            distinct_keys(g@) ==> graph_groups_complete(g@, *f, final(self).root_key(), added(final(self).tree(), old(self).tree()), false),
            distinct_keys(g@) ==> graph_priority_ordered(
                g@,
                *f,
                final(self).root_key(),
                added(final(self).tree(), old(self).tree()),
                false,
                false,
            ),
            !r && distinct_keys(g@) && has_node(g@, *target) ==> forall|p: Seq<(K, K, E)>|
                #[trigger] graph_walk(g@, p, final(self).root_key(), *target, false) ==> blocked(*f, p),
    {
        let s = g.snapshot_ranked();
        let r = self.run(&s, Strategy::PriorityMax, target, f);
        proof {
            if distinct_keys(g@) {
                lemma_keys_of(g@, self.root);
                lemma_graph_expansions(g@, s, *f, self.root, added(self.edge_tree@, old(self).edge_tree@), false);
            }
            if distinct_keys(g@) {
                lemma_keys_of(g@, self.root);
                lemma_graph_priority_ordered(g@, s, *f, self.root, added(self.edge_tree@, old(self).edge_tree@), false, false);
            }
            lemma_keys_of(g@, *target);
            if !r && distinct_keys(g@) && has_node(g@, *target) {
                lemma_keys_of(g@, *target);
                assert forall|p: Seq<(K, K, E)>| #[trigger] graph_walk(g@, p, self.root, *target, false) implies blocked(*f, p) by {
                    lemma_graph_walk_is_walk(g@, s.keys(), s.adj(), p, self.root, *target, false);
                }
            }
            lemma_di_tree(g@, s, self.root, *f, added(self.edge_tree@, old(self).edge_tree@));
        }
        r
    }

    /// The path from the root through the tree to its last edge.
    pub fn edge_path(&self) -> (r: Vec<DiEdge<K, E>>)
        requires
            keys_compare::<K>(),
            self.wf(),
            self.tree().len() > 0,
        ensures
            di_views(r@).len() > 0,
            di_views(r@)[0].0 == self.root_key(),
            di_views(r@)[di_views(r@).len() - 1] == self.tree()[self.tree().len() - 1],
            chained(di_views(r@)),
            edges_from(di_views(r@), self.tree()),
            distinct_targets(self.tree()) ==> distinct_targets(di_views(r@)),
            di_views(r@).len() == depth(self.tree(), self.tree()[self.tree().len() - 1].1),
            di_views(r@) == backtracked(self.tree()),
    {
        let p = backtrack(&self.edge_tree);
        di_triples_to_edges(&p)
    }

    /// The keys of the nodes along `edge_path`; empty when the tree is.
    pub fn node_path(&self) -> (r: Vec<K>)
        requires
            keys_compare::<K>(),
            self.wf(),
        ensures
            self.tree().len() == 0 ==> r@.len() == 0,
            self.tree().len() > 0 ==> r@.len() > 0 && r@[0] == self.root_key() && exists|p: Seq<(K, K, E)>|
                r@ == walk_nodes(p) && p.len() > 0 && p[0].0 == self.root_key()
                && p[p.len() - 1] == self.tree()[self.tree().len() - 1] && chained(p) && edges_from(p, self.tree()),
            self.tree().len() > 0 ==> r@ == walk_nodes(backtracked(self.tree())),
    {
        if self.edge_tree.len() == 0 {
            return Vec::new();
        }
        let p = backtrack(&self.edge_tree);
        let r = walk_keys(&p);
        proof {
            assert(r@[0] == p@[0].0);
        }
        r
    }
}

} // verus!
