//! Nodes and edges of an index-based graph: a node knows its position in
//! the graph, and edges name their ends by position. Each carries a lock
//! flag that traversals close and open.
use vstd::prelude::*;

verus! {

/// The state of a lock flag.
#[derive(Clone, Copy, Debug, PartialEq, Eq, Structural)]
pub enum Lock {
    OPEN,
    CLOSED,
}

/// The lock state that a closed flag `closed` stands for.
pub open spec fn lock_of(closed: bool) -> Lock {
    if closed { Lock::CLOSED } else { Lock::OPEN }
}

/// An edge between the nodes at positions `source` and `target`.
pub struct GraphEdge<E> {
    source: usize,
    target: usize,
    arg: E,
    lock: bool,
}

impl<E> View for GraphEdge<E> {
    /// Source, target, argument, closed.
    type V = (usize, usize, E, bool);

    closed spec fn view(&self) -> (usize, usize, E, bool) {
        (self.source, self.target, self.arg, self.lock)
    }
}

impl<E> GraphEdge<E> {
    /// An open edge.
    pub fn new(source: usize, target: usize, arg: E) -> (r: Self)
        ensures
            r@ == (source, target, arg, false),
    {
        GraphEdge { source, target, arg, lock: false }
    }

    /// Opens the lock.
    pub fn lock_open(&mut self)
        ensures
            final(self)@ == (old(self)@.0, old(self)@.1, old(self)@.2, false),
    {
        self.lock = false;
    }

    /// Closes the lock.
    pub fn lock_close(&mut self)
        ensures
            final(self)@ == (old(self)@.0, old(self)@.1, old(self)@.2, true),
    {
        self.lock = true;
    }

    /// The state of the lock.
    pub fn lock_try(&self) -> (r: Lock)
        ensures
            r == lock_of(self@.3),
    {
        if self.lock == false {
            Lock::OPEN
        } else {
            Lock::CLOSED
        }
    }

    /// Position of the source node.
    pub fn get_source(&self) -> (r: usize)
        ensures
            r == self@.0,
    {
        self.source
    }

    /// Position of the target node.
    pub fn get_target(&self) -> (r: usize)
        ensures
            r == self@.1,
    {
        self.target
    }

    /// The edge's argument.
    pub fn get_arg(&self) -> (r: &E)
        ensures
            *r == self@.2,
    {
        &self.arg
    }

    /// The edge's argument, to change it.
    pub fn get_arg_mut(&mut self) -> (r: &mut E)
        ensures
            *r == old(self)@.2,
            final(self)@ == (old(self)@.0, old(self)@.1, *final(r), old(self)@.3),
    {
        &mut self.arg
    }
}

/// Position of the first edge of `s` whose target (`to_end`) or source is `k`.
pub open spec fn first_edge_at<E>(s: Seq<GraphEdge<E>>, k: usize, to_end: bool) -> Option<int> {
    if exists|i: int| 0 <= i < s.len() && (if to_end { s[i]@.1 } else { s[i]@.0 }) == k {
        Some(
            choose|i: int|
                0 <= i < s.len() && (if to_end { s[i]@.1 } else { s[i]@.0 }) == k && forall|j: int|
                    0 <= j < i ==> (if to_end { s[j]@.1 } else { s[j]@.0 }) != k,
        )
    } else {
        None
    }
}

/// Position of the first edge of `v` whose target (`to_end`) or source is
/// `k`.
fn position_at<E>(v: &Vec<GraphEdge<E>>, k: usize, to_end: bool) -> (r: Option<usize>)
    ensures
        match r {
            Some(i) => i < v@.len() && first_edge_at(v@, k, to_end) == Some(i as int),
            None => first_edge_at(v@, k, to_end) is None,
        },
{
    let mut i: usize = 0;
    while i < v.len()
        invariant
            i <= v@.len(),
            forall|j: int| 0 <= j < i ==> (if to_end { v@[j]@.1 } else { v@[j]@.0 }) != k,
        decreases v@.len() - i,
    {
        let end = if to_end { v[i].target } else { v[i].source };
        if end == k {
            proof {
                let c = choose|c: int|
                    0 <= c < v@.len() && (if to_end { v@[c]@.1 } else { v@[c]@.0 }) == k && forall|j: int|
                        0 <= j < c ==> (if to_end { v@[j]@.1 } else { v@[j]@.0 }) != k;
                if c < i {
                } else if c > i {
                    assert((if to_end { v@[i as int]@.1 } else { v@[i as int]@.0 }) == k);
                }
            }
            return Some(i);
        }
        i = i + 1;
    }
    None
}

/// A node at position `index` of a graph, with its edges to (`to`) and
/// from (`from`) other nodes.
pub struct GraphNode<K, N, E> {
    arg: N,
    key: K,
    index: usize,
    to: Vec<GraphEdge<E>>,
    from: Vec<GraphEdge<E>>,
    lock: bool,
}

impl<K, N, E> GraphNode<K, N, E> {
    /// The node's key.
    pub closed spec fn key_spec(&self) -> K {
        self.key
    }

    /// The node's argument.
    pub closed spec fn arg_spec(&self) -> N {
        self.arg
    }

    /// The node's position.
    pub closed spec fn index_spec(&self) -> usize {
        self.index
    }

    /// The lock is closed.
    pub closed spec fn closed(&self) -> bool {
        self.lock
    }

    /// The edges to other nodes.
    pub closed spec fn to_edges(&self) -> Seq<GraphEdge<E>> {
        self.to@
    }

    /// The edges from other nodes.
    pub closed spec fn from_edges(&self) -> Seq<GraphEdge<E>> {
        self.from@
    }

    /// A node with no edge and its lock open.
    pub fn new(key: K, arg: N, index: usize) -> (r: Self)
        ensures
            r.key_spec() == key,
            r.arg_spec() == arg,
            r.index_spec() == index,
            !r.closed(),
            r.to_edges().len() == 0,
            r.from_edges().len() == 0,
    {
        GraphNode { arg, key, index, to: Vec::new(), from: Vec::new(), lock: false }
    }

    /// Opens the lock.
    pub fn lock_open(&mut self)
        ensures
            !final(self).closed(),
            final(self).key_spec() == old(self).key_spec(),
            final(self).arg_spec() == old(self).arg_spec(),
            final(self).index_spec() == old(self).index_spec(),
            final(self).to_edges() == old(self).to_edges(),
            final(self).from_edges() == old(self).from_edges(),
    {
        self.lock = false;
    }

    /// Closes the lock.
    pub fn lock_close(&mut self)
        ensures
            final(self).closed(),
            final(self).key_spec() == old(self).key_spec(),
            final(self).arg_spec() == old(self).arg_spec(),
            final(self).index_spec() == old(self).index_spec(),
            final(self).to_edges() == old(self).to_edges(),
            final(self).from_edges() == old(self).from_edges(),
    {
        self.lock = true;
    }

    /// The state of the lock.
    pub fn lock_try(&self) -> (r: Lock)
        ensures
            r == lock_of(self.closed()),
    {
        if self.lock == false {
            Lock::OPEN
        } else {
            Lock::CLOSED
        }
    }

    /// The node's argument, to change it.
    pub fn get_arg_mut(&mut self) -> (r: &mut N)
        ensures
            *r == old(self).arg_spec(),
            final(self).arg_spec() == *final(r),
            final(self).key_spec() == old(self).key_spec(),
            final(self).index_spec() == old(self).index_spec(),
            final(self).closed() == old(self).closed(),
            final(self).to_edges() == old(self).to_edges(),
            final(self).from_edges() == old(self).from_edges(),
    {
        &mut self.arg
    }

    /// The node's argument.
    pub fn get_arg(&self) -> (r: &N)
        ensures
            *r == self.arg_spec(),
    {
        &self.arg
    }

    /// The node's key.
    pub fn get_key(&self) -> (r: &K)
        ensures
            *r == self.key_spec(),
    {
        &self.key
    }

    /// The node's position.
    pub fn get_index(&self) -> (r: usize)
        ensures
            r == self.index_spec(),
    {
        self.index
    }

    /// Adds `edge` to the edges to other nodes.
    pub fn push_to(&mut self, edge: GraphEdge<E>)
        ensures
            final(self).to_edges() == old(self).to_edges().push(edge),
            final(self).from_edges() == old(self).from_edges(),
            final(self).key_spec() == old(self).key_spec(),
            final(self).arg_spec() == old(self).arg_spec(),
            final(self).index_spec() == old(self).index_spec(),
            final(self).closed() == old(self).closed(),
    {
        self.to.push(edge);
    }

    /// Adds `edge` to the edges from other nodes.
    pub fn push_from(&mut self, edge: GraphEdge<E>)
        ensures
            final(self).from_edges() == old(self).from_edges().push(edge),
            final(self).to_edges() == old(self).to_edges(),
            final(self).key_spec() == old(self).key_spec(),
            final(self).arg_spec() == old(self).arg_spec(),
            final(self).index_spec() == old(self).index_spec(),
            final(self).closed() == old(self).closed(),
    {
        self.from.push(edge);
    }

    /// The first edge to the node at position `target`.
    pub fn find_edge_to(&self, target: usize) -> (r: Option<&GraphEdge<E>>)
        ensures
            match first_edge_at(self.to_edges(), target, true) {
                Some(i) => r matches Some(e) && *e == self.to_edges()[i],
                None => r is None,
            },
    {
        match position_at(&self.to, target, true) {
            Some(i) => Some(&self.to[i]),
            None => None,
        }
    }

    /// The first edge to the node at position `target`, to change it.
    pub fn find_edge_to_mut(&mut self, target: usize) -> (r: Option<&mut GraphEdge<E>>)
        ensures
            final(self).key_spec() == old(self).key_spec(),
            final(self).arg_spec() == old(self).arg_spec(),
            final(self).index_spec() == old(self).index_spec(),
            final(self).closed() == old(self).closed(),
            final(self).from_edges() == old(self).from_edges(),
            match first_edge_at(old(self).to_edges(), target, true) {
                Some(i) => r matches Some(e) && *e == old(self).to_edges()[i] && final(self).to_edges() == old(self).to_edges().update(
                    i,
                    *final(e),
                ),
                None => r is None && final(self).to_edges() == old(self).to_edges(),
            },
    {
        match position_at(&self.to, target, true) {
            Some(i) => Some(&mut self.to[i]),
            None => None,
        }
    }

    /// The first edge from the node at position `source`.
    pub fn find_edge(&self, source: usize) -> (r: Option<&GraphEdge<E>>)
        ensures
            match first_edge_at(self.from_edges(), source, false) {
                Some(i) => r matches Some(e) && *e == self.from_edges()[i],
                None => r is None,
            },
    {
        match position_at(&self.from, source, false) {
            Some(i) => Some(&self.from[i]),
            None => None,
        }
    }

    /// The first edge from the node at position `source`, to change it.
    pub fn find_edge_from(&mut self, source: usize) -> (r: Option<&mut GraphEdge<E>>)
        ensures
            final(self).key_spec() == old(self).key_spec(),
            final(self).arg_spec() == old(self).arg_spec(),
            final(self).index_spec() == old(self).index_spec(),
            final(self).closed() == old(self).closed(),
            final(self).to_edges() == old(self).to_edges(),
            match first_edge_at(old(self).from_edges(), source, false) {
                Some(i) => r matches Some(e) && *e == old(self).from_edges()[i] && final(self).from_edges()
                    == old(self).from_edges().update(i, *final(e)),
                None => r is None && final(self).from_edges() == old(self).from_edges(),
            },
    {
        match position_at(&self.from, source, false) {
            Some(i) => Some(&mut self.from[i]),
            None => None,
        }
    }
}

} // verus!
