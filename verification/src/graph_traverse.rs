//! Step-by-step traversals: each step takes, from a node, the first edge to
//! a node that is not closed yet, closing every node it looks at, and
//! records the edge if the caller's filter accepts it.
use vstd::prelude::*;
use crate::{keys_compare, key_eq};
use crate::adjacent::has_key;
use crate::digraph::{Node, Edge};
use crate::search::accepts;
use crate::heap::{MinHeap, ordered, least_of};

verus! {

/// An edge of `t` starts or ends at `k`.
pub open spec fn touches<K, E>(t: Seq<(K, K, E)>, k: K) -> bool {
    exists|j: int| 0 <= j < t.len() && (#[trigger] t[j].0 == k || t[j].1 == k)
}

/// `k` is in the list.
fn holds<K: Copy + PartialEq>(v: &Vec<K>, k: &K) -> (r: bool)
    requires
        keys_compare::<K>(),
    ensures
        r == v@.contains(*k),
{
    let mut i: usize = 0;
    while i < v.len()
        invariant
            keys_compare::<K>(),
            i <= v@.len(),
            forall|j: int| 0 <= j < i ==> v@[j] != *k,
        decreases v@.len() - i,
    {
        if key_eq(&v[i], k) {
            return true;
        }
        i = i + 1;
    }
    false
}

/// The edge at `i` of `out` leads to a node that is neither in `closed`
/// nor the target of an earlier edge.
pub open spec fn first_open<K, E>(out: Seq<(K, E)>, closed: Seq<K>, i: int) -> bool {
    &&& !closed.contains(out[i].0)
    &&& forall|j: int| 0 <= j < i ==> #[trigger] out[j].0 != out[i].0
}

/// Of the first `n` edges of `out` leaving `u`, `f` refused every one that
/// leads to a node neither in `closed` nor reached by an earlier edge.
pub open spec fn open_refused<K, E, F: Fn(K, K, E) -> bool>(f: F, u: K, out: Seq<(K, E)>, closed: Seq<K>, n: int) -> bool {
    forall|j: int| 0 <= j < n && #[trigger] first_open(out, closed, j) ==> call_ensures(f, (u, out[j].0, out[j].1), false)
}

/// `c` holds what `closed` holds and the targets of the first `n` edges of
/// `out`, and nothing else.
pub open spec fn closed_upto<K, E>(c: Seq<K>, closed: Seq<K>, out: Seq<(K, E)>, n: int) -> bool {
    forall|k: K| #[trigger] c.contains(k) <==> closed.contains(k) || exists|j: int| 0 <= j < n && out[j].0 == k
}

/// What `close_first_open` does: it takes the edges leaving the node in
/// order, closing the target of each; it stops at the first edge to a node
/// neither closed before nor reached by an earlier edge that `f` accepts
/// (`Some`), having closed the targets up to it, or, when `f` refuses every
/// such edge, closes every target (`None`).
pub open spec fn closes_first_open<K, E, F: Fn(K, K, E) -> bool>(
    f: F,
    u: K,
    out: Seq<(K, E)>,
    closed0: Seq<K>,
    closed1: Seq<K>,
    r: Option<(K, K, E)>,
) -> bool {
    match r {
        Some(x) => exists|i: int|
            0 <= i < out.len() && out[i] == (x.1, x.2) && x.0 == u && first_open(out, closed0, i) && accepts(f, x.0, x.1, x.2)
                && open_refused(f, u, out, closed0, i) && closed_upto(closed1, closed0, out, i + 1),
        None => open_refused(f, u, out, closed0, out.len() as int) && closed_upto(closed1, closed0, out, out.len() as int),
    }
}

/// Goes through the edges leaving `node` in order: a target not in
/// `closed` is added to it, and the first such edge that `f` accepts is
/// returned.
fn close_first_open<K: Copy + PartialEq, N, E: Copy, F: Fn(K, K, E) -> bool>(
    closed: &mut Vec<K>,
    node: &Node<K, N, E>,
    f: &F,
) -> (r: Option<(K, K, E)>)
    requires
        keys_compare::<K>(),
        forall|a: K, b: K, c: E| f.requires((a, b, c)),
    ensures
        forall|k: K| old(closed)@.contains(k) ==> #[trigger] final(closed)@.contains(k),
        forall|k: K| #[trigger] final(closed)@.contains(k) ==> old(closed)@.contains(k) || has_key(node@.2, k),
        r matches Some(x) ==> x.0 == node@.0 && node@.2.contains((x.1, x.2)) && !old(closed)@.contains(x.1) && accepts(
            *f,
            x.0,
            x.1,
            x.2,
        ),
        closes_first_open(*f, node@.0, node@.2, old(closed)@, final(closed)@, r),
{
    let out = node.outbound();
    let u = *node.key();
    let mut i: usize = 0;
    while i < out.len()
        invariant
            keys_compare::<K>(),
            forall|a: K, b: K, c: E| f.requires((a, b, c)),
            out@ == node@.2,
            u == node@.0,
            i <= out@.len(),
            forall|k: K| old(closed)@.contains(k) ==> #[trigger] closed@.contains(k),
            forall|k: K| #[trigger] closed@.contains(k) ==> old(closed)@.contains(k) || has_key(node@.2, k),
            closed_upto(closed@, old(closed)@, out@, i as int),
            open_refused(*f, u, out@, old(closed)@, i as int),
        decreases out@.len() - i,
    {
        let (v, e) = out[i];
        let ghost c0 = closed@;
        proof {
            assert(out@[i as int] == (v, e));
        }
        if !holds(closed, &v) {
            closed.push(v);
            proof {
                assert(out@[i as int].0 == v);
                assert(has_key(node@.2, v));
                assert forall|k: K| old(closed)@.contains(k) implies #[trigger] closed@.contains(k) by {
                    if c0.contains(k) {
                        let q = choose|q: int| 0 <= q < c0.len() && c0[q] == k;
                        assert(closed@[q] == c0[q]);
                    }
                }
                assert forall|k: K| #[trigger] closed@.contains(k) implies old(closed)@.contains(k) || has_key(node@.2, k) by {
                    let q = choose|q: int| 0 <= q < closed@.len() && closed@[q] == k;
                    if q < c0.len() {
                        assert(c0[q] == k);
                        assert(c0.contains(k));
                    }
                }
                assert(!old(closed)@.contains(v));
                assert forall|k: K| #[trigger] closed@.contains(k) <==> old(closed)@.contains(k) || exists|j: int| 0 <= j < i + 1
                    && out@[j].0 == k by {
                    if closed@.contains(k) {
                        let q = choose|q: int| 0 <= q < closed@.len() && closed@[q] == k;
                        if q < c0.len() {
                            assert(c0[q] == k);
                            assert(c0.contains(k));
                        }
                    }
                    if exists|j: int| 0 <= j < i + 1 && out@[j].0 == k {
                        if !old(closed)@.contains(k) {
                            let j = choose|j: int| 0 <= j < i + 1 && out@[j].0 == k;
                            if j < i {
                                assert(c0.contains(k));
                                let q = choose|q: int| 0 <= q < c0.len() && c0[q] == k;
                                assert(closed@[q] == k);
                            } else {
                                assert(closed@[closed@.len() - 1] == k);
                            }
                        }
                    }
                }
                assert(first_open(out@, old(closed)@, i as int)) by {
                    assert forall|j: int| 0 <= j < i implies #[trigger] out@[j].0 != out@[i as int].0 by {
                        if out@[j].0 == v {
                            assert(c0.contains(v));
                        }
                    }
                }
            }
            let keep = f(u, v, e);
            if keep {
                proof {
                    assert(node@.2.contains((v, e))) by {
                        assert(out@[i as int] == (v, e));
                    }
                }
                return Some((u, v, e));
            }
            proof {
                assert forall|j: int| 0 <= j < i + 1 && #[trigger] first_open(out@, old(closed)@, j) implies call_ensures(
                    *f,
                    (u, out@[j].0, out@[j].1),
                    false,
                ) by {
                    if j == i {
                        assert(call_ensures(*f, (u, v, e), false));
                    }
                }
            }
        } else {
            proof {
                assert(c0.contains(v));
                assert forall|j: int| 0 <= j < i + 1 && #[trigger] first_open(out@, old(closed)@, j) implies call_ensures(
                    *f,
                    (u, out@[j].0, out@[j].1),
                    false,
                ) by {
                    if j == i {
                        if !old(closed)@.contains(v) {
                            let jj = choose|jj: int| 0 <= jj < i && out@[jj].0 == v;
                            assert(out@[jj].0 == out@[i as int].0);
                        }
                    }
                }
                assert forall|k: K| #[trigger] closed@.contains(k) <==> old(closed)@.contains(k) || exists|j: int| 0 <= j < i + 1
                    && out@[j].0 == k by {
                    if exists|j: int| 0 <= j < i + 1 && out@[j].0 == k {
                        let j = choose|j: int| 0 <= j < i + 1 && out@[j].0 == k;
                        if j < i {
                            assert(exists|j2: int| 0 <= j2 < i && out@[j2].0 == k);
                        }
                    }
                }
            }
        }
        i = i + 1;
    }
    None
}

/// A traversal that records the edges it takes and hands out their
/// targets in order.
pub struct GraphTraverse<K, E> {
    traversal: Vec<(K, K, E)>,
    position: usize,
    closed: Vec<K>,
}

impl<K: Copy + PartialEq, E: Copy> GraphTraverse<K, E> {
    /// The edges taken so far.
    pub closed spec fn traversed(&self) -> Seq<(K, K, E)> {
        self.traversal@
    }

    /// How many targets `next` has handed out.
    pub closed spec fn pos(&self) -> usize {
        self.position
    }

    /// The closed nodes.
    pub closed spec fn closed_keys(&self) -> Seq<K> {
        self.closed@
    }

    /// `next` never runs past the edges taken.
    pub open spec fn wf(&self) -> bool {
        self.pos() <= self.traversed().len()
    }

    /// A traversal that has taken no edge and closed no node.
    pub fn new() -> (r: Self)
        ensures
            r.traversed() == Seq::<(K, K, E)>::empty(),
            r.pos() == 0,
            r.closed_keys() == Seq::<K>::empty(),
            r.wf(),
    {
        GraphTraverse { traversal: Vec::new(), position: 0, closed: Vec::new() }
    }

    /// Takes from `node` the first edge to a node not closed yet that `f`
    /// accepts, closing each target it looks at on the way; the edge is
    /// recorded and returned. `None` when there is no such edge, every
    /// target of the node then being closed.
    pub fn adjacent<N, F: Fn(K, K, E) -> bool>(&mut self, node: &Node<K, N, E>, f: &F) -> (r: Option<Edge<K, E>>)
        requires
            keys_compare::<K>(),
            old(self).wf(),
            forall|a: K, b: K, c: E| f.requires((a, b, c)),
        ensures
            final(self).wf(),
            final(self).pos() == old(self).pos(),
            forall|k: K| old(self).closed_keys().contains(k) ==> #[trigger] final(self).closed_keys().contains(k),
            forall|k: K| #[trigger] final(self).closed_keys().contains(k) ==> old(self).closed_keys().contains(k) || has_key(
                node@.2,
                k,
            ),
            match r {
                Some(x) => x.0 == node@.0 && node@.2.contains((x.1, x.2)) && !old(self).closed_keys().contains(x.1)
                    && accepts(*f, x.0, x.1, x.2) && final(self).traversed() == old(self).traversed().push((x.0, x.1, x.2)),
                None => final(self).traversed() == old(self).traversed(),
            },
            closes_first_open(
                *f,
                node@.0,
                node@.2,
                old(self).closed_keys(),
                final(self).closed_keys(),
                match r {
                    Some(x) => Some((x.0, x.1, x.2)),
                    None => None,
                },
            ),
    {
        match close_first_open(&mut self.closed, node, f) {
            Some(x) => {
                self.traversal.push(x);
                Some(Edge(x.0, x.1, x.2))
            },
            None => None,
        }
    }

    /// The target of the next recorded edge not handed out yet. When all
    /// are handed out, opens every node the recorded edges start or end
    /// at and returns `None`.
    pub fn next(&mut self) -> (r: Option<K>)
        requires
            keys_compare::<K>(),
            old(self).wf(),
        ensures
            final(self).wf(),
            final(self).traversed() == old(self).traversed(),
            old(self).pos() < old(self).traversed().len() ==> r == Some(old(self).traversed()[old(self).pos() as int].1)
                && final(self).pos() == old(self).pos() + 1 && final(self).closed_keys() == old(self).closed_keys(),
            old(self).pos() == old(self).traversed().len() ==> r is None && final(self).pos() == old(self).pos()
                && forall|k: K| #[trigger] final(self).closed_keys().contains(k) <==> old(self).closed_keys().contains(k)
                    && !touches(old(self).traversed(), k),
    {
        if self.position == self.traversal.len() {
            let mut kept: Vec<K> = Vec::new();
            let mut i: usize = 0;
            while i < self.closed.len()
                invariant
                    keys_compare::<K>(),
                    i <= self.closed@.len(),
                    self.closed@ == old(self).closed@,
                    self.traversal@ == old(self).traversal@,
                    forall|k: K| #[trigger] kept@.contains(k) <==> self.closed@.subrange(0, i as int).contains(k)
                        && !touches(self.traversal@, k),
                decreases self.closed@.len() - i,
            {
                let k = self.closed[i];
                let ghost kb = kept@;
                if !self.touched(&k) {
                    kept.push(k);
                }
                proof {
                    let sub = self.closed@.subrange(0, i + 1);
                    assert(sub == self.closed@.subrange(0, i as int).push(k));
                    let pre = self.closed@.subrange(0, i as int);
                    assert forall|x: K| #[trigger] kept@.contains(x) <==> sub.contains(x) && !touches(self.traversal@, x) by {
                        if kept@.contains(x) {
                            let q = choose|q: int| 0 <= q < kept@.len() && kept@[q] == x;
                            if q < kb.len() {
                                assert(kb[q] == x);
                                assert(kb.contains(x));
                                let p = choose|p: int| 0 <= p < pre.len() && pre[p] == x;
                                assert(sub[p] == x);
                            } else {
                                assert(x == k);
                                assert(sub[i as int] == k);
                            }
                        }
                        if sub.contains(x) && !touches(self.traversal@, x) {
                            let p = choose|p: int| 0 <= p < sub.len() && sub[p] == x;
                            if p == i {
                                assert(x == k);
                                assert(kept@[kept@.len() - 1] == k);
                            } else {
                                assert(pre[p] == x);
                                assert(pre.contains(x));
                                assert(kb.contains(x));
                                let q2 = choose|q2: int| 0 <= q2 < kb.len() && kb[q2] == x;
                                assert(kept@[q2] == x);
                            }
                        }
                    }
                }
                i = i + 1;
            }
            proof {
                assert(self.closed@.subrange(0, self.closed@.len() as int) == self.closed@);
            }
            self.closed = kept;
            None
        } else {
            self.position = self.position + 1;
            Some(self.traversal[self.position - 1].1)
        }
    }

    /// A recorded edge starts or ends at `k`.
    fn touched(&self, k: &K) -> (r: bool)
        requires
            keys_compare::<K>(),
        ensures
            r == touches(self.traversal@, *k),
    {
        let mut i: usize = 0;
        while i < self.traversal.len()
            invariant
                keys_compare::<K>(),
                i <= self.traversal@.len(),
                forall|j: int| 0 <= j < i ==> self.traversal@[j].0 != *k && self.traversal@[j].1 != *k,
            decreases self.traversal@.len() - i,
        {
            if key_eq(&self.traversal[i].0, k) || key_eq(&self.traversal[i].1, k) {
                return true;
            }
            i = i + 1;
        }
        false
    }
}

/// A traversal that records the edges it takes and hands out nodes from a
/// min-heap.
pub struct GraphPriorityTraverse<K, E, T> {
    traversal: Vec<(K, K, E)>,
    closed: Vec<K>,
    min_heap: MinHeap<T>,
}

impl<K: Copy + PartialEq, E: Copy, T: Ord> GraphPriorityTraverse<K, E, T> {
    /// The edges taken so far.
    pub closed spec fn traversed(&self) -> Seq<(K, K, E)> {
        self.traversal@
    }

    /// The closed nodes.
    pub closed spec fn closed_keys(&self) -> Seq<K> {
        self.closed@
    }

    /// What the heap holds.
    pub closed spec fn pending(&self) -> Seq<T> {
        self.min_heap@
    }

    /// A traversal that has taken no edge, closed no node, and holds
    /// nothing.
    pub fn new() -> (r: Self)
        ensures
            r.traversed() == Seq::<(K, K, E)>::empty(),
            r.closed_keys() == Seq::<K>::empty(),
            r.pending() == Seq::<T>::empty(),
    {
        GraphPriorityTraverse { traversal: Vec::new(), closed: Vec::new(), min_heap: MinHeap::new() }
    }

    /// As `GraphTraverse::adjacent`.
    pub fn next_adjacent<N, F: Fn(K, K, E) -> bool>(&mut self, node: &Node<K, N, E>, f: &F) -> (r: Option<Edge<K, E>>)
        requires
            keys_compare::<K>(),
            forall|a: K, b: K, c: E| f.requires((a, b, c)),
        ensures
            final(self).pending() == old(self).pending(),
            forall|k: K| old(self).closed_keys().contains(k) ==> #[trigger] final(self).closed_keys().contains(k),
            forall|k: K| #[trigger] final(self).closed_keys().contains(k) ==> old(self).closed_keys().contains(k) || has_key(
                node@.2,
                k,
            ),
            match r {
                Some(x) => x.0 == node@.0 && node@.2.contains((x.1, x.2)) && !old(self).closed_keys().contains(x.1)
                    && accepts(*f, x.0, x.1, x.2) && final(self).traversed() == old(self).traversed().push((x.0, x.1, x.2)),
                None => final(self).traversed() == old(self).traversed(),
            },
            closes_first_open(
                *f,
                node@.0,
                node@.2,
                old(self).closed_keys(),
                final(self).closed_keys(),
                match r {
                    Some(x) => Some((x.0, x.1, x.2)),
                    None => None,
                },
            ),
    {
        match close_first_open(&mut self.closed, node, f) {
            Some(x) => {
                self.traversal.push(x);
                Some(Edge(x.0, x.1, x.2))
            },
            None => None,
        }
    }

    /// Takes a least element off the heap; `None` when it is empty.
    pub fn next(&mut self) -> (r: Option<T>)
        requires
            ordered::<T>(),
        ensures
            final(self).traversed() == old(self).traversed(),
            final(self).closed_keys() == old(self).closed_keys(),
            old(self).pending().len() == 0 ==> r is None && final(self).pending() == old(self).pending(),
            old(self).pending().len() > 0 ==> (r matches Some(x) && least_of(x, old(self).pending()) && exists|i: int|
                0 <= i < old(self).pending().len() && old(self).pending()[i] == x && final(self).pending()
                    == old(self).pending().remove(i)),
    {
        self.min_heap.pop()
    }
}

} // verus!
