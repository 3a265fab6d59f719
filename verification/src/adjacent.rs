//! Adjacency lists of a node: the outbound and inbound edges, each as a
//! `(neighbour key, edge value)` pair.
use vstd::prelude::*;
use crate::{keys_compare, key_eq};
use crate::digraph::keep_other_keys;

verus! {

/// Index of the first pair in `s` whose key is `k`, if any.
pub open spec fn first_with_key<K, E>(s: Seq<(K, E)>, k: K) -> Option<int> {
    if exists|i: int| 0 <= i < s.len() && s[i].0 == k {
        Some(choose|i: int| 0 <= i < s.len() && s[i].0 == k && forall|j: int| 0 <= j < i ==> s[j].0 != k)
    } else {
        None
    }
}

/// Whether some pair in `s` has key `k`.
pub open spec fn has_key<K, E>(s: Seq<(K, E)>, k: K) -> bool {
    exists|i: int| 0 <= i < s.len() && s[i].0 == k
}

/// `i` is the first position of key `k` in `s`.
pub open spec fn is_first_with_key<K, E>(s: Seq<(K, E)>, k: K, i: int) -> bool {
    0 <= i < s.len() && s[i].0 == k && forall|j: int| 0 <= j < i ==> s[j].0 != k
}

/// The first position of a key is unique, so `first_with_key` names it.
pub proof fn lemma_first_with_key<K, E>(s: Seq<(K, E)>, k: K, i: int)
    requires
        is_first_with_key(s, k, i),
    ensures
        first_with_key(s, k) == Some(i),
{
    let c = choose|c: int| 0 <= c < s.len() && s[c].0 == k && forall|j: int| 0 <= j < c ==> s[j].0 != k;
    assert(is_first_with_key(s, k, c));
    if c < i {
        assert(s[c].0 != k);
    } else if i < c {
        assert(s[i].0 != k);
    }
}

/// Index of the last pair in `s` whose key is `k`, if any.
pub open spec fn last_with_key<K, E>(s: Seq<(K, E)>, k: K) -> Option<int> {
    if exists|i: int| 0 <= i < s.len() && s[i].0 == k {
        Some(choose|i: int| 0 <= i < s.len() && s[i].0 == k && forall|j: int| i < j < s.len() ==> s[j].0 != k)
    } else {
        None
    }
}

/// `i` is the last position of key `k` in `s`.
pub open spec fn is_last_with_key<K, E>(s: Seq<(K, E)>, k: K, i: int) -> bool {
    0 <= i < s.len() && s[i].0 == k && forall|j: int| i < j < s.len() ==> s[j].0 != k
}

/// The last position of a key is unique, so `last_with_key` names it.
pub proof fn lemma_last_with_key<K, E>(s: Seq<(K, E)>, k: K, i: int)
    requires
        is_last_with_key(s, k, i),
    ensures
        last_with_key(s, k) == Some(i),
{
    let c = choose|c: int| 0 <= c < s.len() && s[c].0 == k && forall|j: int| c < j < s.len() ==> s[j].0 != k;
    assert(is_last_with_key(s, k, c));
    if c < i {
        assert(s[i].0 != k);
    } else if i < c {
        assert(s[c].0 != k);
    }
}

/// Position of the last pair with key `k`.
pub fn last_position_of_key<K: Copy + PartialEq, E: Copy>(v: &Vec<(K, E)>, k: &K) -> (r: Option<usize>)
    requires
        keys_compare::<K>(),
    ensures
        match r {
            Some(i) => is_last_with_key(v@, *k, i as int) && last_with_key(v@, *k) == Some(i as int),
            None => !has_key(v@, *k) && last_with_key(v@, *k) == None::<int>,
        },
{
    let mut i: usize = v.len();
    while i > 0
        invariant
            keys_compare::<K>(),
            i <= v@.len(),
            forall|j: int| i <= j < v@.len() ==> v@[j].0 != *k,
        decreases i,
    {
        i = i - 1;
        if key_eq(&v[i].0, k) {
            proof {
                lemma_last_with_key(v@, *k, i as int);
            }
            return Some(i);
        }
    }
    None
}

/// The pairs of `s` whose key is not `k`, in order.
pub open spec fn without_key<K, E>(s: Seq<(K, E)>, k: K) -> Seq<(K, E)> {
    s.filter(|p: (K, E)| p.0 != k)
}

/// Dropping a key that no pair holds changes nothing.
pub proof fn lemma_without_absent_key<K, E>(s: Seq<(K, E)>, k: K)
    requires
        !has_key(s, k),
    ensures
        without_key(s, k) == s,
    decreases s.len(),
{
    if s.len() > 0 {
        let h = s.drop_last();
        assert(s == h.push(s.last()));
        assert(!has_key(h, k)) by {
            if has_key(h, k) {
                let i = choose|i: int| 0 <= i < h.len() && h[i].0 == k;
                assert(s[i] == h[i]);
            }
        }
        assert(s.last() == s[s.len() - 1]);
        lemma_without_absent_key(h, k);
        h.lemma_filter_push(s.last(), |p: (K, E)| p.0 != k);
    } else {
        assert(without_key(s, k) =~= s);
    }
}

/// Position of the first pair with key `k`.
pub fn position_of_key<K: Copy + PartialEq, E: Copy>(v: &Vec<(K, E)>, k: &K) -> (r: Option<usize>)
    requires
        keys_compare::<K>(),
    ensures
        match r {
            Some(i) => is_first_with_key(v@, *k, i as int) && first_with_key(v@, *k) == Some(i as int),
            None => !has_key(v@, *k) && first_with_key(v@, *k) == None::<int>,
        },
{
    let mut i: usize = 0;
    while i < v.len()
        invariant
            keys_compare::<K>(),
            i <= v@.len(),
            forall|j: int| 0 <= j < i ==> v@[j].0 != *k,
        decreases v@.len() - i,
    {
        if key_eq(&v[i].0, k) {
            proof {
                lemma_first_with_key(v@, *k, i as int);
            }
            return Some(i);
        }
        i = i + 1;
    }
    None
}

/// The outbound and inbound edges of a node.
pub struct Adjacent<K, E> {
    outbound: Vec<(K, E)>,
    inbound: Vec<(K, E)>,
}

impl<K, E> View for Adjacent<K, E> {
    type V = (Seq<(K, E)>, Seq<(K, E)>);

    closed spec fn view(&self) -> (Seq<(K, E)>, Seq<(K, E)>) {
        (self.outbound@, self.inbound@)
    }
}

impl<K: Copy + PartialEq, E: Copy> Adjacent<K, E> {
    /// Empty adjacency lists.
    pub fn new() -> (r: Self)
        ensures
            r@.0 == Seq::<(K, E)>::empty(),
            r@.1 == Seq::<(K, E)>::empty(),
    {
        Adjacent { outbound: Vec::new(), inbound: Vec::new() }
    }

    /// The outbound edges, in the order they were added.
    pub fn outbound(&self) -> (r: &Vec<(K, E)>)
        ensures
            r@ == self@.0,
    {
        &self.outbound
    }

    /// The inbound edges, in the order they were added.
    pub fn inbound(&self) -> (r: &Vec<(K, E)>)
        ensures
            r@ == self@.1,
    {
        &self.inbound
    }

    /// Number of outbound edges.
    pub fn outbound_len(&self) -> (r: usize)
        ensures
            r == self@.0.len(),
    {
        self.outbound.len()
    }

    /// Number of inbound edges.
    pub fn inbound_len(&self) -> (r: usize)
        ensures
            r == self@.1.len(),
    {
        self.inbound.len()
    }

    /// Number of outbound edges.
    pub fn len_outbound(&self) -> (r: usize)
        ensures
            r == self@.0.len(),
    {
        self.outbound.len()
    }

    /// Number of inbound edges.
    pub fn len_inbound(&self) -> (r: usize)
        ensures
            r == self@.1.len(),
    {
        self.inbound.len()
    }

    /// The outbound edge at position `idx`.
    pub fn get_outbound(&self, idx: usize) -> (r: Option<(K, E)>)
        ensures
            r == (if idx < self@.0.len() { Some(self@.0[idx as int]) } else { None }),
    {
        if idx < self.outbound.len() {
            Some(self.outbound[idx])
        } else {
            None
        }
    }

    /// The inbound edge at position `idx`.
    pub fn get_inbound(&self, idx: usize) -> (r: Option<(K, E)>)
        ensures
            r == (if idx < self@.1.len() { Some(self@.1[idx as int]) } else { None }),
    {
        if idx < self.inbound.len() {
            Some(self.inbound[idx])
        } else {
            None
        }
    }

    /// The edge at position `idx` of the outbound edges followed by the
    /// inbound ones.
    pub fn get_adjacent(&self, idx: usize) -> (r: Option<(K, E)>)
        ensures
            r == (if idx < (self@.0 + self@.1).len() { Some((self@.0 + self@.1)[idx as int]) } else { None }),
    {
        if idx < self.outbound.len() {
            Some(self.outbound[idx])
        } else if idx - self.outbound.len() < self.inbound.len() {
            Some(self.inbound[idx - self.outbound.len()])
        } else {
            None
        }
    }

    /// The first outbound edge to the node with key `node`.
    pub fn find_outbound(&self, node: &K) -> (r: Option<(K, E)>)
        requires
            keys_compare::<K>(),
        ensures
            r == (match first_with_key(self@.0, *node) {
                Some(i) => Some(self@.0[i]),
                None => None,
            }),
    {
        match position_of_key(&self.outbound, node) {
            Some(i) => Some(self.outbound[i]),
            None => None,
        }
    }

    /// The first inbound edge from the node with key `node`.
    pub fn find_inbound(&self, node: &K) -> (r: Option<(K, E)>)
        requires
            keys_compare::<K>(),
        ensures
            r == (match first_with_key(self@.1, *node) {
                Some(i) => Some(self@.1[i]),
                None => None,
            }),
    {
        match position_of_key(&self.inbound, node) {
            Some(i) => Some(self.inbound[i]),
            None => None,
        }
    }

    /// The first outbound edge to `node`, or else the first inbound edge
    /// from it.
    pub fn find_adjacent(&self, node: &K) -> (r: Option<(K, E)>)
        requires
            keys_compare::<K>(),
        ensures
            r == (match first_with_key(self@.0, *node) {
                Some(i) => Some(self@.0[i]),
                None => match first_with_key(self@.1, *node) {
                    Some(i) => Some(self@.1[i]),
                    None => None,
                },
            }),
    {
        match self.find_outbound(node) {
            Some(edge) => Some(edge),
            None => self.find_inbound(node),
        }
    }

    /// Appends an inbound edge.
    pub fn push_inbound(&mut self, edge: (K, E))
        ensures
            final(self)@.0 == old(self)@.0,
            final(self)@.1 == old(self)@.1.push(edge),
    {
        self.inbound.push(edge);
    }

    /// Appends an outbound edge.
    pub fn push_outbound(&mut self, edge: (K, E))
        ensures
            final(self)@.0 == old(self)@.0.push(edge),
            final(self)@.1 == old(self)@.1,
    {
        self.outbound.push(edge);
    }

    /// Removes the first inbound edge from `source` and gives back its value;
    /// `Err(())` when there is none.
    pub fn remove_inbound(&mut self, source: &K) -> (r: Result<E, ()>)
        requires
            keys_compare::<K>(),
        ensures
            final(self)@.0 == old(self)@.0,
            match first_with_key(old(self)@.1, *source) {
                Some(i) => r == Ok::<E, ()>(old(self)@.1[i].1) && final(self)@.1 == old(self)@.1.remove(i),
                None => r == Err::<E, ()>(()) && final(self)@.1 == old(self)@.1,
            },
    {
        match position_of_key(&self.inbound, source) {
            Some(i) => {
                let edge = self.inbound.remove(i);
                Ok(edge.1)
            },
            None => Err(()),
        }
    }

    /// Removes the first outbound edge to `target` and gives back its value;
    /// `Err(())` when there is none.
    pub fn remove_outbound(&mut self, target: &K) -> (r: Result<E, ()>)
        requires
            keys_compare::<K>(),
        ensures
            final(self)@.1 == old(self)@.1,
            match first_with_key(old(self)@.0, *target) {
                Some(i) => r == Ok::<E, ()>(old(self)@.0[i].1) && final(self)@.0 == old(self)@.0.remove(i),
                None => r == Err::<E, ()>(()) && final(self)@.0 == old(self)@.0,
            },
    {
        match position_of_key(&self.outbound, target) {
            Some(i) => {
                let edge = self.outbound.remove(i);
                Ok(edge.1)
            },
            None => Err(()),
        }
    }

    /// Removes every inbound edge from `source`; returns whether there was
    /// one.
    pub fn remove_inbound_all(&mut self, source: &K) -> (r: bool)
        requires
            keys_compare::<K>(),
        ensures
            r == has_key(old(self)@.1, *source),
            r ==> final(self)@.1 == without_key(old(self)@.1, *source) && final(self)@.0 == old(self)@.0,
            !r ==> final(self)@ == old(self)@,
    {
        let r = position_of_key(&self.inbound, source).is_some();
        if r {
            self.inbound = keep_other_keys(&self.inbound, source);
        }
        r
    }

    /// Removes every outbound edge to `target`; returns whether there was
    /// one.
    pub fn remove_outbound_all(&mut self, target: &K) -> (r: bool)
        requires
            keys_compare::<K>(),
        ensures
            r == has_key(old(self)@.0, *target),
            r ==> final(self)@.0 == without_key(old(self)@.0, *target) && final(self)@.1 == old(self)@.1,
            !r ==> final(self)@ == old(self)@,
    {
        let r = position_of_key(&self.outbound, target).is_some();
        if r {
            self.outbound = keep_other_keys(&self.outbound, target);
        }
        r
    }

    /// Removes the last inbound edge from `source`; returns whether there
    /// was one.
    pub(crate) fn delete_last_inbound(&mut self, source: &K) -> (r: bool)
        requires
            keys_compare::<K>(),
        ensures
            final(self)@.0 == old(self)@.0,
            match last_with_key(old(self)@.1, *source) {
                Some(i) => r && final(self)@.1 == old(self)@.1.remove(i),
                None => !r && final(self)@.1 == old(self)@.1,
            },
    {
        match last_position_of_key(&self.inbound, source) {
            Some(i) => {
                self.inbound.remove(i);
                true
            },
            None => false,
        }
    }

    /// Removes the last outbound edge to `target`; returns whether there
    /// was one.
    pub(crate) fn delete_last_outbound(&mut self, target: &K) -> (r: bool)
        requires
            keys_compare::<K>(),
        ensures
            final(self)@.1 == old(self)@.1,
            match last_with_key(old(self)@.0, *target) {
                Some(i) => r && final(self)@.0 == old(self)@.0.remove(i),
                None => !r && final(self)@.0 == old(self)@.0,
            },
    {
        match last_position_of_key(&self.outbound, target) {
            Some(i) => {
                self.outbound.remove(i);
                true
            },
            None => false,
        }
    }

    /// Removes the first inbound edge from `node`, or if there is none the
    /// first outbound edge to it.
    pub fn remove_undirected(&mut self, node: &K) -> (r: Result<E, ()>)
        requires
            keys_compare::<K>(),
        ensures
            match first_with_key(old(self)@.1, *node) {
                Some(i) => r == Ok::<E, ()>(old(self)@.1[i].1) && final(self)@.1 == old(self)@.1.remove(i)
                    && final(self)@.0 == old(self)@.0,
                None => final(self)@.1 == old(self)@.1 && match first_with_key(old(self)@.0, *node) {
                    Some(i) => r == Ok::<E, ()>(old(self)@.0[i].1) && final(self)@.0 == old(self)@.0.remove(i),
                    None => r == Err::<E, ()>(()) && final(self)@.0 == old(self)@.0,
                },
            },
    {
        match self.remove_inbound(node) {
            Ok(edge) => Ok(edge),
            Err(_) => self.remove_outbound(node),
        }
    }

    /// Removes every inbound edge.
    pub fn clear_inbound(&mut self)
        ensures
            final(self)@.0 == old(self)@.0,
            final(self)@.1 == Seq::<(K, E)>::empty(),
    {
        self.inbound.clear();
    }

    /// Removes every outbound edge.
    pub fn clear_outbound(&mut self)
        ensures
            final(self)@.0 == Seq::<(K, E)>::empty(),
            final(self)@.1 == old(self)@.1,
    {
        self.outbound.clear();
    }

    /// A copy of the outbound edges.
    pub fn iter_outbound(&self) -> (r: Vec<(K, E)>)
        ensures
            r@ == self@.0,
    {
        copy_pairs(&self.outbound)
    }

    /// A copy of the inbound edges.
    pub fn iter_inbound(&self) -> (r: Vec<(K, E)>)
        ensures
            r@ == self@.1,
    {
        copy_pairs(&self.inbound)
    }

    /// Every adjacent edge: the outbound ones, then the inbound ones.
    pub fn iter_undir(&self) -> (r: Vec<(K, E)>)
        ensures
            r@ == self@.0 + self@.1,
    {
        let mut r = copy_pairs(&self.outbound);
        let mut i: usize = 0;
        while i < self.inbound.len()
            invariant
                i <= self.inbound@.len(),
                r@ == self.outbound@ + self.inbound@.subrange(0, i as int),
            decreases self.inbound@.len() - i,
        {
            r.push(self.inbound[i]);
            proof {
                assert(self.inbound@.subrange(0, i + 1) == self.inbound@.subrange(0, i as int).push(self.inbound@[i as int]));
            }
            i = i + 1;
        }
        proof {
            assert(self.inbound@.subrange(0, self.inbound@.len() as int) == self.inbound@);
        }
        r
    }
}

impl<K: Copy + PartialEq, E: Copy> Adjacent<K, E> {
    /// A copy of both lists.
    pub(crate) fn duplicate(&self) -> (r: Self)
        ensures
            r@ == self@,
    {
        Adjacent { outbound: copy_pairs(&self.outbound), inbound: copy_pairs(&self.inbound) }
    }
}

/// A copy of a list of pairs.
pub fn copy_pairs<K: Copy, E: Copy>(v: &Vec<(K, E)>) -> (r: Vec<(K, E)>)
    ensures
        r@ == v@,
{
    let mut r: Vec<(K, E)> = Vec::new();
    let mut i: usize = 0;
    while i < v.len()
        invariant
            i <= v@.len(),
            r@ == v@.subrange(0, i as int),
        decreases v@.len() - i,
    {
        r.push(v[i]);
        proof {
            assert(v@.subrange(0, i + 1) == v@.subrange(0, i as int).push(v@[i as int]));
        }
        i = i + 1;
    }
    proof {
        assert(v@.subrange(0, v@.len() as int) == v@);
    }
    r
}

} // verus!
