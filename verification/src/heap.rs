//! A min-heap: a bag of values from which the least comes out first.
use vstd::prelude::*;
use vstd::std_specs::cmp::PartialOrdSpec;
use core::cmp::Ordering;

verus! {

/// `a` comes strictly before `b`.
pub open spec fn less<T: PartialOrd>(a: T, b: T) -> bool {
    a.partial_cmp_spec(&b) == Some(Ordering::Less)
}

/// No value of `s` comes strictly before `x`.
pub open spec fn least_of<T: PartialOrd>(x: T, s: Seq<T>) -> bool {
    forall|j: int| 0 <= j < s.len() ==> !less(#[trigger] s[j], x)
}

/// `T` is totally ordered by its comparisons.
pub open spec fn ordered<T: Ord>() -> bool {
    vstd::laws_cmp::obeys_cmp::<T>()
}

/// Strict order is irreflexive and transitive.
proof fn lemma_less<T: Ord>(a: T, b: T, c: T)
    requires
        ordered::<T>(),
    ensures
        !less(a, a),
        less(a, b) && less(b, c) ==> less(a, c),
{
    reveal(vstd::laws_cmp::obeys_partial_cmp_spec_properties);
    assert(less(a, a) ==> a.partial_cmp_spec(&a) == Some(Ordering::Greater));
}

/// `<` on `T` follows `less`.
pub open spec fn compares<T: PartialOrd>() -> bool {
    T::obeys_partial_cmp_spec()
}

proof fn lemma_ordered<T: Ord>()
    requires
        ordered::<T>(),
    ensures
        compares::<T>(),
{
    reveal(vstd::laws_cmp::obeys_cmp_partial_ord);
}

/// A min-heap of values.
pub struct MinHeap<T> {
    items: Vec<T>,
}

impl<T> View for MinHeap<T> {
    type V = Seq<T>;

    closed spec fn view(&self) -> Seq<T> {
        self.items@
    }
}

impl<T: Ord> MinHeap<T> {
    /// An empty heap.
    pub fn new() -> (r: Self)
        ensures
            r@ == Seq::<T>::empty(),
    {
        MinHeap { items: Vec::new() }
    }

    /// Adds `value`.
    pub fn push(&mut self, value: T)
        ensures
            final(self)@ == old(self)@.push(value),
    {
        self.items.push(value);
    }

    /// Position of a least value; the heap must not be empty.
    fn least(&self) -> (r: usize)
        requires
            ordered::<T>(),
            self@.len() > 0,
        ensures
            r < self@.len(),
            least_of(self@[r as int], self@),
    {
        let mut best: usize = 0;
        let mut i: usize = 1;
        proof {
            lemma_less(self@[0], self@[0], self@[0]);
        }
        while i < self.items.len()
            invariant
                ordered::<T>(),
                1 <= i <= self@.len(),
                self@ == self.items@,
                best < i,
                forall|j: int| 0 <= j < i ==> !less(#[trigger] self@[j], self@[best as int]),
            decreases self@.len() - i,
        {
            if self.items[i] < self.items[best] {
                proof {
                    lemma_ordered::<T>();
                    assert forall|j: int| 0 <= j <= i implies !less(#[trigger] self@[j], self@[i as int]) by {
                        lemma_less(self@[j], self@[i as int], self@[best as int]);
                    }
                }
                best = i;
            } else {
                proof {
                    lemma_ordered::<T>();
                    assert(!less(self@[i as int], self@[best as int]));
                }
            }
            i = i + 1;
        }
        best
    }

    /// Removes and returns a least value; `None` when the heap is empty.
    pub fn pop(&mut self) -> (r: Option<T>)
        requires
            ordered::<T>(),
        ensures
            old(self)@.len() == 0 ==> r is None && final(self)@ == old(self)@,
            old(self)@.len() > 0 ==> (r matches Some(x) && least_of(x, old(self)@) && exists|i: int|
                0 <= i < old(self)@.len() && old(self)@[i] == x && final(self)@ == old(self)@.remove(i)),
    {
        if self.items.len() == 0 {
            return None;
        }
        let i = self.least();
        let x = self.items.remove(i);
        assert(old(self)@[i as int] == x);
        Some(x)
    }

    /// A least value, left in the heap; `None` when the heap is empty.
    pub fn peek(&self) -> (r: Option<&T>)
        requires
            ordered::<T>(),
        ensures
            self@.len() == 0 ==> r is None,
            self@.len() > 0 ==> (r matches Some(x) && least_of(*x, self@) && self@.contains(*x)),
    {
        if self.items.len() == 0 {
            return None;
        }
        let i = self.least();
        Some(&self.items[i])
    }

    /// Number of values.
    pub fn len(&self) -> (r: usize)
        ensures
            r == self@.len(),
    {
        self.items.len()
    }

    /// The heap holds no value.
    pub fn is_empty(&self) -> (r: bool)
        ensures
            r == (self@.len() == 0),
    {
        self.items.len() == 0
    }

    /// Removes every value.
    pub fn clear(&mut self)
        ensures
            final(self)@ == Seq::<T>::empty(),
    {
        self.items.clear();
    }
}

/// What `pop` gives back is no greater than anything left behind, so
/// popping every value gives them least first.
pub proof fn law_pop_least_first<T: Ord>(s: Seq<T>, i: int, k: int)
    requires
        ordered::<T>(),
        0 <= i < s.len(),
        least_of(s[i], s),
        0 <= k < s.remove(i).len(),
    ensures
        !less(s.remove(i)[k], s[i]),
{
    if k < i {
        assert(s.remove(i)[k] == s[k]);
    } else {
        assert(s.remove(i)[k] == s[k + 1]);
    }
}

} // verus!
