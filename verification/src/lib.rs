//! Graph data structures whose nodes are identified by keys and whose
//! adjacency is kept as explicit lists of `(neighbour key, edge value)`
//! pairs. Every operation carries a contract over a mathematical model of
//! the graph.
use vstd::prelude::*;

pub mod adjacent;
pub mod search;
pub mod digraph;
pub mod graph_search;
pub mod ungraph;
pub mod traverse;
pub mod flow;
pub mod dinode;
pub mod binode;
pub mod unnode;
pub mod laws;
pub mod heap;
pub mod graph_node;
pub mod order;
pub mod scc;
pub mod graph_traverse;

verus! {

/// The unit payload for nodes or edges that carry no data.
#[derive(Clone, Copy, Debug, PartialEq, Eq, Hash, Structural)]
pub struct Empty;

/// `K`'s `==` is equality of values. Every lookup by key relies on it; it
/// holds for the primitive integer types, `bool` and tuples of them.
pub open spec fn keys_compare<K: PartialEq>() -> bool {
    vstd::laws_eq::obeys_concrete_eq::<K>()
}

/// Compares two keys.
pub fn key_eq<K: PartialEq>(a: &K, b: &K) -> (r: bool)
    requires
        keys_compare::<K>(),
    ensures
        r == (*a == *b),
{
    proof {
        reveal(vstd::laws_eq::obeys_concrete_eq);
    }
    *a == *b
}

} // verus!
