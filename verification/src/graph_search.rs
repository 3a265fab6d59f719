//! Searches that start at a node and record the edge tree they grow: the
//! `...Path` searches keep it for `edge_path` and `node_path`; `Dfs`, `Bfs`,
//! `PfsMin` and `PfsMax` answer one question each (is the target reached,
//! by which path, is there a cycle back to the start).
use vstd::prelude::*;
use crate::traverse::depth;
use crate::keys_compare;
use crate::search::{priority_ordered, first_edges, backtracked, groups_complete, Snapshot, Strategy, backtrack, walk_keys, walk_nodes, distinct_targets, ends_stuck, none_shorter, no_loop_at, is_tree, is_walk, rooted, chained, edges_from, blocked, is_step, extends, added, lemma_rooted_append,
    closed_search, lemma_closed_search_no_walk, recursive_path, lemma_recursive_path_filters, accepted_by, refused_by, any_edge, no_edge,
    law_recursive_path_unique,
};

verus! {

/// A path: edges, each ending where the next starts.
pub struct Path<K, E> {
    edges: Vec<(K, K, E)>,
}

impl<K: Copy + PartialEq, E: Copy> Path<K, E> {
    /// The edges of the path.
    pub closed spec fn edge_seq(&self) -> Seq<(K, K, E)> {
        self.edges@
    }

    /// A path without edges.
    pub fn new() -> (r: Self)
        ensures
            r.edge_seq() == Seq::<(K, K, E)>::empty(),
    {
        Path { edges: Vec::new() }
    }

    /// Number of nodes along the path: one more than its edges.
    pub fn node_count(&self) -> (r: usize)
        requires
            self.edge_seq().len() < usize::MAX,
        ensures
            r == self.edge_seq().len() + 1,
    {
        self.edges.len() + 1
    }

    /// Number of edges of the path.
    pub fn edge_count(&self) -> (r: usize)
        ensures
            r == self.edge_seq().len(),
    {
        self.edges.len()
    }

    /// The path through an edge tree to its last edge (see
    /// `search::backtrack`).
    pub fn from_edge_tree(edge_tree: Vec<(K, K, E)>) -> (r: Self)
        requires
            keys_compare::<K>(),
            edge_tree@.len() > 0,
        ensures
            r.edge_seq().len() > 0,
            r.edge_seq()[r.edge_seq().len() - 1] == edge_tree@[edge_tree@.len() - 1],
            chained(r.edge_seq()),
            edges_from(r.edge_seq(), edge_tree@),
            forall|root: K| #[trigger] rooted(edge_tree@, root) ==> r.edge_seq()[0].0 == root,
    {
        Path { edges: backtrack(&edge_tree) }
    }

    /// The path's edges as a list.
    pub fn to_vec(&self) -> (r: Vec<(K, K, E)>)
        ensures
            r@ == self.edge_seq(),
    {
        crate::search::copy_triples(&self.edges)
    }

    /// The nodes along the path: where it starts, then where each edge ends.
    pub fn to_vec_nodes(&self) -> (r: Vec<K>)
        ensures
            r@ == walk_nodes(self.edge_seq()),
    {
        walk_keys(&self.edges)
    }
}

/// Makes a path of a walk.
fn path_of<K: Copy + PartialEq, E: Copy>(p: Vec<(K, K, E)>) -> (r: Path<K, E>)
    ensures
        r.edge_seq() == p@,
{
    Path { edges: p }
}

/// Follows every edge.
pub fn follow_all<K, E>(u: K, v: K, e: E) -> (r: bool)
    ensures
        r,
{
    true
}

/// `follow_all` refuses no edge of any walk.
pub(crate) proof fn lemma_follow_all_never_blocked<K, E>(p: Seq<(K, K, E)>)
    ensures
        !blocked(follow_all::<K, E>, p),
{
    if blocked(follow_all::<K, E>, p) {
        let j = choose|j: int| #![trigger p[j]] 0 <= j < p.len() && call_ensures(follow_all::<K, E>, (p[j].0, p[j].1, p[j].2), false);
        assert(call_ensures(follow_all::<K, E>, (p[j].0, p[j].1, p[j].2), false));
    }
}

/// `follow_all` accepts every edge and refuses none.
proof fn lemma_follow_all_filters<K, E>()
    ensures
        forall|u: K, v: K, e: E| #[trigger] accepted_by(follow_all::<K, E>)(u, v, e) ==> any_edge()(u, v, e),
        forall|u: K, v: K, e: E| #[trigger] refused_by(follow_all::<K, E>)(u, v, e) ==> no_edge()(u, v, e),
{
    assert forall|u: K, v: K, e: E| #[trigger] refused_by(follow_all::<K, E>)(u, v, e) implies no_edge()(u, v, e) by {
        assert(call_ensures(follow_all::<K, E>, (u, v, e), false));
    }
}

/// What `Dfs::search_path` (the start counted as reached) and
/// `Dfs::search_cycle` (the start as target, not counted as reached)
/// report is determined by the snapshot, the start and the target: two
/// paths of a recursive depth-first search following every edge, each
/// edge list in order, are the same path.
pub proof fn law_dfs_path_determined<K, E>(
    keys: Seq<K>,
    adj: Seq<Vec<(K, E)>>,
    root: K,
    marked: bool,
    target: K,
    p1: Seq<(K, K, E)>,
    p2: Seq<(K, K, E)>,
)
    requires
        keys.no_duplicates(),
        keys.contains(root),
        recursive_path(keys, adj, any_edge(), no_edge(), root, marked, target, p1),
        recursive_path(keys, adj, any_edge(), no_edge(), root, marked, target, p2),
    ensures
        p1 == p2,
{
    law_recursive_path_unique(keys, adj, any_edge(), no_edge(), root, marked, target, p1, p2);
}

/// Common part of the `...Path` searches: a search from `root` run
/// against a snapshot, storing its edge tree.
fn run_into<K: Copy + PartialEq, E: Copy, F: Fn(K, K, E) -> bool>(
    s: &Snapshot<K, E>,
    strategy: Strategy,
    root: &K,
    target: Option<&K>,
    f: &F,
) -> (r: (bool, Vec<(K, K, E)>))
    requires
        keys_compare::<K>(),
        s.wf(),
        forall|a: K, b: K, c: E| f.requires((a, b, c)),
    ensures
        is_tree(s.keys(), s.adj(), *root, *f, r.1@),
        s.keys().no_duplicates() ==> distinct_targets(r.1@),
        r.0 <==> (target is Some && r.1@.len() > 0 && r.0),
        r.0 ==> r.1@[r.1@.len() - 1].1 == *target->0,
        !r.0 && strategy != Strategy::DepthFirstEdge && target is Some && s.keys().no_duplicates() && s.keys().contains(
            *target->0,
        ) ==> forall|p: Seq<(K, K, E)>| #[trigger] is_walk(s.keys(), s.adj(), p, *root, *target->0) ==> blocked(*f, p),
        r.0 && strategy == Strategy::Breadth && s.keys().no_duplicates() && no_loop_at(s.keys(), s.adj(), *root) ==> none_shorter(
            s.keys(),
            s.adj(),
            *f,
            *root,
            r.1@[r.1@.len() - 1].1,
            depth(r.1@, r.1@[r.1@.len() - 1].1) as int,
        ),
        s.keys().no_duplicates() && (strategy == Strategy::PriorityMin || strategy == Strategy::PriorityMax) ==> priority_ordered(
            s.keys(),
            s.adj(),
            s.ranks(),
            *f,
            *root,
            r.1@,
            strategy == Strategy::PriorityMin,
        ),
        s.keys().no_duplicates() && (strategy == Strategy::PriorityMin || strategy == Strategy::PriorityMax) ==> groups_complete(
            s.keys(),
            s.adj(),
            *f,
            *root,
            r.1@,
        ),
        strategy == Strategy::DepthFirstEdge && s.keys().no_duplicates() ==> first_edges(s.keys(), s.adj(), *f, r.1@, *root, false),
        !r.0 && strategy == Strategy::DepthFirstEdge && s.keys().no_duplicates() && s.keys().contains(*root) ==> ends_stuck(
            s.keys(),
            s.adj(),
            *f,
            r.1@,
            *root,
            false,
        ),
{
    let t = match target {
        Some(k) => Some(*k),
        None => None,
    };
    let (found, tree) = s.run(strategy, root, t, f, false);
    proof {
        if let Some(tk) = t {
            if !found && strategy != Strategy::DepthFirstEdge && s.keys().no_duplicates() && s.keys().contains(tk) {
                assert forall|p: Seq<(K, K, E)>| #[trigger] is_walk(s.keys(), s.adj(), p, *root, tk) implies blocked(*f, p) by {
                    assert(is_step(s.keys(), s.adj(), p[0].0, p[0].1, p[0].2));
                    let w = choose|w: int| #![trigger s.adj()[w]] 0 <= w < s.keys().len() && w < s.adj().len() && s.keys()[w] == p[0].0
                        && s.adj()[w]@.contains((p[0].1, p[0].2));
                    assert(s.keys().contains(*root));
                    let (i, vis) = choose|i: usize, vis: Set<usize>| (i as int) < s.keys().len() && s.keys()[i as int] == *root
                        && #[trigger] closed_search(s.keys(), s.adj(), *f, i, Some(tk), false, vis);
                    lemma_closed_search_no_walk(s.keys(), s.adj(), *f, i, tk, false, vis, p);
                }
            }
        }
    }
    (found, tree)
}

/// A search from a node that keeps its edge tree; depth first, following from each node
/// the first edge to a node not yet reached.
pub struct DfsPath<K, E> {
    root: K,
    edge_tree: Vec<(K, K, E)>,
}

impl<K: Copy + PartialEq, E: Copy> DfsPath<K, E> {
    /// The node the search starts from.
    pub closed spec fn root_key(&self) -> K {
        self.root
    }

    /// The edges the searches run so far have followed, in order.
    pub closed spec fn tree(&self) -> Seq<(K, K, E)> {
        self.edge_tree@
    }

    /// Every edge of the tree starts at the root or where an earlier edge
    /// ends.
    pub open spec fn wf(&self) -> bool {
        rooted(self.tree(), self.root_key())
    }

    /// A search from `root` that has not run.
    pub fn new(root: &K) -> (r: Self)
        ensures
            r.root_key() == *root,
            r.tree() == Seq::<(K, K, E)>::empty(),
            r.wf(),
    {
        DfsPath { root: *root, edge_tree: Vec::new() }
    }

    /// Runs the search in `s`, following every edge, until `target` is
    /// reached (result `true`; the last tree edge ends at it) or the node it
    /// reached last has no edge left to follow first, appending the edges it
    /// follows to the tree; with distinct keys, no two of them end at the
    /// same node, and each is the first edge of its source, in list order,
    /// to a node not reached before it (`first_edges`).
    pub fn search(&mut self, s: &Snapshot<K, E>, target: Option<&K>) -> (r: bool)
        requires
            keys_compare::<K>(),
            s.wf(),
        ensures
            final(self).root_key() == old(self).root_key(),
            old(self).wf() ==> final(self).wf(),
            extends(final(self).tree(), old(self).tree()),
            is_tree(s.keys(), s.adj(), final(self).root_key(), follow_all::<K, E>, added(final(self).tree(), old(self).tree())),
            s.keys().no_duplicates() ==> distinct_targets(added(final(self).tree(), old(self).tree())),
            !r && s.keys().no_duplicates() && s.keys().contains(final(self).root_key()) ==> ends_stuck(
                s.keys(),
                s.adj(),
                follow_all::<K, E>,
                added(final(self).tree(), old(self).tree()),
                final(self).root_key(),
                false,
            ),
            r ==> target is Some && final(self).tree().len() > old(self).tree().len()
                && final(self).tree()[final(self).tree().len() - 1].1 == *target->0,
            target is None ==> !r,
            s.keys().no_duplicates() ==> first_edges(
                s.keys(),
                s.adj(),
                follow_all::<K, E>,
                added(final(self).tree(), old(self).tree()),
                final(self).root_key(),
                false,
            ),
    {
        let (found, mut tree) = run_into(s, Strategy::DepthFirstEdge, &self.root, target, &follow_all::<K, E>);
        let ghost t0 = self.edge_tree@;
        let ghost t1 = tree@;
        self.edge_tree.append(&mut tree);
        proof {
            if rooted(t0, self.root) {
                lemma_rooted_append(t0, t1, self.root);
            }
            assert(self.edge_tree@.skip(t0.len() as int) =~= t1);
            assert(extends(self.edge_tree@, t0)) by {
                assert forall|i: int| #![trigger t0[i]] 0 <= i < t0.len() implies self.edge_tree@[i] == t0[i] by {}
            }
        }
        found
    }

    /// As `search`, following only the edges `(source, target, value)` for
    /// which `f` returns true.
    pub fn search_filter<F: Fn(K, K, E) -> bool>(&mut self, s: &Snapshot<K, E>, target: Option<&K>, f: &F) -> (r: bool)
        requires
            keys_compare::<K>(),
            s.wf(),
            forall|a: K, b: K, c: E| f.requires((a, b, c)),
        ensures
            final(self).root_key() == old(self).root_key(),
            old(self).wf() ==> final(self).wf(),
            extends(final(self).tree(), old(self).tree()),
            is_tree(s.keys(), s.adj(), final(self).root_key(), *f, added(final(self).tree(), old(self).tree())),
            s.keys().no_duplicates() ==> distinct_targets(added(final(self).tree(), old(self).tree())),
            !r && s.keys().no_duplicates() && s.keys().contains(final(self).root_key()) ==> ends_stuck(
                s.keys(),
                s.adj(),
                *f,
                added(final(self).tree(), old(self).tree()),
                final(self).root_key(),
                false,
            ),
            r ==> target is Some && final(self).tree().len() > old(self).tree().len()
                && final(self).tree()[final(self).tree().len() - 1].1 == *target->0,
            target is None ==> !r,
            s.keys().no_duplicates() ==> first_edges(
                s.keys(),
                s.adj(),
                *f,
                added(final(self).tree(), old(self).tree()),
                final(self).root_key(),
                false,
            ),
    {
        let (found, mut tree) = run_into(s, Strategy::DepthFirstEdge, &self.root, target, f);
        let ghost t0 = self.edge_tree@;
        let ghost t1 = tree@;
        self.edge_tree.append(&mut tree);
        proof {
            if rooted(t0, self.root) {
                lemma_rooted_append(t0, t1, self.root);
            }
            assert(self.edge_tree@.skip(t0.len() as int) =~= t1);
            assert(extends(self.edge_tree@, t0)) by {
                assert forall|i: int| #![trigger t0[i]] 0 <= i < t0.len() implies self.edge_tree@[i] == t0[i] by {}
            }
        }
        found
    }

    /// The same as `search_filter`.
    pub fn search_filter_map<F: Fn(K, K, E) -> bool>(&mut self, s: &Snapshot<K, E>, target: Option<&K>, f: &F) -> (r: bool)
        requires
            keys_compare::<K>(),
            s.wf(),
            forall|a: K, b: K, c: E| f.requires((a, b, c)),
        ensures
            final(self).root_key() == old(self).root_key(),
            old(self).wf() ==> final(self).wf(),
            extends(final(self).tree(), old(self).tree()),
            is_tree(s.keys(), s.adj(), final(self).root_key(), *f, added(final(self).tree(), old(self).tree())),
            s.keys().no_duplicates() ==> distinct_targets(added(final(self).tree(), old(self).tree())),
            !r && s.keys().no_duplicates() && s.keys().contains(final(self).root_key()) ==> ends_stuck(
                s.keys(),
                s.adj(),
                *f,
                added(final(self).tree(), old(self).tree()),
                final(self).root_key(),
                false,
            ),
            r ==> target is Some && final(self).tree().len() > old(self).tree().len()
                && final(self).tree()[final(self).tree().len() - 1].1 == *target->0,
            target is None ==> !r,
            s.keys().no_duplicates() ==> first_edges(
                s.keys(),
                s.adj(),
                *f,
                added(final(self).tree(), old(self).tree()),
                final(self).root_key(),
                false,
            ),
    {
        self.search_filter(s, target, f)
    }

    /// The edges the searches run so far have followed, in order.
    pub fn edge_tree(&self) -> (r: &Vec<(K, K, E)>)
        ensures
            r@ == self.tree(),
    {
        &self.edge_tree
    }

    /// The path from the root through the tree to the tree's last edge; no
    /// two of its edges end at the same node when none of the tree's do.
    pub fn edge_path(&self) -> (r: Vec<(K, K, E)>)
        requires
            keys_compare::<K>(),
            self.wf(),
            self.tree().len() > 0,
        ensures
            r@.len() > 0,
            r@[0].0 == self.root_key(),
            r@[r@.len() - 1] == self.tree()[self.tree().len() - 1],
            chained(r@),
            edges_from(r@, self.tree()),
            distinct_targets(self.tree()) ==> distinct_targets(r@),
            r@ == backtracked(self.tree()),
    {
        backtrack(&self.edge_tree)
    }

    /// The nodes along `edge_path`; empty when the tree is.
    pub fn node_path(&self) -> (r: Vec<K>)
        requires
            keys_compare::<K>(),
            self.wf(),
        ensures
            self.tree().len() == 0 ==> r@.len() == 0,
            self.tree().len() > 0 ==> r@.len() > 0 && r@[0] == self.root_key() && exists|p: Seq<(K, K, E)>|
                r@ == walk_nodes(p) && p.len() > 0 && p[0].0 == self.root_key()
                && p[p.len() - 1] == self.tree()[self.tree().len() - 1] && chained(p) && edges_from(p, self.tree()),
            self.tree().len() > 0 ==> r@ == walk_nodes(backtracked(self.tree())),
    {
        if self.edge_tree.len() == 0 {
            return Vec::new();
        }
        let p = self.edge_path();
        let r = walk_keys(&p);
        proof {
            assert(r@[0] == p@[0].0);
        }
        r
    }
}

/// A search from a node that keeps its edge tree; breadth first.
pub struct BfsPath<K, E> {
    root: K,
    edge_tree: Vec<(K, K, E)>,
}

impl<K: Copy + PartialEq, E: Copy> BfsPath<K, E> {
    /// The node the search starts from.
    pub closed spec fn root_key(&self) -> K {
        self.root
    }

    /// The edges the searches run so far have followed, in order.
    pub closed spec fn tree(&self) -> Seq<(K, K, E)> {
        self.edge_tree@
    }

    /// Every edge of the tree starts at the root or where an earlier edge
    /// ends.
    pub open spec fn wf(&self) -> bool {
        rooted(self.tree(), self.root_key())
    }

    /// A search from `root` that has not run.
    pub fn new(root: &K) -> (r: Self)
        ensures
            r.root_key() == *root,
            r.tree() == Seq::<(K, K, E)>::empty(),
            r.wf(),
    {
        BfsPath { root: *root, edge_tree: Vec::new() }
    }

    /// Runs the search in `s`, following every edge, until `target` is
    /// reached (result `true`; the last tree edge ends at it) or nothing is
    /// left to explore, appending the edges it follows to the tree; with
    /// distinct keys, no two of them end at the same node.
    pub fn search(&mut self, s: &Snapshot<K, E>, target: Option<&K>) -> (r: bool)
        requires
            keys_compare::<K>(),
            s.wf(),
        ensures
            final(self).root_key() == old(self).root_key(),
            old(self).wf() ==> final(self).wf(),
            extends(final(self).tree(), old(self).tree()),
            is_tree(s.keys(), s.adj(), final(self).root_key(), follow_all::<K, E>, added(final(self).tree(), old(self).tree())),
            s.keys().no_duplicates() ==> distinct_targets(added(final(self).tree(), old(self).tree())),
            r && s.keys().no_duplicates() && no_loop_at(s.keys(), s.adj(), final(self).root_key()) ==> none_shorter(
                s.keys(),
                s.adj(),
                follow_all::<K, E>,
                final(self).root_key(),
                *target->0,
                depth(added(final(self).tree(), old(self).tree()), *target->0) as int,
            ),
            r ==> target is Some && final(self).tree().len() > old(self).tree().len()
                && final(self).tree()[final(self).tree().len() - 1].1 == *target->0,
            target is None ==> !r,
            !r && target is Some && s.keys().no_duplicates() && s.keys().contains(*target->0) ==> forall|p: Seq<(K, K, E)>|
                !#[trigger] is_walk(s.keys(), s.adj(), p, final(self).root_key(), *target->0),
    {
        let (found, mut tree) = run_into(s, Strategy::Breadth, &self.root, target, &follow_all::<K, E>);
        let ghost t0 = self.edge_tree@;
        let ghost t1 = tree@;
        self.edge_tree.append(&mut tree);
        proof {
            if rooted(t0, self.root) {
                lemma_rooted_append(t0, t1, self.root);
            }
            assert(self.edge_tree@.skip(t0.len() as int) =~= t1);
            assert(extends(self.edge_tree@, t0)) by {
                assert forall|i: int| #![trigger t0[i]] 0 <= i < t0.len() implies self.edge_tree@[i] == t0[i] by {}
            }
        }
        proof {
            if !found && target is Some && s.keys().no_duplicates() && s.keys().contains(*target->0) {
                assert forall|p: Seq<(K, K, E)>| #[trigger] is_walk(s.keys(), s.adj(), p, self.root, *target->0) implies false by {
                    lemma_follow_all_never_blocked(p);
                }
            }
        }
        found
    }

    /// As `search`, following only the edges `(source, target, value)` for
    /// which `f` returns true.
    pub fn search_filter<F: Fn(K, K, E) -> bool>(&mut self, s: &Snapshot<K, E>, target: Option<&K>, f: &F) -> (r: bool)
        requires
            keys_compare::<K>(),
            s.wf(),
            forall|a: K, b: K, c: E| f.requires((a, b, c)),
        ensures
            final(self).root_key() == old(self).root_key(),
            old(self).wf() ==> final(self).wf(),
            extends(final(self).tree(), old(self).tree()),
            is_tree(s.keys(), s.adj(), final(self).root_key(), *f, added(final(self).tree(), old(self).tree())),
            s.keys().no_duplicates() ==> distinct_targets(added(final(self).tree(), old(self).tree())),
            r && s.keys().no_duplicates() && no_loop_at(s.keys(), s.adj(), final(self).root_key()) ==> none_shorter(
                s.keys(),
                s.adj(),
                *f,
                final(self).root_key(),
                *target->0,
                depth(added(final(self).tree(), old(self).tree()), *target->0) as int,
            ),
            r ==> target is Some && final(self).tree().len() > old(self).tree().len()
                && final(self).tree()[final(self).tree().len() - 1].1 == *target->0,
            target is None ==> !r,
            !r && target is Some && s.keys().no_duplicates() && s.keys().contains(*target->0) ==> forall|p: Seq<(K, K, E)>|
                #[trigger] is_walk(s.keys(), s.adj(), p, final(self).root_key(), *target->0) ==> blocked(*f, p),
    {
        let (found, mut tree) = run_into(s, Strategy::Breadth, &self.root, target, f);
        let ghost t0 = self.edge_tree@;
        let ghost t1 = tree@;
        self.edge_tree.append(&mut tree);
        proof {
            if rooted(t0, self.root) {
                lemma_rooted_append(t0, t1, self.root);
            }
            assert(self.edge_tree@.skip(t0.len() as int) =~= t1);
            assert(extends(self.edge_tree@, t0)) by {
                assert forall|i: int| #![trigger t0[i]] 0 <= i < t0.len() implies self.edge_tree@[i] == t0[i] by {}
            }
        }
        found
    }

    /// The same as `search_filter`.
    pub fn search_filter_map<F: Fn(K, K, E) -> bool>(&mut self, s: &Snapshot<K, E>, target: Option<&K>, f: &F) -> (r: bool)
        requires
            keys_compare::<K>(),
            s.wf(),
            forall|a: K, b: K, c: E| f.requires((a, b, c)),
        ensures
            final(self).root_key() == old(self).root_key(),
            old(self).wf() ==> final(self).wf(),
            extends(final(self).tree(), old(self).tree()),
            is_tree(s.keys(), s.adj(), final(self).root_key(), *f, added(final(self).tree(), old(self).tree())),
            s.keys().no_duplicates() ==> distinct_targets(added(final(self).tree(), old(self).tree())),
            r && s.keys().no_duplicates() && no_loop_at(s.keys(), s.adj(), final(self).root_key()) ==> none_shorter(
                s.keys(),
                s.adj(),
                *f,
                final(self).root_key(),
                *target->0,
                depth(added(final(self).tree(), old(self).tree()), *target->0) as int,
            ),
            r ==> target is Some && final(self).tree().len() > old(self).tree().len()
                && final(self).tree()[final(self).tree().len() - 1].1 == *target->0,
            target is None ==> !r,
            !r && target is Some && s.keys().no_duplicates() && s.keys().contains(*target->0) ==> forall|p: Seq<(K, K, E)>|
                #[trigger] is_walk(s.keys(), s.adj(), p, final(self).root_key(), *target->0) ==> blocked(*f, p),
    {
        self.search_filter(s, target, f)
    }

    /// The edges the searches run so far have followed, in order.
    pub fn edge_tree(&self) -> (r: &Vec<(K, K, E)>)
        ensures
            r@ == self.tree(),
    {
        &self.edge_tree
    }

    /// The path from the root through the tree to the tree's last edge; no
    /// two of its edges end at the same node when none of the tree's do.
    pub fn edge_path(&self) -> (r: Vec<(K, K, E)>)
        requires
            keys_compare::<K>(),
            self.wf(),
            self.tree().len() > 0,
        ensures
            r@.len() > 0,
            r@[0].0 == self.root_key(),
            r@[r@.len() - 1] == self.tree()[self.tree().len() - 1],
            chained(r@),
            edges_from(r@, self.tree()),
            distinct_targets(self.tree()) ==> distinct_targets(r@),
            r@.len() == depth(self.tree(), self.tree()[self.tree().len() - 1].1),
            r@ == backtracked(self.tree()),
    {
        backtrack(&self.edge_tree)
    }

    /// The nodes along `edge_path`; empty when the tree is.
    pub fn node_path(&self) -> (r: Vec<K>)
        requires
            keys_compare::<K>(),
            self.wf(),
        ensures
            self.tree().len() == 0 ==> r@.len() == 0,
            self.tree().len() > 0 ==> r@.len() > 0 && r@[0] == self.root_key() && exists|p: Seq<(K, K, E)>|
                r@ == walk_nodes(p) && p.len() > 0 && p[0].0 == self.root_key()
                && p[p.len() - 1] == self.tree()[self.tree().len() - 1] && chained(p) && edges_from(p, self.tree()),
            self.tree().len() > 0 ==> r@ == walk_nodes(backtracked(self.tree())),
    {
        if self.edge_tree.len() == 0 {
            return Vec::new();
        }
        let p = self.edge_path();
        let r = walk_keys(&p);
        proof {
            assert(r@[0] == p@[0].0);
        }
        r
    }
}

/// A search from a node that keeps its edge tree; expanding the reached node of least rank
/// first.
pub struct PfsMinPath<K, E> {
    root: K,
    edge_tree: Vec<(K, K, E)>,
}

impl<K: Copy + PartialEq, E: Copy> PfsMinPath<K, E> {
    /// The node the search starts from.
    pub closed spec fn root_key(&self) -> K {
        self.root
    }

    /// The edges the searches run so far have followed, in order.
    pub closed spec fn tree(&self) -> Seq<(K, K, E)> {
        self.edge_tree@
    }

    /// Every edge of the tree starts at the root or where an earlier edge
    /// ends.
    pub open spec fn wf(&self) -> bool {
        rooted(self.tree(), self.root_key())
    }

    /// A search from `root` that has not run.
    pub fn new(root: &K) -> (r: Self)
        ensures
            r.root_key() == *root,
            r.tree() == Seq::<(K, K, E)>::empty(),
            r.wf(),
    {
        PfsMinPath { root: *root, edge_tree: Vec::new() }
    }

    /// Runs the search in `s`, following every edge, until `target` is
    /// reached (result `true`; the last tree edge ends at it) or nothing is
    /// left to explore, appending the edges it follows to the tree; with
    /// distinct keys, no two of them end at the same node, and the node of
    /// least rank among those reached and not expanded is expanded first
    /// (`priority_ordered`).
    pub fn search(&mut self, s: &Snapshot<K, E>, target: Option<&K>) -> (r: bool)
        requires
            keys_compare::<K>(),
            s.wf(),
        ensures
            final(self).root_key() == old(self).root_key(),
            old(self).wf() ==> final(self).wf(),
            extends(final(self).tree(), old(self).tree()),
            is_tree(s.keys(), s.adj(), final(self).root_key(), follow_all::<K, E>, added(final(self).tree(), old(self).tree())),
            s.keys().no_duplicates() ==> distinct_targets(added(final(self).tree(), old(self).tree())),
            r ==> target is Some && final(self).tree().len() > old(self).tree().len()
                && final(self).tree()[final(self).tree().len() - 1].1 == *target->0,
            target is None ==> !r,
            !r && target is Some && s.keys().no_duplicates() && s.keys().contains(*target->0) ==> forall|p: Seq<(K, K, E)>|
                !#[trigger] is_walk(s.keys(), s.adj(), p, final(self).root_key(), *target->0),
            s.keys().no_duplicates() ==> priority_ordered(
                s.keys(),
                s.adj(),
                s.ranks(),
                follow_all::<K, E>,
                final(self).root_key(),
                added(final(self).tree(), old(self).tree()),
                true,
            ),
            s.keys().no_duplicates() ==> groups_complete(
                s.keys(),
                s.adj(),
                follow_all::<K, E>,
                final(self).root_key(),
                added(final(self).tree(), old(self).tree()),
            ),
    {
        let (found, mut tree) = run_into(s, Strategy::PriorityMin, &self.root, target, &follow_all::<K, E>);
        let ghost t0 = self.edge_tree@;
        let ghost t1 = tree@;
        self.edge_tree.append(&mut tree);
        proof {
            if rooted(t0, self.root) {
                lemma_rooted_append(t0, t1, self.root);
            }
            assert(self.edge_tree@.skip(t0.len() as int) =~= t1);
            assert(extends(self.edge_tree@, t0)) by {
                assert forall|i: int| #![trigger t0[i]] 0 <= i < t0.len() implies self.edge_tree@[i] == t0[i] by {}
            }
        }
        proof {
            if !found && target is Some && s.keys().no_duplicates() && s.keys().contains(*target->0) {
                assert forall|p: Seq<(K, K, E)>| #[trigger] is_walk(s.keys(), s.adj(), p, self.root, *target->0) implies false by {
                    lemma_follow_all_never_blocked(p);
                }
            }
        }
        found
    }

    /// As `search`, following only the edges `(source, target, value)` for
    /// which `f` returns true.
    pub fn search_filter<F: Fn(K, K, E) -> bool>(&mut self, s: &Snapshot<K, E>, target: Option<&K>, f: &F) -> (r: bool)
        requires
            keys_compare::<K>(),
            s.wf(),
            forall|a: K, b: K, c: E| f.requires((a, b, c)),
        ensures
            final(self).root_key() == old(self).root_key(),
            old(self).wf() ==> final(self).wf(),
            extends(final(self).tree(), old(self).tree()),
            is_tree(s.keys(), s.adj(), final(self).root_key(), *f, added(final(self).tree(), old(self).tree())),
            s.keys().no_duplicates() ==> distinct_targets(added(final(self).tree(), old(self).tree())),
            r ==> target is Some && final(self).tree().len() > old(self).tree().len()
                && final(self).tree()[final(self).tree().len() - 1].1 == *target->0,
            target is None ==> !r,
            !r && target is Some && s.keys().no_duplicates() && s.keys().contains(*target->0) ==> forall|p: Seq<(K, K, E)>|
                #[trigger] is_walk(s.keys(), s.adj(), p, final(self).root_key(), *target->0) ==> blocked(*f, p),
            s.keys().no_duplicates() ==> priority_ordered(
                s.keys(),
                s.adj(),
                s.ranks(),
                *f,
                final(self).root_key(),
                added(final(self).tree(), old(self).tree()),
                true,
            ),
            s.keys().no_duplicates() ==> groups_complete(
                s.keys(),
                s.adj(),
                *f,
                final(self).root_key(),
                added(final(self).tree(), old(self).tree()),
            ),
    {
        let (found, mut tree) = run_into(s, Strategy::PriorityMin, &self.root, target, f);
        let ghost t0 = self.edge_tree@;
        let ghost t1 = tree@;
        self.edge_tree.append(&mut tree);
        proof {
            if rooted(t0, self.root) {
                lemma_rooted_append(t0, t1, self.root);
            }
            assert(self.edge_tree@.skip(t0.len() as int) =~= t1);
            assert(extends(self.edge_tree@, t0)) by {
                assert forall|i: int| #![trigger t0[i]] 0 <= i < t0.len() implies self.edge_tree@[i] == t0[i] by {}
            }
        }
        found
    }

    /// The same as `search_filter`.
    pub fn search_filter_map<F: Fn(K, K, E) -> bool>(&mut self, s: &Snapshot<K, E>, target: Option<&K>, f: &F) -> (r: bool)
        requires
            keys_compare::<K>(),
            s.wf(),
            forall|a: K, b: K, c: E| f.requires((a, b, c)),
        ensures
            final(self).root_key() == old(self).root_key(),
            old(self).wf() ==> final(self).wf(),
            extends(final(self).tree(), old(self).tree()),
            is_tree(s.keys(), s.adj(), final(self).root_key(), *f, added(final(self).tree(), old(self).tree())),
            s.keys().no_duplicates() ==> distinct_targets(added(final(self).tree(), old(self).tree())),
            r ==> target is Some && final(self).tree().len() > old(self).tree().len()
                && final(self).tree()[final(self).tree().len() - 1].1 == *target->0,
            target is None ==> !r,
            !r && target is Some && s.keys().no_duplicates() && s.keys().contains(*target->0) ==> forall|p: Seq<(K, K, E)>|
                #[trigger] is_walk(s.keys(), s.adj(), p, final(self).root_key(), *target->0) ==> blocked(*f, p),
            s.keys().no_duplicates() ==> priority_ordered(
                s.keys(),
                s.adj(),
                s.ranks(),
                *f,
                final(self).root_key(),
                added(final(self).tree(), old(self).tree()),
                true,
            ),
            s.keys().no_duplicates() ==> groups_complete(
                s.keys(),
                s.adj(),
                *f,
                final(self).root_key(),
                added(final(self).tree(), old(self).tree()),
            ),
    {
        self.search_filter(s, target, f)
    }

    /// The edges the searches run so far have followed, in order.
    pub fn edge_tree(&self) -> (r: &Vec<(K, K, E)>)
        ensures
            r@ == self.tree(),
    {
        &self.edge_tree
    }

    /// The path from the root through the tree to the tree's last edge; no
    /// two of its edges end at the same node when none of the tree's do.
    pub fn edge_path(&self) -> (r: Vec<(K, K, E)>)
        requires
            keys_compare::<K>(),
            self.wf(),
            self.tree().len() > 0,
        ensures
            r@.len() > 0,
            r@[0].0 == self.root_key(),
            r@[r@.len() - 1] == self.tree()[self.tree().len() - 1],
            chained(r@),
            edges_from(r@, self.tree()),
            distinct_targets(self.tree()) ==> distinct_targets(r@),
            r@ == backtracked(self.tree()),
    {
        backtrack(&self.edge_tree)
    }

    /// The nodes along `edge_path`; empty when the tree is.
    pub fn node_path(&self) -> (r: Vec<K>)
        requires
            keys_compare::<K>(),
            self.wf(),
        ensures
            self.tree().len() == 0 ==> r@.len() == 0,
            self.tree().len() > 0 ==> r@.len() > 0 && r@[0] == self.root_key() && exists|p: Seq<(K, K, E)>|
                r@ == walk_nodes(p) && p.len() > 0 && p[0].0 == self.root_key()
                && p[p.len() - 1] == self.tree()[self.tree().len() - 1] && chained(p) && edges_from(p, self.tree()),
            self.tree().len() > 0 ==> r@ == walk_nodes(backtracked(self.tree())),
    {
        if self.edge_tree.len() == 0 {
            return Vec::new();
        }
        let p = self.edge_path();
        let r = walk_keys(&p);
        proof {
            assert(r@[0] == p@[0].0);
        }
        r
    }
}

/// A search from a node that keeps its edge tree; expanding the reached node of greatest
/// rank first.
pub struct PfsMaxPath<K, E> {
    root: K,
    edge_tree: Vec<(K, K, E)>,
}

impl<K: Copy + PartialEq, E: Copy> PfsMaxPath<K, E> {
    /// The node the search starts from.
    pub closed spec fn root_key(&self) -> K {
        self.root
    }

    /// The edges the searches run so far have followed, in order.
    pub closed spec fn tree(&self) -> Seq<(K, K, E)> {
        self.edge_tree@
    }

    /// Every edge of the tree starts at the root or where an earlier edge
    /// ends.
    pub open spec fn wf(&self) -> bool {
        rooted(self.tree(), self.root_key())
    }

    /// A search from `root` that has not run.
    pub fn new(root: &K) -> (r: Self)
        ensures
            r.root_key() == *root,
            r.tree() == Seq::<(K, K, E)>::empty(),
            r.wf(),
    {
        PfsMaxPath { root: *root, edge_tree: Vec::new() }
    }

    /// Runs the search in `s`, following every edge, until `target` is
    /// reached (result `true`; the last tree edge ends at it) or nothing is
    /// left to explore, appending the edges it follows to the tree; with
    /// distinct keys, no two of them end at the same node, and the node of
    /// greatest rank among those reached and not expanded is expanded first
    /// (`priority_ordered`).
    pub fn search(&mut self, s: &Snapshot<K, E>, target: Option<&K>) -> (r: bool)
        requires
            keys_compare::<K>(),
            s.wf(),
        ensures
            final(self).root_key() == old(self).root_key(),
            old(self).wf() ==> final(self).wf(),
            extends(final(self).tree(), old(self).tree()),
            is_tree(s.keys(), s.adj(), final(self).root_key(), follow_all::<K, E>, added(final(self).tree(), old(self).tree())),
            s.keys().no_duplicates() ==> distinct_targets(added(final(self).tree(), old(self).tree())),
            r ==> target is Some && final(self).tree().len() > old(self).tree().len()
                && final(self).tree()[final(self).tree().len() - 1].1 == *target->0,
            target is None ==> !r,
            !r && target is Some && s.keys().no_duplicates() && s.keys().contains(*target->0) ==> forall|p: Seq<(K, K, E)>|
                !#[trigger] is_walk(s.keys(), s.adj(), p, final(self).root_key(), *target->0),
            s.keys().no_duplicates() ==> priority_ordered(
                s.keys(),
                s.adj(),
                s.ranks(),
                follow_all::<K, E>,
                final(self).root_key(),
                added(final(self).tree(), old(self).tree()),
                false,
            ),
            s.keys().no_duplicates() ==> groups_complete(
                s.keys(),
                s.adj(),
                follow_all::<K, E>,
                final(self).root_key(),
                added(final(self).tree(), old(self).tree()),
            ),
    {
        let (found, mut tree) = run_into(s, Strategy::PriorityMax, &self.root, target, &follow_all::<K, E>);
        let ghost t0 = self.edge_tree@;
        let ghost t1 = tree@;
        self.edge_tree.append(&mut tree);
        proof {
            if rooted(t0, self.root) {
                lemma_rooted_append(t0, t1, self.root);
            }
            assert(self.edge_tree@.skip(t0.len() as int) =~= t1);
            assert(extends(self.edge_tree@, t0)) by {
                assert forall|i: int| #![trigger t0[i]] 0 <= i < t0.len() implies self.edge_tree@[i] == t0[i] by {}
            }
        }
        proof {
            if !found && target is Some && s.keys().no_duplicates() && s.keys().contains(*target->0) {
                assert forall|p: Seq<(K, K, E)>| #[trigger] is_walk(s.keys(), s.adj(), p, self.root, *target->0) implies false by {
                    lemma_follow_all_never_blocked(p);
                }
            }
        }
        found
    }

    /// As `search`, following only the edges `(source, target, value)` for
    /// which `f` returns true.
    pub fn search_filter<F: Fn(K, K, E) -> bool>(&mut self, s: &Snapshot<K, E>, target: Option<&K>, f: &F) -> (r: bool)
        requires
            keys_compare::<K>(),
            s.wf(),
            forall|a: K, b: K, c: E| f.requires((a, b, c)),
        ensures
            final(self).root_key() == old(self).root_key(),
            old(self).wf() ==> final(self).wf(),
            extends(final(self).tree(), old(self).tree()),
            is_tree(s.keys(), s.adj(), final(self).root_key(), *f, added(final(self).tree(), old(self).tree())),
            s.keys().no_duplicates() ==> distinct_targets(added(final(self).tree(), old(self).tree())),
            r ==> target is Some && final(self).tree().len() > old(self).tree().len()
                && final(self).tree()[final(self).tree().len() - 1].1 == *target->0,
            target is None ==> !r,
            !r && target is Some && s.keys().no_duplicates() && s.keys().contains(*target->0) ==> forall|p: Seq<(K, K, E)>|
                #[trigger] is_walk(s.keys(), s.adj(), p, final(self).root_key(), *target->0) ==> blocked(*f, p),
            s.keys().no_duplicates() ==> priority_ordered(
                s.keys(),
                s.adj(),
                s.ranks(),
                *f,
                final(self).root_key(),
                added(final(self).tree(), old(self).tree()),
                false,
            ),
            s.keys().no_duplicates() ==> groups_complete(
                s.keys(),
                s.adj(),
                *f,
                final(self).root_key(),
                added(final(self).tree(), old(self).tree()),
            ),
    {
        let (found, mut tree) = run_into(s, Strategy::PriorityMax, &self.root, target, f);
        let ghost t0 = self.edge_tree@;
        let ghost t1 = tree@;
        self.edge_tree.append(&mut tree);
        proof {
            if rooted(t0, self.root) {
                lemma_rooted_append(t0, t1, self.root);
            }
            assert(self.edge_tree@.skip(t0.len() as int) =~= t1);
            assert(extends(self.edge_tree@, t0)) by {
                assert forall|i: int| #![trigger t0[i]] 0 <= i < t0.len() implies self.edge_tree@[i] == t0[i] by {}
            }
        }
        found
    }

    /// The same as `search_filter`.
    pub fn search_filter_map<F: Fn(K, K, E) -> bool>(&mut self, s: &Snapshot<K, E>, target: Option<&K>, f: &F) -> (r: bool)
        requires
            keys_compare::<K>(),
            s.wf(),
            forall|a: K, b: K, c: E| f.requires((a, b, c)),
        ensures
            final(self).root_key() == old(self).root_key(),
            old(self).wf() ==> final(self).wf(),
            extends(final(self).tree(), old(self).tree()),
            is_tree(s.keys(), s.adj(), final(self).root_key(), *f, added(final(self).tree(), old(self).tree())),
            s.keys().no_duplicates() ==> distinct_targets(added(final(self).tree(), old(self).tree())),
            r ==> target is Some && final(self).tree().len() > old(self).tree().len()
                && final(self).tree()[final(self).tree().len() - 1].1 == *target->0,
            target is None ==> !r,
            !r && target is Some && s.keys().no_duplicates() && s.keys().contains(*target->0) ==> forall|p: Seq<(K, K, E)>|
                #[trigger] is_walk(s.keys(), s.adj(), p, final(self).root_key(), *target->0) ==> blocked(*f, p),
            s.keys().no_duplicates() ==> priority_ordered(
                s.keys(),
                s.adj(),
                s.ranks(),
                *f,
                final(self).root_key(),
                added(final(self).tree(), old(self).tree()),
                false,
            ),
            s.keys().no_duplicates() ==> groups_complete(
                s.keys(),
                s.adj(),
                *f,
                final(self).root_key(),
                added(final(self).tree(), old(self).tree()),
            ),
    {
        self.search_filter(s, target, f)
    }

    /// The edges the searches run so far have followed, in order.
    pub fn edge_tree(&self) -> (r: &Vec<(K, K, E)>)
        ensures
            r@ == self.tree(),
    {
        &self.edge_tree
    }

    /// The path from the root through the tree to the tree's last edge; no
    /// two of its edges end at the same node when none of the tree's do.
    pub fn edge_path(&self) -> (r: Vec<(K, K, E)>)
        requires
            keys_compare::<K>(),
            self.wf(),
            self.tree().len() > 0,
        ensures
            r@.len() > 0,
            r@[0].0 == self.root_key(),
            r@[r@.len() - 1] == self.tree()[self.tree().len() - 1],
            chained(r@),
            edges_from(r@, self.tree()),
            distinct_targets(self.tree()) ==> distinct_targets(r@),
            r@ == backtracked(self.tree()),
    {
        backtrack(&self.edge_tree)
    }

    /// The nodes along `edge_path`; empty when the tree is.
    pub fn node_path(&self) -> (r: Vec<K>)
        requires
            keys_compare::<K>(),
            self.wf(),
        ensures
            self.tree().len() == 0 ==> r@.len() == 0,
            self.tree().len() > 0 ==> r@.len() > 0 && r@[0] == self.root_key() && exists|p: Seq<(K, K, E)>|
                r@ == walk_nodes(p) && p.len() > 0 && p[0].0 == self.root_key()
                && p[p.len() - 1] == self.tree()[self.tree().len() - 1] && chained(p) && edges_from(p, self.tree()),
            self.tree().len() > 0 ==> r@ == walk_nodes(backtracked(self.tree())),
    {
        if self.edge_tree.len() == 0 {
            return Vec::new();
        }
        let p = self.edge_path();
        let r = walk_keys(&p);
        proof {
            assert(r@[0] == p@[0].0);
        }
        r
    }
}

/// A search from a node for one target, depth first.
pub struct Dfs<K> {
    root: K,
    goal: Option<K>,
}

impl<K: Copy + PartialEq> Dfs<K> {
    /// The node the search starts from.
    pub closed spec fn root_key(&self) -> K {
        self.root
    }

    /// The node searched for.
    pub closed spec fn goal_key(&self) -> Option<K> {
        self.goal
    }

    /// A search from `root` without a target.
    pub fn new(root: &K) -> (r: Self)
        ensures
            r.root_key() == *root,
            r.goal_key() == None::<K>,
    {
        Dfs { root: *root, goal: None }
    }

    /// The same search, for `target`.
    pub fn target(self, target: &K) -> (r: Self)
        ensures
            r.root_key() == self.root_key(),
            r.goal_key() == Some(*target),
    {
        Dfs { root: self.root, goal: Some(*target) }
    }

    /// The target, when the search reaches it: then a walk of `s` leads from
    /// the start to it. `None` without a target.
    pub fn search<E: Copy>(&self, s: &Snapshot<K, E>) -> (r: Option<K>)
        requires
            keys_compare::<K>(),
            s.wf(),
        ensures
            r matches Some(k) ==> self.goal_key() == Some(k) && exists|p: Seq<(K, K, E)>|
                is_walk(s.keys(), s.adj(), p, self.root_key(), k),
            self.goal_key() is None ==> r is None,
            r is None && self.goal_key() is Some && s.keys().no_duplicates() && s.keys().contains(self.goal_key()->0)
                && self.goal_key()->0 != self.root_key() ==> forall|p: Seq<(K, K, E)>|
                !#[trigger] is_walk(s.keys(), s.adj(), p, self.root_key(), self.goal_key()->0),
    {
        match self.search_path(s) {
            Some(p) => {
                proof {
                    let w = p.edge_seq();
                    assert(is_walk(s.keys(), s.adj(), w, self.root_key(), self.goal_key()->0));
                }
                self.goal
            },
            None => None,
        }
    }

    /// The path by which the search reaches its target: a walk of `s` from
    /// the start to the target, through no node twice when the keys of `s`
    /// are distinct. `None` without a target.
    /// The search goes depth first: it takes each node's edges in list
    /// order and goes on from the node reached last that still has an
    /// edge to a node not reached; with distinct keys the path is the one
    /// such a search finds (`recursive_path`, determined by
    /// `law_dfs_path_determined`).
    pub fn search_path<E: Copy>(&self, s: &Snapshot<K, E>) -> (r: Option<Path<K, E>>)
        requires
            keys_compare::<K>(),
            s.wf(),
        ensures
            r matches Some(p) ==> self.goal_key() is Some && is_walk(s.keys(), s.adj(), p.edge_seq(), self.root_key(), self.goal_key()->0),
            s.keys().no_duplicates() ==> (r matches Some(p) ==> walk_nodes(p.edge_seq()).no_duplicates()),
            s.keys().no_duplicates() ==> (r matches Some(p) ==> recursive_path(
                s.keys(),
                s.adj(),
                any_edge(),
                no_edge(),
                self.root_key(),
                true,
                self.goal_key()->0,
                p.edge_seq(),
            )),
            self.goal_key() is None ==> r is None,
            r is None && self.goal_key() is Some && s.keys().no_duplicates() && s.keys().contains(self.goal_key()->0)
                && self.goal_key()->0 != self.root_key() ==> forall|p: Seq<(K, K, E)>|
                !#[trigger] is_walk(s.keys(), s.adj(), p, self.root_key(), self.goal_key()->0),
    {
        match self.goal {
            Some(t) => match s.walk_to(Strategy::Recursive, &self.root, &t, &follow_all::<K, E>, true) {
                Some(p) => {
                    proof {
                        if s.keys().no_duplicates() {
                            lemma_follow_all_filters::<K, E>();
                            lemma_recursive_path_filters(
                                s.keys(),
                                s.adj(),
                                accepted_by(follow_all::<K, E>),
                                refused_by(follow_all::<K, E>),
                                any_edge(),
                                no_edge(),
                                self.root,
                                true,
                                t,
                                p@,
                            );
                        }
                    }
                    Some(path_of(p))
                },
                None => {
                    proof {
                        assert forall|p: Seq<(K, K, E)>| s.keys().no_duplicates() && s.keys().contains(t) && t != self.root
                            && #[trigger] is_walk(s.keys(), s.adj(), p, self.root, t) implies false by {
                            lemma_follow_all_never_blocked(p);
                        }
                    }
                    None
                },
            },
            None => None,
        }
    }

    /// A cycle through the start: a walk of `s` from the start back to it,
    /// through no other node twice when the keys of `s` are distinct.
    /// The search goes depth first, as in `search_path`; with distinct
    /// keys the cycle is the one such a search finds (`recursive_path`).
    pub fn search_cycle<E: Copy>(&self, s: &Snapshot<K, E>) -> (r: Option<Path<K, E>>)
        requires
            keys_compare::<K>(),
            s.wf(),
        ensures
            r matches Some(p) ==> is_walk(s.keys(), s.adj(), p.edge_seq(), self.root_key(), self.root_key()),
            s.keys().no_duplicates() ==> (r matches Some(p) ==> walk_nodes(p.edge_seq()).drop_last().no_duplicates()),
            s.keys().no_duplicates() ==> (r matches Some(p) ==> recursive_path(
                s.keys(),
                s.adj(),
                any_edge(),
                no_edge(),
                self.root_key(),
                false,
                self.root_key(),
                p.edge_seq(),
            )),
            r is None && s.keys().no_duplicates() ==> forall|p: Seq<(K, K, E)>|
                !#[trigger] is_walk(s.keys(), s.adj(), p, self.root_key(), self.root_key()),
    {
        match s.walk_to(Strategy::Recursive, &self.root, &self.root, &follow_all::<K, E>, false) {
            Some(p) => {
                proof {
                    if s.keys().no_duplicates() {
                        lemma_follow_all_filters::<K, E>();
                        lemma_recursive_path_filters(
                            s.keys(),
                            s.adj(),
                            accepted_by(follow_all::<K, E>),
                            refused_by(follow_all::<K, E>),
                            any_edge(),
                            no_edge(),
                            self.root,
                            false,
                            self.root,
                            p@,
                        );
                    }
                }
                Some(path_of(p))
            },
            None => {
                proof {
                    assert forall|p: Seq<(K, K, E)>| s.keys().no_duplicates() && #[trigger] is_walk(s.keys(), s.adj(), p, self.root, self.root)
                        implies false by {
                        lemma_follow_all_never_blocked(p);
                        assert(is_step(s.keys(), s.adj(), p[0].0, p[0].1, p[0].2));
                    }
                }
                None
            },
        }
    }
}

/// A search from a node for one target, breadth first.
pub struct Bfs<K> {
    root: K,
    goal: Option<K>,
}

impl<K: Copy + PartialEq> Bfs<K> {
    /// The node the search starts from.
    pub closed spec fn root_key(&self) -> K {
        self.root
    }

    /// The node searched for.
    pub closed spec fn goal_key(&self) -> Option<K> {
        self.goal
    }

    /// A search from `root` without a target.
    pub fn new(root: &K) -> (r: Self)
        ensures
            r.root_key() == *root,
            r.goal_key() == None::<K>,
    {
        Bfs { root: *root, goal: None }
    }

    /// The same search, for `target`.
    pub fn target(self, target: &K) -> (r: Self)
        ensures
            r.root_key() == self.root_key(),
            r.goal_key() == Some(*target),
    {
        Bfs { root: self.root, goal: Some(*target) }
    }

    /// The target, when the search reaches it: then a walk of `s` leads from
    /// the start to it. `None` without a target.
    pub fn search<E: Copy>(&self, s: &Snapshot<K, E>) -> (r: Option<K>)
        requires
            keys_compare::<K>(),
            s.wf(),
        ensures
            r matches Some(k) ==> self.goal_key() == Some(k) && exists|p: Seq<(K, K, E)>|
                is_walk(s.keys(), s.adj(), p, self.root_key(), k),
            self.goal_key() is None ==> r is None,
            r is None && self.goal_key() is Some && s.keys().no_duplicates() && s.keys().contains(self.goal_key()->0)
                && self.goal_key()->0 != self.root_key() ==> forall|p: Seq<(K, K, E)>|
                !#[trigger] is_walk(s.keys(), s.adj(), p, self.root_key(), self.goal_key()->0),
    {
        match self.search_path(s) {
            Some(p) => {
                proof {
                    let w = p.edge_seq();
                    assert(is_walk(s.keys(), s.adj(), w, self.root_key(), self.goal_key()->0));
                }
                self.goal
            },
            None => None,
        }
    }

    /// The path by which the search reaches its target: a walk of `s` from
    /// the start to the target, through no node twice when the keys of `s`
    /// are distinct, and then no walk to the target is shorter. `None`
    /// without a target.
    pub fn search_path<E: Copy>(&self, s: &Snapshot<K, E>) -> (r: Option<Path<K, E>>)
        requires
            keys_compare::<K>(),
            s.wf(),
        ensures
            r matches Some(p) ==> self.goal_key() is Some && is_walk(s.keys(), s.adj(), p.edge_seq(), self.root_key(), self.goal_key()->0),
            s.keys().no_duplicates() ==> (r matches Some(p) ==> walk_nodes(p.edge_seq()).no_duplicates()),
            s.keys().no_duplicates() ==> (r matches Some(p) ==> none_shorter(
                s.keys(),
                s.adj(),
                follow_all::<K, E>,
                self.root_key(),
                self.goal_key()->0,
                p.edge_seq().len() as int,
            )),
            self.goal_key() is None ==> r is None,
            r is None && self.goal_key() is Some && s.keys().no_duplicates() && s.keys().contains(self.goal_key()->0)
                && self.goal_key()->0 != self.root_key() ==> forall|p: Seq<(K, K, E)>|
                !#[trigger] is_walk(s.keys(), s.adj(), p, self.root_key(), self.goal_key()->0),
    {
        match self.goal {
            Some(t) => match s.walk_to(Strategy::Breadth, &self.root, &t, &follow_all::<K, E>, true) {
                Some(p) => Some(path_of(p)),
                None => {
                    proof {
                        assert forall|p: Seq<(K, K, E)>| s.keys().no_duplicates() && s.keys().contains(t) && t != self.root
                            && #[trigger] is_walk(s.keys(), s.adj(), p, self.root, t) implies false by {
                            lemma_follow_all_never_blocked(p);
                        }
                    }
                    None
                },
            },
            None => None,
        }
    }

    /// A cycle through the start: a walk of `s` from the start back to it,
    /// through no other node twice when the keys of `s` are distinct.
    pub fn search_cycle<E: Copy>(&self, s: &Snapshot<K, E>) -> (r: Option<Path<K, E>>)
        requires
            keys_compare::<K>(),
            s.wf(),
        ensures
            r matches Some(p) ==> is_walk(s.keys(), s.adj(), p.edge_seq(), self.root_key(), self.root_key()),
            s.keys().no_duplicates() ==> (r matches Some(p) ==> walk_nodes(p.edge_seq()).drop_last().no_duplicates()),
            r is None && s.keys().no_duplicates() ==> forall|p: Seq<(K, K, E)>|
                !#[trigger] is_walk(s.keys(), s.adj(), p, self.root_key(), self.root_key()),
    {
        match s.walk_to(Strategy::Breadth, &self.root, &self.root, &follow_all::<K, E>, false) {
            Some(p) => Some(path_of(p)),
            None => {
                proof {
                    assert forall|p: Seq<(K, K, E)>| s.keys().no_duplicates() && #[trigger] is_walk(s.keys(), s.adj(), p, self.root, self.root)
                        implies false by {
                        lemma_follow_all_never_blocked(p);
                        assert(is_step(s.keys(), s.adj(), p[0].0, p[0].1, p[0].2));
                    }
                }
                None
            },
        }
    }
}

/// A search from a node for one target, expanding the reached node of least
/// rank first.
pub struct PfsMin<K> {
    root: K,
    goal: Option<K>,
}

impl<K: Copy + PartialEq> PfsMin<K> {
    /// The node the search starts from.
    pub closed spec fn root_key(&self) -> K {
        self.root
    }

    /// The node searched for.
    pub closed spec fn goal_key(&self) -> Option<K> {
        self.goal
    }

    /// A search from `root` without a target.
    pub fn new(root: &K) -> (r: Self)
        ensures
            r.root_key() == *root,
            r.goal_key() == None::<K>,
    {
        PfsMin { root: *root, goal: None }
    }

    /// The same search, for `target`.
    pub fn target(self, target: &K) -> (r: Self)
        ensures
            r.root_key() == self.root_key(),
            r.goal_key() == Some(*target),
    {
        PfsMin { root: self.root, goal: Some(*target) }
    }

    /// The target, when the search reaches it: then a walk of `s` leads from
    /// the start to it. `None` without a target.
    pub fn search<E: Copy>(&self, s: &Snapshot<K, E>) -> (r: Option<K>)
        requires
            keys_compare::<K>(),
            s.wf(),
        ensures
            r matches Some(k) ==> self.goal_key() == Some(k) && exists|p: Seq<(K, K, E)>|
                is_walk(s.keys(), s.adj(), p, self.root_key(), k),
            self.goal_key() is None ==> r is None,
            r is None && self.goal_key() is Some && s.keys().no_duplicates() && s.keys().contains(self.goal_key()->0)
                && self.goal_key()->0 != self.root_key() ==> forall|p: Seq<(K, K, E)>|
                !#[trigger] is_walk(s.keys(), s.adj(), p, self.root_key(), self.goal_key()->0),
    {
        match self.search_path(s) {
            Some(p) => {
                proof {
                    let w = p.edge_seq();
                    assert(is_walk(s.keys(), s.adj(), w, self.root_key(), self.goal_key()->0));
                }
                self.goal
            },
            None => None,
        }
    }

    /// The path by which the search reaches its target: a walk of `s` from
    /// the start to the target, through no node twice when the keys of `s`
    /// are distinct. `None` without a target.
    pub fn search_path<E: Copy>(&self, s: &Snapshot<K, E>) -> (r: Option<Path<K, E>>)
        requires
            keys_compare::<K>(),
            s.wf(),
        ensures
            r matches Some(p) ==> self.goal_key() is Some && is_walk(s.keys(), s.adj(), p.edge_seq(), self.root_key(), self.goal_key()->0),
            s.keys().no_duplicates() ==> (r matches Some(p) ==> walk_nodes(p.edge_seq()).no_duplicates()),
            self.goal_key() is None ==> r is None,
            r is None && self.goal_key() is Some && s.keys().no_duplicates() && s.keys().contains(self.goal_key()->0)
                && self.goal_key()->0 != self.root_key() ==> forall|p: Seq<(K, K, E)>|
                !#[trigger] is_walk(s.keys(), s.adj(), p, self.root_key(), self.goal_key()->0),
    {
        match self.goal {
            Some(t) => match s.walk_to(Strategy::PriorityMin, &self.root, &t, &follow_all::<K, E>, true) {
                Some(p) => Some(path_of(p)),
                None => {
                    proof {
                        assert forall|p: Seq<(K, K, E)>| s.keys().no_duplicates() && s.keys().contains(t) && t != self.root
                            && #[trigger] is_walk(s.keys(), s.adj(), p, self.root, t) implies false by {
                            lemma_follow_all_never_blocked(p);
                        }
                    }
                    None
                },
            },
            None => None,
        }
    }

    /// A cycle through the start: a walk of `s` from the start back to it,
    /// through no other node twice when the keys of `s` are distinct.
    pub fn search_cycle<E: Copy>(&self, s: &Snapshot<K, E>) -> (r: Option<Path<K, E>>)
        requires
            keys_compare::<K>(),
            s.wf(),
        ensures
            r matches Some(p) ==> is_walk(s.keys(), s.adj(), p.edge_seq(), self.root_key(), self.root_key()),
            s.keys().no_duplicates() ==> (r matches Some(p) ==> walk_nodes(p.edge_seq()).drop_last().no_duplicates()),
            r is None && s.keys().no_duplicates() ==> forall|p: Seq<(K, K, E)>|
                !#[trigger] is_walk(s.keys(), s.adj(), p, self.root_key(), self.root_key()),
    {
        match s.walk_to(Strategy::PriorityMin, &self.root, &self.root, &follow_all::<K, E>, false) {
            Some(p) => Some(path_of(p)),
            None => {
                proof {
                    assert forall|p: Seq<(K, K, E)>| s.keys().no_duplicates() && #[trigger] is_walk(s.keys(), s.adj(), p, self.root, self.root)
                        implies false by {
                        lemma_follow_all_never_blocked(p);
                        assert(is_step(s.keys(), s.adj(), p[0].0, p[0].1, p[0].2));
                    }
                }
                None
            },
        }
    }
}

/// A search from a node for one target, expanding the reached node of
/// greatest rank first.
pub struct PfsMax<K> {
    root: K,
    goal: Option<K>,
}

impl<K: Copy + PartialEq> PfsMax<K> {
    /// The node the search starts from.
    pub closed spec fn root_key(&self) -> K {
        self.root
    }

    /// The node searched for.
    pub closed spec fn goal_key(&self) -> Option<K> {
        self.goal
    }

    /// A search from `root` without a target.
    pub fn new(root: &K) -> (r: Self)
        ensures
            r.root_key() == *root,
            r.goal_key() == None::<K>,
    {
        PfsMax { root: *root, goal: None }
    }

    /// The same search, for `target`.
    pub fn target(self, target: &K) -> (r: Self)
        ensures
            r.root_key() == self.root_key(),
            r.goal_key() == Some(*target),
    {
        PfsMax { root: self.root, goal: Some(*target) }
    }

    /// The target, when the search reaches it: then a walk of `s` leads from
    /// the start to it. `None` without a target.
    pub fn search<E: Copy>(&self, s: &Snapshot<K, E>) -> (r: Option<K>)
        requires
            keys_compare::<K>(),
            s.wf(),
        ensures
            r matches Some(k) ==> self.goal_key() == Some(k) && exists|p: Seq<(K, K, E)>|
                is_walk(s.keys(), s.adj(), p, self.root_key(), k),
            self.goal_key() is None ==> r is None,
            r is None && self.goal_key() is Some && s.keys().no_duplicates() && s.keys().contains(self.goal_key()->0)
                && self.goal_key()->0 != self.root_key() ==> forall|p: Seq<(K, K, E)>|
                !#[trigger] is_walk(s.keys(), s.adj(), p, self.root_key(), self.goal_key()->0),
    {
        match self.search_path(s) {
            Some(p) => {
                proof {
                    let w = p.edge_seq();
                    assert(is_walk(s.keys(), s.adj(), w, self.root_key(), self.goal_key()->0));
                }
                self.goal
            },
            None => None,
        }
    }

    /// The path by which the search reaches its target: a walk of `s` from
    /// the start to the target, through no node twice when the keys of `s`
    /// are distinct. `None` without a target.
    pub fn search_path<E: Copy>(&self, s: &Snapshot<K, E>) -> (r: Option<Path<K, E>>)
        requires
            keys_compare::<K>(),
            s.wf(),
        ensures
            r matches Some(p) ==> self.goal_key() is Some && is_walk(s.keys(), s.adj(), p.edge_seq(), self.root_key(), self.goal_key()->0),
            s.keys().no_duplicates() ==> (r matches Some(p) ==> walk_nodes(p.edge_seq()).no_duplicates()),
            self.goal_key() is None ==> r is None,
            r is None && self.goal_key() is Some && s.keys().no_duplicates() && s.keys().contains(self.goal_key()->0)
                && self.goal_key()->0 != self.root_key() ==> forall|p: Seq<(K, K, E)>|
                !#[trigger] is_walk(s.keys(), s.adj(), p, self.root_key(), self.goal_key()->0),
    {
        match self.goal {
            Some(t) => match s.walk_to(Strategy::PriorityMax, &self.root, &t, &follow_all::<K, E>, true) {
                Some(p) => Some(path_of(p)),
                None => {
                    proof {
                        assert forall|p: Seq<(K, K, E)>| s.keys().no_duplicates() && s.keys().contains(t) && t != self.root
                            && #[trigger] is_walk(s.keys(), s.adj(), p, self.root, t) implies false by {
                            lemma_follow_all_never_blocked(p);
                        }
                    }
                    None
                },
            },
            None => None,
        }
    }

    /// A cycle through the start: a walk of `s` from the start back to it,
    /// through no other node twice when the keys of `s` are distinct.
    pub fn search_cycle<E: Copy>(&self, s: &Snapshot<K, E>) -> (r: Option<Path<K, E>>)
        requires
            keys_compare::<K>(),
            s.wf(),
        ensures
            r matches Some(p) ==> is_walk(s.keys(), s.adj(), p.edge_seq(), self.root_key(), self.root_key()),
            s.keys().no_duplicates() ==> (r matches Some(p) ==> walk_nodes(p.edge_seq()).drop_last().no_duplicates()),
            r is None && s.keys().no_duplicates() ==> forall|p: Seq<(K, K, E)>|
                !#[trigger] is_walk(s.keys(), s.adj(), p, self.root_key(), self.root_key()),
    {
        match s.walk_to(Strategy::PriorityMax, &self.root, &self.root, &follow_all::<K, E>, false) {
            Some(p) => Some(path_of(p)),
            None => {
                proof {
                    assert forall|p: Seq<(K, K, E)>| s.keys().no_duplicates() && #[trigger] is_walk(s.keys(), s.adj(), p, self.root, self.root)
                        implies false by {
                        lemma_follow_all_never_blocked(p);
                        assert(is_step(s.keys(), s.adj(), p[0].0, p[0].1, p[0].2));
                    }
                }
                None
            },
        }
    }
}

} // verus!
