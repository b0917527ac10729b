//! Paths through a table of optional successors.
//!
//! Every traversal of the tree (towards the root, or along a chain of
//! siblings in either direction) follows one link per step until a node has
//! none. This module states what such a walk visits and how the walk changes
//! when single entries of the table are rewritten.

use crate::nodeid::NodeId;
use vstd::prelude::*;

verus! {

/// `path` is the walk that begins at `start` and follows `succ` until a node
/// has no successor: it lists every node visited, in order.
pub open spec fn is_path(succ: Seq<Option<NodeId>>, start: Option<NodeId>, path: Seq<NodeId>) -> bool {
    &&& match start {
        Some(n) => path.len() > 0 && path[0] == n,
        None => path.len() == 0,
    }
    &&& forall|i: int| 0 <= i < path.len() ==> (#[trigger] path[i]).0 < succ.len()
    &&& forall|i: int, j: int|
        0 <= i && j == i + 1 && j < path.len() ==> succ[(#[trigger] path[i]).0 as int] == Some(
            #[trigger] path[j],
        )
    &&& path.len() > 0 ==> succ[path[path.len() - 1].0 as int] is None
}

/// The walk from `start` comes to an end.
pub open spec fn terminates(succ: Seq<Option<NodeId>>, start: Option<NodeId>) -> bool {
    exists|path: Seq<NodeId>| is_path(succ, start, path)
}

/// The walk from every node of the table comes to an end: the table holds no cycle.
pub open spec fn all_terminate(succ: Seq<Option<NodeId>>) -> bool {
    forall|n: NodeId| n.0 < succ.len() ==> #[trigger] terminates(succ, Some(n))
}

/// The nodes visited from `start`, in order (meaningful where the walk terminates).
pub open spec fn path_from(succ: Seq<Option<NodeId>>, start: Option<NodeId>) -> Seq<NodeId> {
    choose|path: Seq<NodeId>| is_path(succ, start, path)
}

/// No entry of the table leads to `x`, and `x` leads nowhere.
pub open spec fn isolated(succ: Seq<Option<NodeId>>, x: NodeId) -> bool {
    &&& x.0 < succ.len()
    &&& succ[x.0 as int] is None
    &&& forall|m: NodeId| m.0 < succ.len() ==> #[trigger] succ[m.0 as int] != Some(x)
}

/// `s` with `x` taken out (where `s` holds `x` at most once).
pub open spec fn without(s: Seq<NodeId>, x: NodeId) -> Seq<NodeId> {
    if s.contains(x) {
        s.remove(s.index_of(x))
    } else {
        s
    }
}

/// `s` with `x` put directly behind `anchor`; `s` itself where it does not hold `anchor`.
pub open spec fn inserted_after(s: Seq<NodeId>, anchor: NodeId, x: NodeId) -> Seq<NodeId> {
    if s.contains(anchor) {
        s.insert(s.index_of(anchor) + 1, x)
    } else {
        s
    }
}

/// `s` with `x` put directly in front of `anchor`; `s` itself where it does not hold `anchor`.
pub open spec fn inserted_before(s: Seq<NodeId>, anchor: NodeId, x: NodeId) -> Seq<NodeId> {
    if s.contains(anchor) {
        s.insert(s.index_of(anchor), x)
    } else {
        s
    }
}

/// `s` cut off behind `x`; `s` itself where it does not hold `x`.
pub open spec fn upto(s: Seq<NodeId>, x: NodeId) -> Seq<NodeId> {
    if s.contains(x) {
        s.take(s.index_of(x) + 1)
    } else {
        s
    }
}

/// What remains of a walk after its first `k` steps is the walk from its `k`-th node.
pub proof fn lemma_path_suffix(succ: Seq<Option<NodeId>>, start: Option<NodeId>, path: Seq<NodeId>, k: int)
    requires
        is_path(succ, start, path),
        0 <= k <= path.len(),
    ensures
        is_path(succ, if k == 0 { start } else { succ[path[k - 1].0 as int] }, path.skip(k)),
        k < path.len() ==> is_path(succ, Some(path[k]), path.skip(k)),
{
    let rest = path.skip(k);
    assert forall|i: int, j: int| 0 <= i && j == i + 1 && j < rest.len() implies succ[(
    #[trigger] rest[i]).0 as int] == Some(#[trigger] rest[j]) by {
        assert(rest[i] == path[i + k]);
        assert(rest[j] == path[j + k]);
    }
    if k > 0 && k < path.len() {
        assert(succ[path[k - 1].0 as int] == Some(path[k]));
    }
    if rest.len() > 0 {
        assert(rest[rest.len() - 1] == path[path.len() - 1]);
    }
}

/// A table admits at most one walk from a given start.
pub proof fn lemma_path_unique(succ: Seq<Option<NodeId>>, start: Option<NodeId>, p: Seq<NodeId>, q: Seq<NodeId>)
    requires
        is_path(succ, start, p),
        is_path(succ, start, q),
    ensures
        p == q,
    decreases p.len(),
{
    if p.len() == 0 {
        assert(p =~= q);
    } else {
        lemma_path_suffix(succ, start, p, 1);
        lemma_path_suffix(succ, start, q, 1);
        lemma_path_unique(succ, succ[p[0].0 as int], p.skip(1), q.skip(1));
        assert(p.len() == q.len()) by {
            assert(p.skip(1).len() == p.len() - 1);
            assert(q.skip(1).len() == q.len() - 1);
        }
        assert forall|i: int| 0 <= i < p.len() implies p[i] == q[i] by {
            if i > 0 {
                assert(p.skip(1)[i - 1] == p[i]);
                assert(q.skip(1)[i - 1] == q[i]);
            }
        }
        assert(p =~= q);
    }
}

/// Any walk found from `start` is the one that `path_from` names.
pub proof fn lemma_path_from(succ: Seq<Option<NodeId>>, start: Option<NodeId>, path: Seq<NodeId>)
    requires
        is_path(succ, start, path),
    ensures
        terminates(succ, start),
        path_from(succ, start) == path,
{
    lemma_path_unique(succ, start, path_from(succ, start), path);
}

/// A walk visits no node twice.
pub proof fn lemma_path_distinct(succ: Seq<Option<NodeId>>, start: Option<NodeId>, path: Seq<NodeId>)
    requires
        is_path(succ, start, path),
    ensures
        path.no_duplicates(),
{
    assert forall|i: int, j: int| 0 <= i < path.len() && 0 <= j < path.len() && i != j implies path[i]
        != path[j] by {
        if path[i] == path[j] {
            lemma_path_suffix(succ, start, path, i);
            lemma_path_suffix(succ, start, path, j);
            lemma_path_unique(succ, Some(path[i]), path.skip(i), path.skip(j));
            assert(path.skip(i).len() == path.len() - i);
            assert(path.skip(j).len() == path.len() - j);
        }
    }
}

/// The first step of a walk: the start, then the walk from the start's successor.
pub proof fn lemma_path_step(succ: Seq<Option<NodeId>>, n: NodeId)
    requires
        terminates(succ, Some(n)),
    ensures
        n.0 < succ.len(),
        terminates(succ, succ[n.0 as int]),
        path_from(succ, Some(n)) == seq![n] + path_from(succ, succ[n.0 as int]),
{
    let p = path_from(succ, Some(n));
    lemma_path_suffix(succ, Some(n), p, 1);
    lemma_path_from(succ, succ[n.0 as int], p.skip(1));
    assert(p =~= seq![n] + p.skip(1));
}

/// The walk from nowhere is empty.
pub proof fn lemma_path_none(succ: Seq<Option<NodeId>>)
    ensures
        terminates(succ, None),
        path_from(succ, None) == Seq::<NodeId>::empty(),
{
    lemma_path_from(succ, None, Seq::<NodeId>::empty());
}

/// A node in front of a terminating walk gives a terminating walk.
pub proof fn lemma_path_cons(succ: Seq<Option<NodeId>>, n: NodeId, rest: Seq<NodeId>)
    requires
        n.0 < succ.len(),
        is_path(succ, succ[n.0 as int], rest),
    ensures
        is_path(succ, Some(n), seq![n] + rest),
{
    let p = seq![n] + rest;
    assert forall|i: int, j: int| 0 <= i && j == i + 1 && j < p.len() implies succ[(#[trigger] p[i]).0 as int]
        == Some(#[trigger] p[j]) by {
        if i > 0 {
            assert(p[i] == rest[i - 1]);
            assert(p[j] == rest[j - 1]);
        } else {
            assert(p[j] == rest[0]);
        }
    }
    assert forall|i: int| 0 <= i < p.len() implies (#[trigger] p[i]).0 < succ.len() by {
        if i > 0 {
            assert(p[i] == rest[i - 1]);
        }
    }
    if rest.len() > 0 {
        assert(p[p.len() - 1] == rest[rest.len() - 1]);
    }
}

/// A walk is unchanged where the table is unchanged at every node it visits.
pub proof fn lemma_path_frame(
    succ: Seq<Option<NodeId>>,
    succ2: Seq<Option<NodeId>>,
    start: Option<NodeId>,
    path: Seq<NodeId>,
)
    requires
        is_path(succ, start, path),
        succ2.len() == succ.len(),
        forall|i: int| 0 <= i < path.len() ==> succ2[(#[trigger] path[i]).0 as int] == succ[path[i].0 as int],
    ensures
        is_path(succ2, start, path),
{
}

/// Two walks from one start visit the same nodes for as long as the two
/// tables agree on the nodes visited.
pub proof fn lemma_path_prefix(
    succ: Seq<Option<NodeId>>,
    succ2: Seq<Option<NodeId>>,
    start: Option<NodeId>,
    p: Seq<NodeId>,
    w: Seq<NodeId>,
    k: int,
)
    requires
        is_path(succ, start, p),
        is_path(succ2, start, w),
        0 <= k < p.len(),
        forall|i: int| 0 <= i < k ==> succ2[(#[trigger] p[i]).0 as int] == succ[p[i].0 as int],
    ensures
        k < w.len(),
        w[k] == p[k],
    decreases k,
{
    if k > 0 {
        lemma_path_prefix(succ, succ2, start, p, w, k - 1);
        assert(succ[p[k - 1].0 as int] == Some(p[k]));
        assert(succ2[p[k - 1].0 as int] == succ[p[k - 1].0 as int]);
        if k < w.len() {
            assert(succ2[w[k - 1].0 as int] == Some(w[k]));
        }
    }
}

/// A walk is unchanged where the table grows by a node that leads nowhere.
pub proof fn lemma_path_grow(succ: Seq<Option<NodeId>>, start: Option<NodeId>, path: Seq<NodeId>)
    requires
        is_path(succ, start, path),
    ensures
        is_path(succ.push(None), start, path),
{
    let succ2 = succ.push(None);
    assert forall|i: int, j: int| 0 <= i && j == i + 1 && j < path.len() implies succ2[(#[trigger] path[i]).0 as int]
        == Some(#[trigger] path[j]) by {
        assert(succ[path[i].0 as int] == Some(path[j]));
    }
}

/// A walk visits at most as many nodes as the table holds.
pub proof fn lemma_path_len(succ: Seq<Option<NodeId>>, start: Option<NodeId>, path: Seq<NodeId>)
    requires
        is_path(succ, start, path),
    ensures
        path.len() <= succ.len(),
{
    lemma_path_distinct(succ, start, path);
    let positions = path.map_values(|n: NodeId| n.0 as int);
    assert forall|i: int, j: int| 0 <= i < positions.len() && 0 <= j < positions.len() && i != j implies positions[i]
        != positions[j] by {
        assert(path[i] != path[j]);
    }
    positions.unique_seq_to_set();
    let bound = succ.len() as int;
    vstd::set_lib::lemma_int_range(0, bound);
    assert forall|v: int| positions.to_set().contains(v) implies vstd::set_lib::set_int_range(0, bound).contains(v) by {
        let i = choose|i: int| 0 <= i < positions.len() && positions[i] == v;
        assert(path[i].0 < succ.len());
    }
    vstd::set_lib::lemma_len_subset(positions.to_set(), vstd::set_lib::set_int_range(0, bound));
}

/// A node that nothing leads to is visited only by the walk that starts at it.
pub proof fn lemma_path_avoids(succ: Seq<Option<NodeId>>, start: Option<NodeId>, path: Seq<NodeId>, x: NodeId)
    requires
        is_path(succ, start, path),
        start != Some(x),
        forall|m: NodeId| m.0 < succ.len() ==> #[trigger] succ[m.0 as int] != Some(x),
    ensures
        !path.contains(x),
{
    if path.contains(x) {
        let k = path.index_of(x);
        assert(path[k] == x);
        assert(k > 0);
        assert(succ[path[k - 1].0 as int] == Some(path[k]));
    }
}

} // verus!
