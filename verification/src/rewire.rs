//! How walks change when single entries of a successor table are rewritten.
//!
//! Each lemma takes a table, a rewritten table and a walk through the first,
//! and gives the walk through the second.

use crate::nodeid::NodeId;
use crate::path::{
    all_terminate, inserted_after, is_path, isolated, lemma_path_avoids, lemma_path_cons, lemma_path_distinct,
    lemma_path_frame, lemma_path_from, lemma_path_none, lemma_path_step, lemma_path_suffix, path_from, terminates, upto,
    without,
};
use vstd::prelude::*;

verus! {

/// `succ2` is `succ` with `x` taken out of its chain: whatever led to `x`
/// leads to the successor of `x`, and `x` leads nowhere.
pub open spec fn unlinked(succ: Seq<Option<NodeId>>, succ2: Seq<Option<NodeId>>, x: NodeId) -> bool {
    &&& x.0 < succ.len()
    &&& succ2.len() == succ.len()
    &&& succ2[x.0 as int] is None
    &&& forall|m: NodeId|
        m.0 < succ.len() && m != x ==> #[trigger] succ2[m.0 as int] == (if succ[m.0 as int] == Some(x) {
            succ[x.0 as int]
        } else {
            succ[m.0 as int]
        })
}

/// `succ2` is `succ` with the isolated node `x` put directly behind `s`.
pub open spec fn linked_after(succ: Seq<Option<NodeId>>, succ2: Seq<Option<NodeId>>, s: NodeId, x: NodeId) -> bool {
    &&& isolated(succ, x)
    &&& s.0 < succ.len()
    &&& s != x
    &&& succ2.len() == succ.len()
    &&& succ2[s.0 as int] == Some(x)
    &&& succ2[x.0 as int] == succ[s.0 as int]
    &&& forall|m: NodeId| m.0 < succ.len() && m != x && m != s ==> #[trigger] succ2[m.0 as int] == succ[m.0 as int]
}

/// `succ2` is `succ` but for the isolated node `x`, which now leads to `target`.
pub open spec fn linked_front(
    succ: Seq<Option<NodeId>>,
    succ2: Seq<Option<NodeId>>,
    x: NodeId,
    target: Option<NodeId>,
) -> bool {
    &&& isolated(succ, x)
    &&& target != Some(x)
    &&& succ2.len() == succ.len()
    &&& succ2[x.0 as int] == target
    &&& forall|m: NodeId| m.0 < succ.len() && m != x ==> #[trigger] succ2[m.0 as int] == succ[m.0 as int]
}

/// `succ2` is `succ` but at `x`.
pub open spec fn differs_at(succ: Seq<Option<NodeId>>, succ2: Seq<Option<NodeId>>, x: NodeId) -> bool {
    &&& x.0 < succ.len()
    &&& succ2.len() == succ.len()
    &&& forall|m: NodeId| m.0 < succ.len() && m != x ==> #[trigger] succ2[m.0 as int] == succ[m.0 as int]
}

/// Taking `x` out of its chain takes it out of every walk that does not start at it.
pub proof fn lemma_unlink_path(
    succ: Seq<Option<NodeId>>,
    succ2: Seq<Option<NodeId>>,
    x: NodeId,
    start: Option<NodeId>,
    path: Seq<NodeId>,
)
    requires
        unlinked(succ, succ2, x),
        is_path(succ, start, path),
        start != Some(x),
    ensures
        is_path(succ2, start, without(path, x)),
{
    lemma_path_distinct(succ, start, path);
    if path.contains(x) {
        let k = path.index_of(x);
        assert(path[k] == x);
        assert(k > 0);
        let walk2 = path.remove(k);
        assert(walk2.len() == path.len() - 1);
        assert forall|i: int| 0 <= i < walk2.len() implies #[trigger] walk2[i] == (if i < k {
            path[i]
        } else {
            path[i + 1]
        }) && walk2[i] != x by {}
        assert forall|i: int, j: int| 0 <= i && j == i + 1 && j < walk2.len() implies
            succ2[(#[trigger] walk2[i]).0 as int]
            == Some(#[trigger] walk2[j]) by {
            if j < k {
                assert(succ[path[i].0 as int] == Some(path[j]));
            } else if i < k {
                assert(succ[path[i].0 as int] == Some(path[k]));
                assert(succ[path[k].0 as int] == Some(path[k + 1]));
            } else {
                assert(succ[path[i + 1].0 as int] == Some(path[j + 1]));
            }
        }
        if walk2.len() > 0 {
            let last = walk2.len() - 1;
            if last < k {
                assert(last == k - 1);
                assert(succ[path[k - 1].0 as int] == Some(path[k]));
                assert(walk2[last] == path[k - 1]);
            } else {
                assert(walk2[last] == path[path.len() - 1]);
                assert(succ[path[last].0 as int] == Some(path[last + 1]));
            }
        }
        assert(is_path(succ2, start, walk2));
    } else {
        assert forall|i: int| 0 <= i < path.len() implies
            succ2[(#[trigger] path[i]).0 as int] == succ[path[i].0 as int] by {
            assert(path.contains(path[i]));
            if succ[path[i].0 as int] == Some(x) {
                assert(i + 1 < path.len());
                assert(succ[path[i].0 as int] == Some(path[i + 1]));
                assert(path.contains(path[i + 1]));
            }
        }
        lemma_path_frame(succ, succ2, start, path);
    }
}

/// Taking nodes out of chains creates no cycle.
pub proof fn lemma_unlink_terminates(succ: Seq<Option<NodeId>>, succ2: Seq<Option<NodeId>>, x: NodeId)
    requires
        unlinked(succ, succ2, x),
        all_terminate(succ),
    ensures
        all_terminate(succ2),
        is_path(succ2, Some(x), seq![x]),
{
    assert(is_path(succ2, Some(x), seq![x]));
    assert forall|n: NodeId| n.0 < succ2.len() implies #[trigger] terminates(succ2, Some(n)) by {
        if n != x {
            assert(terminates(succ, Some(n)));
            lemma_unlink_path(succ, succ2, x, Some(n), path_from(succ, Some(n)));
        }
    }
}

/// After `x` is taken out of its chain, the walk from any start is the walk
/// there was, without `x`; a walk that started at `x` starts at its successor.
pub proof fn lemma_unlink_from(succ: Seq<Option<NodeId>>, succ2: Seq<Option<NodeId>>, x: NodeId, start: Option<NodeId>)
    requires
        unlinked(succ, succ2, x),
        terminates(succ, start),
    ensures
        is_path(
            succ2,
            if start == Some(x) {
                succ[x.0 as int]
            } else {
                start
            },
            without(path_from(succ, start), x),
        ),
        path_from(
            succ2,
            if start == Some(x) {
                succ[x.0 as int]
            } else {
                start
            },
        ) == without(path_from(succ, start), x),
{
    let p = path_from(succ, start);
    lemma_path_distinct(succ, start, p);
    if start == Some(x) {
        lemma_path_suffix(succ, start, p, 1);
        let rest = p.skip(1);
        assert(p[0] == x);
        assert(!rest.contains(x)) by {
            if rest.contains(x) {
                let k = rest.index_of(x);
                assert(p[k + 1] == x);
            }
        }
        if succ[x.0 as int] == Some(x) {
            assert(rest[0] == x);
            assert(rest.contains(x));
        }
        lemma_unlink_path(succ, succ2, x, succ[x.0 as int], rest);
        lemma_path_from(succ2, succ[x.0 as int], rest);
        assert(p.contains(x));
        assert(p.index_of(x) == 0);
        assert(p.remove(0) =~= rest);
    } else {
        lemma_unlink_path(succ, succ2, x, start, p);
        lemma_path_from(succ2, start, without(p, x));
    }
}

/// Putting `x` behind `s` puts it behind `s` in every walk that does not start at `x`.
pub proof fn lemma_link_after_path(
    succ: Seq<Option<NodeId>>,
    succ2: Seq<Option<NodeId>>,
    s: NodeId,
    x: NodeId,
    start: Option<NodeId>,
    path: Seq<NodeId>,
)
    requires
        linked_after(succ, succ2, s, x),
        is_path(succ, start, path),
        start != Some(x),
    ensures
        is_path(succ2, start, inserted_after(path, s, x)),
        !path.contains(x),
{
    lemma_path_distinct(succ, start, path);
    lemma_path_avoids(succ, start, path, x);
    assert forall|i: int| 0 <= i < path.len() implies (#[trigger] path[i]) != x by {
        assert(path.contains(path[i]));
    }
    if path.contains(s) {
        let k = path.index_of(s);
        assert(path[k] == s);
        let walk2 = path.insert(k + 1, x);
        assert(walk2.len() == path.len() + 1);
        assert forall|i: int| 0 <= i < walk2.len() implies #[trigger] walk2[i] == (if i <= k {
            path[i]
        } else if i == k + 1 {
            x
        } else {
            path[i - 1]
        }) by {}
        assert forall|i: int, j: int| 0 <= i && j == i + 1 && j < walk2.len() implies
            succ2[(#[trigger] walk2[i]).0 as int]
            == Some(#[trigger] walk2[j]) by {
            if j <= k {
                assert(succ[path[i].0 as int] == Some(path[j]));
            } else if i == k {
            } else if i == k + 1 {
                assert(succ[path[k].0 as int] == Some(path[k + 1]));
            } else {
                assert(succ[path[i - 1].0 as int] == Some(path[j - 1]));
            }
        }
        let last = walk2.len() - 1;
        if last == k + 1 {
        } else {
            assert(walk2[last] == path[path.len() - 1]);
        }
        assert(is_path(succ2, start, walk2));
    } else {
        assert forall|i: int| 0 <= i < path.len() implies
            succ2[(#[trigger] path[i]).0 as int] == succ[path[i].0 as int] by {
            assert(path.contains(path[i]));
        }
        lemma_path_frame(succ, succ2, start, path);
    }
}

/// After `x` is put behind `s`, the walk from `x` is `x` and then what used to follow `s`.
pub proof fn lemma_link_after_from_new(
    succ: Seq<Option<NodeId>>,
    succ2: Seq<Option<NodeId>>,
    s: NodeId,
    x: NodeId,
    rest: Seq<NodeId>,
)
    requires
        linked_after(succ, succ2, s, x),
        is_path(succ, succ[s.0 as int], rest),
    ensures
        is_path(succ2, Some(x), seq![x] + rest),
        is_path(succ2, succ2[x.0 as int], rest),
{
    lemma_path_cons(succ, s, rest);
    let whole = seq![s] + rest;
    lemma_path_distinct(succ, Some(s), whole);
    lemma_path_avoids(succ, Some(s), whole, x);
    assert forall|i: int| 0 <= i < rest.len() implies
        succ2[(#[trigger] rest[i]).0 as int] == succ[rest[i].0 as int] by {
        assert(whole[i + 1] == rest[i]);
        assert(whole[0] == s);
        assert(whole.contains(whole[i + 1]));
    }
    lemma_path_frame(succ, succ2, succ[s.0 as int], rest);
    lemma_path_cons(succ2, x, rest);
}

/// After `x` is put behind `s`, the walk from any other start is the walk
/// there was, with `x` behind `s`.
pub proof fn lemma_link_after_from(
    succ: Seq<Option<NodeId>>,
    succ2: Seq<Option<NodeId>>,
    s: NodeId,
    x: NodeId,
    start: Option<NodeId>,
)
    requires
        linked_after(succ, succ2, s, x),
        terminates(succ, start),
        start != Some(x),
    ensures
        path_from(succ2, start) == inserted_after(path_from(succ, start), s, x),
        !path_from(succ, start).contains(x),
{
    lemma_link_after_path(succ, succ2, s, x, start, path_from(succ, start));
    lemma_path_from(succ2, start, inserted_after(path_from(succ, start), s, x));
}

/// Putting an isolated node behind another creates no cycle.
pub proof fn lemma_link_after_terminates(succ: Seq<Option<NodeId>>, succ2: Seq<Option<NodeId>>, s: NodeId, x: NodeId)
    requires
        linked_after(succ, succ2, s, x),
        all_terminate(succ),
    ensures
        all_terminate(succ2),
{
    assert forall|n: NodeId| n.0 < succ2.len() implies #[trigger] terminates(succ2, Some(n)) by {
        if n != x {
            assert(terminates(succ, Some(n)));
            lemma_link_after_path(succ, succ2, s, x, Some(n), path_from(succ, Some(n)));
        } else {
            assert(terminates(succ, Some(s)));
            lemma_path_step(succ, s);
            lemma_link_after_from_new(succ, succ2, s, x, path_from(succ, succ[s.0 as int]));
        }
    }
}

/// Pointing an isolated node at `target` leaves every walk that does not start at it,
/// and the walk from it is itself and then the walk from `target`.
pub proof fn lemma_link_front_path(
    succ: Seq<Option<NodeId>>,
    succ2: Seq<Option<NodeId>>,
    x: NodeId,
    target: Option<NodeId>,
    start: Option<NodeId>,
    path: Seq<NodeId>,
)
    requires
        linked_front(succ, succ2, x, target),
        is_path(succ, start, path),
        start != Some(x),
    ensures
        is_path(succ2, start, path),
        !path.contains(x),
        start == target ==> is_path(succ2, Some(x), seq![x] + path),
{
    lemma_path_avoids(succ, start, path, x);
    assert forall|i: int| 0 <= i < path.len() implies
        succ2[(#[trigger] path[i]).0 as int] == succ[path[i].0 as int] by {
        assert(path.contains(path[i]));
    }
    lemma_path_frame(succ, succ2, start, path);
    if start == target {
        lemma_path_cons(succ2, x, path);
    }
}

/// After an isolated node `x` is pointed at `target`, the walk from any other
/// start is the walk there was, and the walk from `x` is `x` and then the
/// walk from `target`.
pub proof fn lemma_link_front_from(
    succ: Seq<Option<NodeId>>,
    succ2: Seq<Option<NodeId>>,
    x: NodeId,
    target: Option<NodeId>,
    start: Option<NodeId>,
)
    requires
        linked_front(succ, succ2, x, target),
        terminates(succ, start),
        terminates(succ, target),
        start != Some(x),
    ensures
        path_from(succ2, start) == path_from(succ, start),
        !path_from(succ, start).contains(x),
        path_from(succ2, Some(x)) == seq![x] + path_from(succ, target),
{
    lemma_link_front_path(succ, succ2, x, target, start, path_from(succ, start));
    lemma_path_from(succ2, start, path_from(succ, start));
    lemma_link_front_path(succ, succ2, x, target, target, path_from(succ, target));
    lemma_path_from(succ2, Some(x), seq![x] + path_from(succ, target));
}

/// Pointing an isolated node at a node other than itself creates no cycle.
pub proof fn lemma_link_front_terminates(
    succ: Seq<Option<NodeId>>,
    succ2: Seq<Option<NodeId>>,
    x: NodeId,
    target: Option<NodeId>,
)
    requires
        linked_front(succ, succ2, x, target),
        target matches Some(t) ==> t.0 < succ.len(),
        all_terminate(succ),
    ensures
        all_terminate(succ2),
{
    assert forall|n: NodeId| n.0 < succ2.len() implies #[trigger] terminates(succ2, Some(n)) by {
        if n != x {
            assert(terminates(succ, Some(n)));
            lemma_link_front_path(succ, succ2, x, target, Some(n), path_from(succ, Some(n)));
        } else {
            match target {
                Some(t) => {
                    assert(terminates(succ, Some(t)));
                },
                None => {
                    lemma_path_none(succ);
                },
            }
            lemma_link_front_path(succ, succ2, x, target, target, path_from(succ, target));
        }
    }
}

/// Clearing the entry of `x` cuts every walk off behind `x`.
pub proof fn lemma_cut_path(
    succ: Seq<Option<NodeId>>,
    succ2: Seq<Option<NodeId>>,
    x: NodeId,
    start: Option<NodeId>,
    path: Seq<NodeId>,
)
    requires
        differs_at(succ, succ2, x),
        succ2[x.0 as int] is None,
        is_path(succ, start, path),
    ensures
        is_path(succ2, start, upto(path, x)),
{
    lemma_path_distinct(succ, start, path);
    if path.contains(x) {
        let k = path.index_of(x);
        assert(path[k] == x);
        let walk2 = path.take(k + 1);
        assert forall|i: int, j: int| 0 <= i && j == i + 1 && j < walk2.len() implies
            succ2[(#[trigger] walk2[i]).0 as int]
            == Some(#[trigger] walk2[j]) by {
            assert(succ[path[i].0 as int] == Some(path[j]));
        }
        assert(is_path(succ2, start, walk2));
    } else {
        assert forall|i: int| 0 <= i < path.len() implies
            succ2[(#[trigger] path[i]).0 as int] == succ[path[i].0 as int] by {
            assert(path.contains(path[i]));
        }
        lemma_path_frame(succ, succ2, start, path);
    }
}

/// Clearing an entry creates no cycle.
pub proof fn lemma_cut_terminates(succ: Seq<Option<NodeId>>, succ2: Seq<Option<NodeId>>, x: NodeId)
    requires
        differs_at(succ, succ2, x),
        succ2[x.0 as int] is None,
        all_terminate(succ),
    ensures
        all_terminate(succ2),
{
    assert forall|n: NodeId| n.0 < succ2.len() implies #[trigger] terminates(succ2, Some(n)) by {
        assert(terminates(succ, Some(n)));
        lemma_cut_path(succ, succ2, x, Some(n), path_from(succ, Some(n)));
    }
}

/// Where `x` led nowhere and now leads to `p`, whose own walk does not visit `x`:
/// a walk that ended at `x` goes on with the walk from `p`, and every other walk stays.
pub proof fn lemma_extend_path(
    succ: Seq<Option<NodeId>>,
    succ2: Seq<Option<NodeId>>,
    x: NodeId,
    p: NodeId,
    tail: Seq<NodeId>,
    start: Option<NodeId>,
    path: Seq<NodeId>,
)
    requires
        differs_at(succ, succ2, x),
        succ[x.0 as int] is None,
        succ2[x.0 as int] == Some(p),
        is_path(succ, Some(p), tail),
        !tail.contains(x),
        is_path(succ, start, path),
    ensures
        is_path(succ2, start, if path.contains(x) { path + tail } else { path }),
        is_path(succ2, Some(p), tail),
{
    assert forall|i: int| 0 <= i < tail.len() implies
        succ2[(#[trigger] tail[i]).0 as int] == succ[tail[i].0 as int] by {
        assert(tail.contains(tail[i]));
    }
    lemma_path_frame(succ, succ2, Some(p), tail);
    lemma_path_distinct(succ, start, path);
    if path.contains(x) {
        let k = path.index_of(x);
        assert(path[k] == x);
        if k + 1 < path.len() {
            assert(succ[path[k].0 as int] == Some(path[k + 1]));
        }
        assert(k == path.len() - 1);
        let walk2 = path + tail;
        assert forall|i: int| 0 <= i < walk2.len() implies #[trigger] walk2[i] == (if i < path.len() {
            path[i]
        } else {
            tail[i - path.len()]
        }) by {}
        assert forall|i: int, j: int| 0 <= i && j == i + 1 && j < walk2.len() implies
            succ2[(#[trigger] walk2[i]).0 as int]
            == Some(#[trigger] walk2[j]) by {
            if j < path.len() {
                assert(succ[path[i].0 as int] == Some(path[j]));
            } else if i < path.len() {
                assert(walk2[j] == tail[0]);
            } else {
                assert(succ2[tail[i - path.len()].0 as int] == Some(tail[j - path.len()]));
            }
        }
        assert(walk2[walk2.len() - 1] == tail[tail.len() - 1]);
        assert(is_path(succ2, start, walk2));
    } else {
        assert forall|i: int| 0 <= i < path.len() implies
            succ2[(#[trigger] path[i]).0 as int] == succ[path[i].0 as int] by {
            assert(path.contains(path[i]));
        }
        lemma_path_frame(succ, succ2, start, path);
    }
}

/// Pointing a node that led nowhere at a node whose walk avoids it creates no cycle.
pub proof fn lemma_extend_terminates(succ: Seq<Option<NodeId>>, succ2: Seq<Option<NodeId>>, x: NodeId, p: NodeId)
    requires
        differs_at(succ, succ2, x),
        succ[x.0 as int] is None,
        succ2[x.0 as int] == Some(p),
        p.0 < succ.len(),
        !path_from(succ, Some(p)).contains(x),
        all_terminate(succ),
    ensures
        all_terminate(succ2),
{
    assert(terminates(succ, Some(p)));
    let tail = path_from(succ, Some(p));
    assert forall|n: NodeId| n.0 < succ2.len() implies #[trigger] terminates(succ2, Some(n)) by {
        assert(terminates(succ, Some(n)));
        lemma_extend_path(succ, succ2, x, p, tail, Some(n), path_from(succ, Some(n)));
    }
}

} // verus!
