//! The linkage of an arena as a plain table, and what it means for that
//! table to describe well-formed sibling chains and a forest.

use crate::nodeid::NodeId;
use crate::path::{all_terminate, is_path, lemma_path_distinct, lemma_path_from, lemma_path_grow, path_from, terminates};
use vstd::prelude::*;

verus! {

/// The five neighbours of one node.
pub struct Links {
    pub parent: Option<NodeId>,
    pub previous_sibling: Option<NodeId>,
    pub next_sibling: Option<NodeId>,
    pub first_child: Option<NodeId>,
    pub last_child: Option<NodeId>,
}

/// The links of a node that stands alone.
pub open spec fn blank() -> Links {
    Links { parent: None, previous_sibling: None, next_sibling: None, first_child: None, last_child: None }
}

/// The parent of every node, by position.
pub open spec fn parents(l: Seq<Links>) -> Seq<Option<NodeId>> {
    Seq::new(l.len(), |i: int| l[i].parent)
}

/// The next sibling of every node, by position.
pub open spec fn nexts(l: Seq<Links>) -> Seq<Option<NodeId>> {
    Seq::new(l.len(), |i: int| l[i].next_sibling)
}

/// The previous sibling of every node, by position.
pub open spec fn prevs(l: Seq<Links>) -> Seq<Option<NodeId>> {
    Seq::new(l.len(), |i: int| l[i].previous_sibling)
}

/// `link`, where present, names a node of the table.
pub open spec fn within(l: Seq<Links>, link: Option<NodeId>) -> bool {
    link matches Some(n) ==> n.0 < l.len()
}

/// `link` names the node at position `i`.
pub open spec fn is_id(link: Option<NodeId>, i: int) -> bool {
    link matches Some(n) && n.0 == i
}

/// The links of `n` agree with those of its neighbours: sibling links are
/// mutual and stay under one parent, and a parent's first and last child are
/// the two ends of the chain of its children.
pub open spec fn node_ok(l: Seq<Links>, n: NodeId) -> bool {
    let e = l[n.0 as int];
    &&& within(l, e.parent)
    &&& within(l, e.previous_sibling)
    &&& within(l, e.next_sibling)
    &&& within(l, e.first_child)
    &&& within(l, e.last_child)
    &&& (e.next_sibling matches Some(m) ==> l[m.0 as int].previous_sibling == Some(n) && l[m.0 as int].parent
        == e.parent)
    &&& (e.previous_sibling matches Some(m) ==> l[m.0 as int].next_sibling == Some(n) && l[m.0 as int].parent
        == e.parent)
    &&& (e.parent matches Some(p) ==> (e.previous_sibling is None ==> l[p.0 as int].first_child == Some(n)) && (
    e.next_sibling is None ==> l[p.0 as int].last_child == Some(n)))
    &&& (e.first_child matches Some(c) ==> l[c.0 as int].parent == Some(n) && l[c.0 as int].previous_sibling is None)
    &&& (e.last_child matches Some(c) ==> l[c.0 as int].parent == Some(n) && l[c.0 as int].next_sibling is None)
    &&& (e.first_child is None <==> e.last_child is None)
}

/// Every node's links agree with its neighbours', and no chain of siblings
/// runs in a ring, in either direction.
pub open spec fn well_linked(l: Seq<Links>) -> bool {
    &&& forall|n: NodeId| n.0 < l.len() ==> #[trigger] node_ok(l, n)
    &&& all_terminate(nexts(l))
    &&& all_terminate(prevs(l))
}

/// No node is its own ancestor.
pub open spec fn acyclic(l: Seq<Links>) -> bool {
    all_terminate(parents(l))
}

/// `n` has neither parent nor siblings.
pub open spec fn loose(l: Seq<Links>, n: NodeId) -> bool {
    &&& n.0 < l.len()
    &&& l[n.0 as int].parent is None
    &&& l[n.0 as int].previous_sibling is None
    &&& l[n.0 as int].next_sibling is None
}

/// The ancestors of `n`, nearest first.
pub open spec fn ancestors_of(l: Seq<Links>, n: NodeId) -> Seq<NodeId> {
    path_from(parents(l), l[n.0 as int].parent)
}

/// The children of `n`, front to back.
pub open spec fn children_of(l: Seq<Links>, n: NodeId) -> Seq<NodeId> {
    path_from(nexts(l), l[n.0 as int].first_child)
}

/// The siblings behind `n`, nearest first.
pub open spec fn following_of(l: Seq<Links>, n: NodeId) -> Seq<NodeId> {
    path_from(nexts(l), l[n.0 as int].next_sibling)
}

/// The siblings in front of `n`, nearest first.
pub open spec fn preceding_of(l: Seq<Links>, n: NodeId) -> Seq<NodeId> {
    path_from(prevs(l), l[n.0 as int].previous_sibling)
}

/// The same linkage read back to front: previous and next sibling change
/// places, and so do first and last child.
pub open spec fn mirror(l: Seq<Links>) -> Seq<Links> {
    Seq::new(
        l.len(),
        |i: int|
            Links {
                parent: l[i].parent,
                previous_sibling: l[i].next_sibling,
                next_sibling: l[i].previous_sibling,
                first_child: l[i].last_child,
                last_child: l[i].first_child,
            },
    )
}

/// Reading a well-formed linkage back to front gives a well-formed linkage.
pub proof fn lemma_mirror_well_linked(l: Seq<Links>)
    requires
        well_linked(l),
    ensures
        well_linked(mirror(l)),
        mirror(mirror(l)) == l,
        nexts(mirror(l)) == prevs(l),
        prevs(mirror(l)) == nexts(l),
        parents(mirror(l)) == parents(l),
{
    let m = mirror(l);
    assert(mirror(m) =~= l);
    assert(nexts(m) =~= prevs(l));
    assert(prevs(m) =~= nexts(l));
    assert(parents(m) =~= parents(l));
    assert forall|n: NodeId| n.0 < m.len() implies #[trigger] node_ok(m, n) by {
        assert(node_ok(l, n));
    }
}

/// In a well-formed linkage every stored link names a node of the table, and
/// the chain of siblings walked from it comes to an end.
pub proof fn lemma_links_within(l: Seq<Links>, n: NodeId)
    requires
        well_linked(l),
        n.0 < l.len(),
    ensures
        within(l, l[n.0 as int].parent),
        within(l, l[n.0 as int].previous_sibling),
        within(l, l[n.0 as int].next_sibling),
        within(l, l[n.0 as int].first_child),
        within(l, l[n.0 as int].last_child),
        terminates(nexts(l), l[n.0 as int].next_sibling),
        terminates(nexts(l), l[n.0 as int].first_child),
        terminates(prevs(l), l[n.0 as int].previous_sibling),
        terminates(prevs(l), l[n.0 as int].last_child),
{
    assert(node_ok(l, n));
    lemma_opt_terminates(nexts(l), l[n.0 as int].next_sibling);
    lemma_opt_terminates(nexts(l), l[n.0 as int].first_child);
    lemma_opt_terminates(prevs(l), l[n.0 as int].previous_sibling);
    lemma_opt_terminates(prevs(l), l[n.0 as int].last_child);
}

/// In a table without cycles the walk from an optional node of the table ends.
pub proof fn lemma_opt_terminates(succ: Seq<Option<NodeId>>, start: Option<NodeId>)
    requires
        all_terminate(succ),
        start matches Some(n) ==> n.0 < succ.len(),
    ensures
        terminates(succ, start),
        is_path(succ, start, path_from(succ, start)),
{
    match start {
        Some(n) => {
            assert(terminates(succ, Some(n)));
        },
        None => {
            assert(is_path(succ, None, Seq::<NodeId>::empty()));
        },
    }
}

/// No node is its own sibling.
pub proof fn lemma_no_self_sibling(l: Seq<Links>, n: NodeId)
    requires
        well_linked(l),
        n.0 < l.len(),
    ensures
        l[n.0 as int].next_sibling != Some(n),
        l[n.0 as int].previous_sibling != Some(n),
{
    assert(terminates(nexts(l), Some(n)));
    let f = path_from(nexts(l), Some(n));
    lemma_path_distinct(nexts(l), Some(n), f);
    if l[n.0 as int].next_sibling == Some(n) {
        assert(f.len() > 1);
        assert(nexts(l)[f[0].0 as int] == Some(f[1]));
    }
    assert(node_ok(l, n));
}

/// Every node of a sibling chain has the parent of the node the chain is walked from.
pub proof fn lemma_chain_parent(l: Seq<Links>, start: NodeId, chain: Seq<NodeId>, i: int)
    requires
        well_linked(l),
        is_path(nexts(l), Some(start), chain) || is_path(prevs(l), Some(start), chain),
        0 <= i < chain.len(),
    ensures
        l[chain[i].0 as int].parent == l[start.0 as int].parent,
    decreases i,
{
    if i > 0 {
        lemma_chain_parent(l, start, chain, i - 1);
        assert(node_ok(l, chain[i - 1]));
        if is_path(nexts(l), Some(start), chain) {
            assert(nexts(l)[chain[i - 1].0 as int] == Some(chain[i]));
        } else {
            assert(prevs(l)[chain[i - 1].0 as int] == Some(chain[i]));
        }
    }
}

/// The children of `p` are exactly the nodes whose parent is `p`, and the
/// last of them is the last child that `p` records.
pub proof fn lemma_children_parent(l: Seq<Links>, p: NodeId)
    requires
        well_linked(l),
        p.0 < l.len(),
    ensures
        is_path(nexts(l), l[p.0 as int].first_child, children_of(l, p)),
        forall|i: int| 0 <= i < children_of(l, p).len() ==>
            l[(#[trigger] children_of(l, p)[i]).0 as int].parent == Some(p),
        match l[p.0 as int].last_child {
            Some(z) => children_of(l, p).len() > 0 && children_of(l, p).last() == z,
            None => children_of(l, p).len() == 0,
        },
{
    lemma_links_within(l, p);
    assert(node_ok(l, p));
    let ch = children_of(l, p);
    match l[p.0 as int].first_child {
        Some(c) => {
            assert forall|i: int| 0 <= i < ch.len() implies l[(#[trigger] ch[i]).0 as int].parent == Some(p) by {
                lemma_chain_parent(l, c, ch, i);
            }
            let e = ch.last();
            assert(node_ok(l, e));
            assert(nexts(l)[e.0 as int] is None);
        },
        None => {},
    }
}

/// The children of `p` are all the nodes whose parent is `p`, and no others.
pub proof fn lemma_children_complete(l: Seq<Links>, p: NodeId, c: NodeId)
    requires
        well_linked(l),
        p.0 < l.len(),
        c.0 < l.len(),
    ensures
        children_of(l, p).contains(c) <==> l[c.0 as int].parent == Some(p),
{
    lemma_children_parent(l, p);
    let ch = children_of(l, p);
    if ch.contains(c) {
        let k = ch.index_of(c);
        assert(l[ch[k].0 as int].parent == Some(p));
    }
    if l[c.0 as int].parent == Some(p) {
        assert(terminates(prevs(l), Some(c)));
        assert(terminates(nexts(l), Some(c)));
        let back = path_from(prevs(l), Some(c));
        let fwd = path_from(nexts(l), Some(c));
        let m = back.len() as int;
        let head = back[m - 1];
        lemma_chain_parent(l, c, back, m - 1);
        assert(node_ok(l, head));
        assert(prevs(l)[head.0 as int] is None);
        assert(l[p.0 as int].first_child == Some(head));
        let whole = Seq::new(
            (m + fwd.len() - 1) as nat,
            |i: int|
                if i < m {
                    back[m - 1 - i]
                } else {
                    fwd[i - m + 1]
                },
        );
        assert forall|i: int, j: int| 0 <= i && j == i + 1 && j < whole.len() implies nexts(l)[(
        #[trigger] whole[i]).0 as int] == Some(#[trigger] whole[j]) by {
            if j < m {
                assert(prevs(l)[back[m - 1 - j].0 as int] == Some(back[m - 1 - i]));
                assert(node_ok(l, back[m - 1 - j]));
            } else if i == m - 1 {
                assert(nexts(l)[fwd[0].0 as int] == Some(fwd[1]));
            } else {
                assert(nexts(l)[fwd[i - m + 1].0 as int] == Some(fwd[j - m + 1]));
            }
        }
        assert(whole[whole.len() - 1] == fwd[fwd.len() - 1]);
        assert(is_path(nexts(l), Some(head), whole));
        lemma_path_from(nexts(l), Some(head), whole);
        assert(whole[m - 1] == c);
    }
}

/// Walked from the last child backwards, the children of a node come in
/// reverse.
pub proof fn lemma_children_reverse(l: Seq<Links>, p: NodeId)
    requires
        well_linked(l),
        p.0 < l.len(),
    ensures
        path_from(prevs(l), l[p.0 as int].last_child) == children_of(l, p).reverse(),
{
    lemma_children_parent(l, p);
    assert(node_ok(l, p));
    let ch = children_of(l, p);
    let back = ch.reverse();
    let m = ch.len() as int;
    assert(back.len() == m);
    assert forall|i: int| 0 <= i < m implies #[trigger] back[i] == ch[m - 1 - i] by {}
    assert forall|i: int, j: int| 0 <= i && j == i + 1 && j < back.len() implies prevs(l)[(#[trigger] back[i]).0 as int]
        == Some(#[trigger] back[j]) by {
        assert(nexts(l)[ch[m - 1 - j].0 as int] == Some(ch[m - 1 - i]));
        assert(node_ok(l, ch[m - 1 - j]));
    }
    assert(is_path(prevs(l), l[p.0 as int].last_child, back));
    lemma_path_from(prevs(l), l[p.0 as int].last_child, back);
}

/// Read back to front, the siblings behind a node are those in front of it,
/// and the children of a node come in reverse.
pub proof fn lemma_mirror_walks(l: Seq<Links>, q: NodeId)
    requires
        well_linked(l),
        q.0 < l.len(),
    ensures
        following_of(mirror(l), q) == preceding_of(l, q),
        preceding_of(mirror(l), q) == following_of(l, q),
        children_of(mirror(l), q) == children_of(l, q).reverse(),
{
    lemma_mirror_well_linked(l);
    lemma_children_reverse(l, q);
}

/// A table that grows by a blank node stays well formed, gains no cycle, and
/// keeps every walk it had.
pub proof fn lemma_push_blank(l: Seq<Links>)
    requires
        well_linked(l),
    ensures
        well_linked(l.push(blank())),
        acyclic(l) ==> acyclic(l.push(blank())),
        forall|n: NodeId| n.0 < l.len() ==> #[trigger] children_of(l.push(blank()), n) == children_of(l, n),
        forall|n: NodeId| n.0 < l.len() ==> #[trigger] following_of(l.push(blank()), n) == following_of(l, n),
        forall|n: NodeId| n.0 < l.len() ==> #[trigger] preceding_of(l.push(blank()), n) == preceding_of(l, n),
        forall|n: NodeId|
            acyclic(l) && n.0 < l.len() ==> #[trigger] ancestors_of(l.push(blank()), n) == ancestors_of(l, n),
{
    let l2 = l.push(blank());
    assert(nexts(l2) =~= nexts(l).push(None));
    assert(prevs(l2) =~= prevs(l).push(None));
    assert(parents(l2) =~= parents(l).push(None));
    assert forall|n: NodeId| n.0 < l2.len() implies #[trigger] node_ok(l2, n) by {
        if n.0 < l.len() {
            assert(node_ok(l, n));
        }
    }
    lemma_grow_terminates(nexts(l));
    lemma_grow_terminates(prevs(l));
    if acyclic(l) {
        lemma_grow_terminates(parents(l));
    }
    assert forall|n: NodeId| n.0 < l.len() implies #[trigger] children_of(l2, n) == children_of(l, n) by {
        lemma_links_within(l, n);
        lemma_grow_path(nexts(l), l[n.0 as int].first_child);
    }
    assert forall|n: NodeId| n.0 < l.len() implies #[trigger] following_of(l2, n) == following_of(l, n) by {
        lemma_links_within(l, n);
        lemma_grow_path(nexts(l), l[n.0 as int].next_sibling);
    }
    assert forall|n: NodeId| n.0 < l.len() implies #[trigger] preceding_of(l2, n) == preceding_of(l, n) by {
        lemma_links_within(l, n);
        lemma_grow_path(prevs(l), l[n.0 as int].previous_sibling);
    }
    assert forall|n: NodeId| acyclic(l) && n.0 < l.len() implies
        #[trigger] ancestors_of(l2, n) == ancestors_of(l, n) by {
        assert(node_ok(l, n));
        lemma_opt_terminates(parents(l), l[n.0 as int].parent);
        lemma_grow_path(parents(l), l[n.0 as int].parent);
    }
}

/// A terminating walk is the same walk in the table grown by one node that leads nowhere.
proof fn lemma_grow_path(succ: Seq<Option<NodeId>>, start: Option<NodeId>)
    requires
        terminates(succ, start),
    ensures
        path_from(succ.push(None), start) == path_from(succ, start),
{
    lemma_path_grow(succ, start, path_from(succ, start));
    lemma_path_from(succ.push(None), start, path_from(succ, start));
}

/// A table without cycles has none after it grows by a node that leads nowhere.
proof fn lemma_grow_terminates(succ: Seq<Option<NodeId>>)
    requires
        all_terminate(succ),
    ensures
        all_terminate(succ.push(None)),
{
    let succ2 = succ.push(None);
    assert forall|n: NodeId| n.0 < succ2.len() implies #[trigger] terminates(succ2, Some(n)) by {
        if n.0 < succ.len() {
            assert(terminates(succ, Some(n)));
            lemma_path_grow(succ, Some(n), path_from(succ, Some(n)));
        } else {
            assert(is_path(succ2, Some(n), seq![n]));
        }
    }
}

} // verus!
