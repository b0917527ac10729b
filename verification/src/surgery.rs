//! The five structural operations as rewritings of the link table, and the
//! proof that each keeps the table well formed.

use crate::links::{
    acyclic, is_id, lemma_mirror_well_linked, lemma_no_self_sibling, loose, mirror, nexts, node_ok, parents, prevs,
    well_linked, Links,
};
use crate::nodeid::NodeId;
use crate::path::isolated;
use crate::rewire::{
    differs_at, lemma_cut_terminates, lemma_link_after_terminates, lemma_link_front_terminates,
    lemma_unlink_terminates, linked_after, linked_front, unlinked,
};
use vstd::prelude::*;

verus! {

/// The table after `x` has left its parent and its siblings: `x` keeps its
/// children and loses its other three links; the neighbours on either side
/// are joined, and where `x` was at an end of the chain the parent's first or
/// last child moves on to the neighbour.
pub open spec fn detach_links(l: Seq<Links>, x: NodeId) -> Seq<Links> {
    let gone = l[x.0 as int];
    Seq::new(
        l.len(),
        |i: int|
            Links {
                parent: if i == x.0 {
                    None
                } else {
                    l[i].parent
                },
                previous_sibling: if i == x.0 {
                    None
                } else if is_id(gone.next_sibling, i) {
                    gone.previous_sibling
                } else {
                    l[i].previous_sibling
                },
                next_sibling: if i == x.0 {
                    None
                } else if is_id(gone.previous_sibling, i) {
                    gone.next_sibling
                } else {
                    l[i].next_sibling
                },
                first_child: if is_id(gone.parent, i) && gone.previous_sibling is None {
                    gone.next_sibling
                } else {
                    l[i].first_child
                },
                last_child: if is_id(gone.parent, i) && gone.next_sibling is None {
                    gone.previous_sibling
                } else {
                    l[i].last_child
                },
            },
    )
}

/// The table after the loose node `c` has become the last child of `p`.
pub open spec fn attach_last(l: Seq<Links>, p: NodeId, c: NodeId) -> Seq<Links> {
    let old_last = l[p.0 as int].last_child;
    Seq::new(
        l.len(),
        |i: int|
            Links {
                parent: if i == c.0 {
                    Some(p)
                } else {
                    l[i].parent
                },
                previous_sibling: if i == c.0 {
                    old_last
                } else {
                    l[i].previous_sibling
                },
                next_sibling: if is_id(old_last, i) {
                    Some(c)
                } else {
                    l[i].next_sibling
                },
                first_child: if i == p.0 && old_last is None {
                    Some(c)
                } else {
                    l[i].first_child
                },
                last_child: if i == p.0 {
                    Some(c)
                } else {
                    l[i].last_child
                },
            },
    )
}

/// The table after the loose node `c` has become the first child of `p`.
pub open spec fn attach_first(l: Seq<Links>, p: NodeId, c: NodeId) -> Seq<Links> {
    let old_first = l[p.0 as int].first_child;
    Seq::new(
        l.len(),
        |i: int|
            Links {
                parent: if i == c.0 {
                    Some(p)
                } else {
                    l[i].parent
                },
                previous_sibling: if is_id(old_first, i) {
                    Some(c)
                } else {
                    l[i].previous_sibling
                },
                next_sibling: if i == c.0 {
                    old_first
                } else {
                    l[i].next_sibling
                },
                first_child: if i == p.0 {
                    Some(c)
                } else {
                    l[i].first_child
                },
                last_child: if i == p.0 && old_first is None {
                    Some(c)
                } else {
                    l[i].last_child
                },
            },
    )
}

/// The table after the loose node `n` has been put directly behind `s`,
/// under the parent of `s`.
pub open spec fn link_after(l: Seq<Links>, s: NodeId, n: NodeId) -> Seq<Links> {
    let at = l[s.0 as int];
    Seq::new(
        l.len(),
        |i: int|
            Links {
                parent: if i == n.0 {
                    at.parent
                } else {
                    l[i].parent
                },
                previous_sibling: if i == n.0 {
                    Some(s)
                } else if is_id(at.next_sibling, i) {
                    Some(n)
                } else {
                    l[i].previous_sibling
                },
                next_sibling: if i == n.0 {
                    at.next_sibling
                } else if i == s.0 {
                    Some(n)
                } else {
                    l[i].next_sibling
                },
                first_child: l[i].first_child,
                last_child: if is_id(at.parent, i) && at.next_sibling is None {
                    Some(n)
                } else {
                    l[i].last_child
                },
            },
    )
}

/// The table after the loose node `n` has been put directly in front of `s`,
/// under the parent of `s`.
pub open spec fn link_before(l: Seq<Links>, s: NodeId, n: NodeId) -> Seq<Links> {
    let at = l[s.0 as int];
    Seq::new(
        l.len(),
        |i: int|
            Links {
                parent: if i == n.0 {
                    at.parent
                } else {
                    l[i].parent
                },
                previous_sibling: if i == n.0 {
                    at.previous_sibling
                } else if i == s.0 {
                    Some(n)
                } else {
                    l[i].previous_sibling
                },
                next_sibling: if i == n.0 {
                    Some(s)
                } else if is_id(at.previous_sibling, i) {
                    Some(n)
                } else {
                    l[i].next_sibling
                },
                first_child: if is_id(at.parent, i) && at.previous_sibling is None {
                    Some(n)
                } else {
                    l[i].first_child
                },
                last_child: l[i].last_child,
            },
    )
}

/// The table after `c` has been moved to the end of the children of `p`.
pub open spec fn append_links(l: Seq<Links>, p: NodeId, c: NodeId) -> Seq<Links> {
    attach_last(detach_links(l, c), p, c)
}

/// The table after `c` has been moved to the front of the children of `p`.
pub open spec fn prepend_links(l: Seq<Links>, p: NodeId, c: NodeId) -> Seq<Links> {
    attach_first(detach_links(l, c), p, c)
}

/// The table after `n` has been moved directly behind `s`.
pub open spec fn insert_after_links(l: Seq<Links>, s: NodeId, n: NodeId) -> Seq<Links> {
    link_after(detach_links(l, n), s, n)
}

/// The table after `n` has been moved directly in front of `s`.
pub open spec fn insert_before_links(l: Seq<Links>, s: NodeId, n: NodeId) -> Seq<Links> {
    link_before(detach_links(l, n), s, n)
}

/// In a well-formed table a loose node is in no chain of siblings.
pub proof fn lemma_loose_isolated(l: Seq<Links>, c: NodeId)
    requires
        well_linked(l),
        loose(l, c),
    ensures
        isolated(nexts(l), c),
        isolated(prevs(l), c),
{
    assert forall|m: NodeId| m.0 < nexts(l).len() implies #[trigger] nexts(l)[m.0 as int] != Some(c) by {
        assert(node_ok(l, m));
    }
    assert forall|m: NodeId| m.0 < prevs(l).len() implies #[trigger] prevs(l)[m.0 as int] != Some(c) by {
        assert(node_ok(l, m));
    }
}

/// Detaching keeps the table well formed and leaves the node loose.
pub proof fn lemma_detach_well_linked(l: Seq<Links>, x: NodeId)
    requires
        well_linked(l),
        x.0 < l.len(),
    ensures
        well_linked(detach_links(l, x)),
        loose(detach_links(l, x), x),
        unlinked(nexts(l), nexts(detach_links(l, x)), x),
        unlinked(prevs(l), prevs(detach_links(l, x)), x),
        differs_at(parents(l), parents(detach_links(l, x)), x),
        parents(detach_links(l, x))[x.0 as int] is None,
{
    let l2 = detach_links(l, x);
    let gone = l[x.0 as int];
    assert(node_ok(l, x));
    lemma_no_self_sibling(l, x);
    assert forall|m: NodeId| m.0 < l.len() && m != x implies
        #[trigger] nexts(l2)[m.0 as int] == (if nexts(l)[m.0 as int]
        == Some(x) {
        nexts(l)[x.0 as int]
    } else {
        nexts(l)[m.0 as int]
    }) by {
        assert(node_ok(l, m));
    }
    assert forall|m: NodeId| m.0 < l.len() && m != x implies
        #[trigger] prevs(l2)[m.0 as int] == (if prevs(l)[m.0 as int]
        == Some(x) {
        prevs(l)[x.0 as int]
    } else {
        prevs(l)[m.0 as int]
    }) by {
        assert(node_ok(l, m));
    }
    lemma_unlink_terminates(nexts(l), nexts(l2), x);
    lemma_unlink_terminates(prevs(l), prevs(l2), x);
    assert forall|n: NodeId| n.0 < l2.len() implies #[trigger] node_ok(l2, n) by {
        lemma_detach_node_ok(l, x, n);
    }
}

/// Detaching leaves the links of each node in agreement with its neighbours'.
proof fn lemma_detach_node_ok(l: Seq<Links>, x: NodeId, n: NodeId)
    requires
        well_linked(l),
        x.0 < l.len(),
        n.0 < l.len(),
    ensures
        node_ok(detach_links(l, x), n),
{
    let l2 = detach_links(l, x);
    let gone = l[x.0 as int];
    let e = l[n.0 as int];
    assert(node_ok(l, x));
    assert(node_ok(l, n));
    lemma_no_self_sibling(l, x);
    lemma_no_self_sibling(l, n);
    if let Some(m) = gone.parent {
        assert(node_ok(l, m));
    }
    if let Some(m) = gone.previous_sibling {
        assert(node_ok(l, m));
    }
    if let Some(m) = gone.next_sibling {
        assert(node_ok(l, m));
    }
    if let Some(m) = e.parent {
        assert(node_ok(l, m));
    }
    if let Some(m) = e.previous_sibling {
        assert(node_ok(l, m));
    }
    if let Some(m) = e.next_sibling {
        assert(node_ok(l, m));
    }
    if let Some(m) = e.first_child {
        assert(node_ok(l, m));
    }
    if let Some(m) = e.last_child {
        assert(node_ok(l, m));
    }
}

/// Detaching creates no cycle of ancestors.
pub proof fn lemma_detach_acyclic(l: Seq<Links>, x: NodeId)
    requires
        acyclic(l),
        x.0 < l.len(),
    ensures
        acyclic(detach_links(l, x)),
{
    lemma_cut_terminates(parents(l), parents(detach_links(l, x)), x);
}

/// Making a loose node the last child of another keeps the table well formed.
pub proof fn lemma_attach_last_well_linked(l: Seq<Links>, p: NodeId, c: NodeId)
    requires
        well_linked(l),
        loose(l, c),
        p.0 < l.len(),
        p != c,
    ensures
        well_linked(attach_last(l, p, c)),
        match l[p.0 as int].last_child {
            Some(z) => linked_after(nexts(l), nexts(attach_last(l, p, c)), z, c),
            None => nexts(attach_last(l, p, c)) == nexts(l),
        },
        linked_front(prevs(l), prevs(attach_last(l, p, c)), c, l[p.0 as int].last_child),
{
    let l2 = attach_last(l, p, c);
    let old_last = l[p.0 as int].last_child;
    lemma_loose_isolated(l, c);
    assert(node_ok(l, p));
    assert(node_ok(l, c));
    match old_last {
        Some(z) => {
            assert(node_ok(l, z));
            assert(linked_after(nexts(l), nexts(l2), z, c));
            lemma_link_after_terminates(nexts(l), nexts(l2), z, c);
        },
        None => {
            assert(nexts(l2) =~= nexts(l));
        },
    }
    assert(linked_front(prevs(l), prevs(l2), c, old_last));
    lemma_link_front_terminates(prevs(l), prevs(l2), c, old_last);
    assert forall|n: NodeId| n.0 < l2.len() implies #[trigger] node_ok(l2, n) by {
        lemma_attach_last_node_ok(l, p, c, n);
    }
}

/// Attaching a last child leaves the links of each node in agreement with its neighbours'.
proof fn lemma_attach_last_node_ok(l: Seq<Links>, p: NodeId, c: NodeId, n: NodeId)
    requires
        well_linked(l),
        loose(l, c),
        p.0 < l.len(),
        p != c,
        n.0 < l.len(),
    ensures
        node_ok(attach_last(l, p, c), n),
{
    let e = l[n.0 as int];
    assert(node_ok(l, p));
    assert(node_ok(l, c));
    assert(node_ok(l, n));
    if let Some(m) = l[p.0 as int].last_child {
        assert(node_ok(l, m));
    }
    if let Some(m) = l[p.0 as int].first_child {
        assert(node_ok(l, m));
    }
    if let Some(m) = e.parent {
        assert(node_ok(l, m));
    }
    if let Some(m) = e.previous_sibling {
        assert(node_ok(l, m));
    }
    if let Some(m) = e.next_sibling {
        assert(node_ok(l, m));
    }
    if let Some(m) = e.first_child {
        assert(node_ok(l, m));
    }
    if let Some(m) = e.last_child {
        assert(node_ok(l, m));
    }
}

/// Putting a loose node behind another keeps the table well formed.
pub proof fn lemma_link_after_well_linked(l: Seq<Links>, s: NodeId, n: NodeId)
    requires
        well_linked(l),
        loose(l, n),
        s.0 < l.len(),
        s != n,
    ensures
        well_linked(link_after(l, s, n)),
        linked_after(nexts(l), nexts(link_after(l, s, n)), s, n),
        match l[s.0 as int].next_sibling {
            Some(z) => linked_after(prevs(l), prevs(link_after(l, s, n)), z, n),
            None => linked_front(prevs(l), prevs(link_after(l, s, n)), n, Some(s)),
        },
{
    let l2 = link_after(l, s, n);
    lemma_loose_isolated(l, n);
    assert(node_ok(l, s));
    assert(node_ok(l, n));
    lemma_no_self_sibling(l, s);
    assert(linked_after(nexts(l), nexts(l2), s, n));
    lemma_link_after_terminates(nexts(l), nexts(l2), s, n);
    match l[s.0 as int].next_sibling {
        Some(z) => {
            assert(node_ok(l, z));
            assert(linked_after(prevs(l), prevs(l2), z, n));
            lemma_link_after_terminates(prevs(l), prevs(l2), z, n);
        },
        None => {
            assert(linked_front(prevs(l), prevs(l2), n, Some(s)));
            lemma_link_front_terminates(prevs(l), prevs(l2), n, Some(s));
        },
    }
    assert forall|m: NodeId| m.0 < l2.len() implies #[trigger] node_ok(l2, m) by {
        lemma_link_after_node_ok(l, s, n, m);
    }
}

/// Linking a node behind another leaves the links of each node in agreement with its neighbours'.
proof fn lemma_link_after_node_ok(l: Seq<Links>, s: NodeId, n: NodeId, m: NodeId)
    requires
        well_linked(l),
        loose(l, n),
        s.0 < l.len(),
        s != n,
        m.0 < l.len(),
    ensures
        node_ok(link_after(l, s, n), m),
{
    let e = l[m.0 as int];
    let at = l[s.0 as int];
    assert(node_ok(l, s));
    assert(node_ok(l, n));
    assert(node_ok(l, m));
    lemma_no_self_sibling(l, s);
    if let Some(k) = at.parent {
        assert(node_ok(l, k));
    }
    if let Some(k) = at.next_sibling {
        assert(node_ok(l, k));
    }
    if let Some(k) = e.parent {
        assert(node_ok(l, k));
    }
    if let Some(k) = e.previous_sibling {
        assert(node_ok(l, k));
    }
    if let Some(k) = e.next_sibling {
        assert(node_ok(l, k));
    }
    if let Some(k) = e.first_child {
        assert(node_ok(l, k));
    }
    if let Some(k) = e.last_child {
        assert(node_ok(l, k));
    }
}

/// Attaching in front is attaching behind, read back to front.
pub proof fn lemma_attach_first_mirror(l: Seq<Links>, p: NodeId, c: NodeId)
    requires
        p.0 < l.len(),
    ensures
        attach_first(l, p, c) == mirror(attach_last(mirror(l), p, c)),
{
    assert(attach_first(l, p, c) =~= mirror(attach_last(mirror(l), p, c)));
}

/// Linking in front is linking behind, read back to front.
pub proof fn lemma_link_before_mirror(l: Seq<Links>, s: NodeId, n: NodeId)
    requires
        s.0 < l.len(),
    ensures
        link_before(l, s, n) == mirror(link_after(mirror(l), s, n)),
{
    assert(link_before(l, s, n) =~= mirror(link_after(mirror(l), s, n)));
}

/// Making a loose node the first child of another keeps the table well formed.
pub proof fn lemma_attach_first_well_linked(l: Seq<Links>, p: NodeId, c: NodeId)
    requires
        well_linked(l),
        loose(l, c),
        p.0 < l.len(),
        p != c,
    ensures
        well_linked(attach_first(l, p, c)),
        linked_front(nexts(l), nexts(attach_first(l, p, c)), c, l[p.0 as int].first_child),
{
    lemma_mirror_well_linked(l);
    lemma_attach_last_well_linked(mirror(l), p, c);
    lemma_attach_first_mirror(l, p, c);
    lemma_mirror_well_linked(attach_last(mirror(l), p, c));
}

/// Putting a loose node in front of another keeps the table well formed.
pub proof fn lemma_link_before_well_linked(l: Seq<Links>, s: NodeId, n: NodeId)
    requires
        well_linked(l),
        loose(l, n),
        s.0 < l.len(),
        s != n,
    ensures
        well_linked(link_before(l, s, n)),
        linked_after(prevs(l), prevs(link_before(l, s, n)), s, n),
        match l[s.0 as int].previous_sibling {
            Some(z) => linked_after(nexts(l), nexts(link_before(l, s, n)), z, n),
            None => linked_front(nexts(l), nexts(link_before(l, s, n)), n, Some(s)),
        },
{
    lemma_mirror_well_linked(l);
    lemma_link_after_well_linked(mirror(l), s, n);
    lemma_link_before_mirror(l, s, n);
    lemma_mirror_well_linked(link_after(mirror(l), s, n));
}

} // verus!
