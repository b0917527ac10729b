//! What each structural operation does to the walks of the tree: to the
//! children of every node, to the siblings on either side, and to the
//! ancestors.

use crate::links::{
    acyclic, ancestors_of, children_of, following_of, lemma_chain_parent, lemma_children_complete,
    lemma_children_parent, lemma_children_reverse, lemma_links_within, lemma_mirror_walks, lemma_mirror_well_linked,
    lemma_no_self_sibling, lemma_opt_terminates, loose, mirror, nexts, node_ok, parents, preceding_of, prevs,
    well_linked, within, Links,
};
use crate::nodeid::NodeId;
use crate::path::{
    inserted_after, inserted_before, is_path, lemma_path_cons, lemma_path_distinct, lemma_path_frame, lemma_path_from,
    lemma_path_none, lemma_path_prefix, lemma_path_step, path_from, terminates, upto, without,
};
use crate::rewire::{
    differs_at, lemma_cut_path, lemma_cut_terminates, lemma_extend_path, lemma_extend_terminates,
    lemma_link_after_from, lemma_link_after_from_new, lemma_link_front_from, lemma_unlink_from,
};
use crate::surgery::{
    append_links, attach_first, attach_last, detach_links, insert_after_links, insert_before_links, prepend_links,
    lemma_attach_first_mirror, lemma_attach_first_well_linked, lemma_attach_last_well_linked,
    lemma_detach_well_linked, lemma_link_after_well_linked, lemma_link_before_mirror, lemma_link_before_well_linked,
    lemma_loose_isolated, link_after, link_before,
};
use vstd::prelude::*;

verus! {

/// Detaching `x` takes it out of the children of every node.
pub proof fn lemma_detach_children(l: Seq<Links>, x: NodeId, q: NodeId)
    requires
        well_linked(l),
        x.0 < l.len(),
        q.0 < l.len(),
    ensures
        children_of(detach_links(l, x), q) == without(children_of(l, q), x),
{
    lemma_detach_well_linked(l, x);
    lemma_links_within(l, q);
    assert(node_ok(l, q));
    assert(node_ok(l, x));
    lemma_unlink_from(nexts(l), nexts(detach_links(l, x)), x, l[q.0 as int].first_child);
}

/// Detaching `x` takes it out of the siblings on either side of every other
/// node, and leaves `x` itself without siblings.
pub proof fn lemma_detach_siblings(l: Seq<Links>, x: NodeId, q: NodeId)
    requires
        well_linked(l),
        x.0 < l.len(),
        q.0 < l.len(),
    ensures
        following_of(detach_links(l, x), q) == (if q == x {
            Seq::empty()
        } else {
            without(following_of(l, q), x)
        }),
        preceding_of(detach_links(l, x), q) == (if q == x {
            Seq::empty()
        } else {
            without(preceding_of(l, q), x)
        }),
{
    let l2 = detach_links(l, x);
    lemma_detach_well_linked(l, x);
    lemma_links_within(l, q);
    assert(node_ok(l, q));
    assert(node_ok(l, x));
    if q == x {
        lemma_path_none(nexts(l2));
        lemma_path_none(prevs(l2));
    } else {
        lemma_unlink_from(nexts(l), nexts(l2), x, l[q.0 as int].next_sibling);
        lemma_unlink_from(prevs(l), prevs(l2), x, l[q.0 as int].previous_sibling);
    }
}

/// Detaching `x` leaves it without ancestors, and cuts the ancestors of
/// every other node off behind `x`.
pub proof fn lemma_detach_ancestors(l: Seq<Links>, x: NodeId, q: NodeId)
    requires
        well_linked(l),
        acyclic(l),
        x.0 < l.len(),
        q.0 < l.len(),
    ensures
        ancestors_of(detach_links(l, x), q) == (if q == x {
            Seq::empty()
        } else {
            upto(ancestors_of(l, q), x)
        }),
{
    let l2 = detach_links(l, x);
    lemma_detach_well_linked(l, x);
    assert(node_ok(l, q));
    if q == x {
        lemma_path_none(parents(l2));
    } else {
        lemma_opt_terminates(parents(l), l[q.0 as int].parent);
        lemma_cut_path(parents(l), parents(l2), x, l[q.0 as int].parent, ancestors_of(l, q));
        lemma_path_from(parents(l2), l[q.0 as int].parent, upto(ancestors_of(l, q), x));
    }
}

/// Attaching a loose node as last child puts it at the end of the children
/// of its new parent and leaves the children of every other node.
pub proof fn lemma_attach_last_children(l: Seq<Links>, p: NodeId, c: NodeId, q: NodeId)
    requires
        well_linked(l),
        loose(l, c),
        p.0 < l.len(),
        p != c,
        q.0 < l.len(),
    ensures
        children_of(attach_last(l, p, c), q) == (if q == p {
            children_of(l, q).push(c)
        } else {
            children_of(l, q)
        }),
{
    let l2 = attach_last(l, p, c);
    lemma_attach_last_well_linked(l, p, c);
    lemma_links_within(l, q);
    lemma_links_within(l, p);
    lemma_loose_isolated(l, c);
    assert(node_ok(l, q));
    assert(node_ok(l, p));
    assert(node_ok(l, c));
    let ch = children_of(l, q);
    lemma_children_parent(l, q);
    lemma_children_parent(l, p);
    lemma_path_distinct(nexts(l), l[q.0 as int].first_child, ch);
    match l[p.0 as int].last_child {
        Some(z) => {
            assert(node_ok(l, z));
            lemma_link_after_from(nexts(l), nexts(l2), z, c, l[q.0 as int].first_child);
            if q == p {
                assert(ch[ch.len() - 1] == z);
                assert(ch.contains(z));
                assert(ch.index_of(z) == ch.len() - 1);
                assert(ch.insert(ch.len() as int, c) =~= ch.push(c));
            } else {
                if ch.contains(z) {
                    let k = ch.index_of(z);
                    assert(l[ch[k].0 as int].parent == Some(q));
                }
            }
        },
        None => {
            if q == p {
                assert(is_path(nexts(l2), Some(c), seq![c]));
                lemma_path_from(nexts(l2), Some(c), seq![c]);
                assert(ch.push(c) =~= seq![c]);
            }
        },
    }
}

/// Attaching a loose node as first child puts it at the front of the
/// children of its new parent and leaves the children of every other node.
pub proof fn lemma_attach_first_children(l: Seq<Links>, p: NodeId, c: NodeId, q: NodeId)
    requires
        well_linked(l),
        loose(l, c),
        p.0 < l.len(),
        p != c,
        q.0 < l.len(),
    ensures
        children_of(attach_first(l, p, c), q) == (if q == p {
            seq![c] + children_of(l, q)
        } else {
            children_of(l, q)
        }),
{
    let l2 = attach_first(l, p, c);
    lemma_attach_first_well_linked(l, p, c);
    lemma_links_within(l, q);
    lemma_links_within(l, p);
    assert(node_ok(l, q));
    assert(node_ok(l, p));
    assert(node_ok(l, c));
    if q == p {
        lemma_path_none(nexts(l));
        lemma_link_front_from(nexts(l), nexts(l2), c, l[p.0 as int].first_child, None);
    } else {
        lemma_link_front_from(nexts(l), nexts(l2), c, l[p.0 as int].first_child, l[q.0 as int].first_child);
    }
}

/// Linking a loose node behind `s` puts it behind `s` among the children of
/// every node.
pub proof fn lemma_link_after_children(l: Seq<Links>, s: NodeId, n: NodeId, q: NodeId)
    requires
        well_linked(l),
        loose(l, n),
        s.0 < l.len(),
        s != n,
        q.0 < l.len(),
    ensures
        children_of(link_after(l, s, n), q) == inserted_after(children_of(l, q), s, n),
{
    let l2 = link_after(l, s, n);
    lemma_link_after_well_linked(l, s, n);
    lemma_links_within(l, q);
    assert(node_ok(l, q));
    assert(node_ok(l, n));
    lemma_link_after_from(nexts(l), nexts(l2), s, n, l[q.0 as int].first_child);
}

/// Linking a loose node `n` behind `s` puts `n` behind `s` in the siblings
/// behind every node and in front of `s` in the siblings in front of every
/// node; `n` itself gets `s` and what was in front of it in front, and what
/// was behind `s` behind.
pub proof fn lemma_link_after_siblings(l: Seq<Links>, s: NodeId, n: NodeId, q: NodeId)
    requires
        well_linked(l),
        loose(l, n),
        s.0 < l.len(),
        s != n,
        q.0 < l.len(),
    ensures
        following_of(link_after(l, s, n), q) == (if q == n {
            following_of(l, s)
        } else if q == s {
            seq![n] + following_of(l, s)
        } else {
            inserted_after(following_of(l, q), s, n)
        }),
        preceding_of(link_after(l, s, n), q) == (if q == n {
            seq![s] + preceding_of(l, s)
        } else if q == s {
            preceding_of(l, s)
        } else {
            inserted_before(preceding_of(l, q), s, n)
        }),
{
    let l2 = link_after(l, s, n);
    lemma_link_after_well_linked(l, s, n);
    lemma_links_within(l, s);
    lemma_links_within(l, q);
    lemma_loose_isolated(l, n);
    assert(node_ok(l, s));
    assert(node_ok(l, n));
    assert(node_ok(l, q));
    lemma_no_self_sibling(l, s);
    lemma_link_after_from_new(nexts(l), nexts(l2), s, n, following_of(l, s));
    if q == n {
        lemma_path_from(nexts(l2), l2[n.0 as int].next_sibling, following_of(l, s));
    } else if q == s {
        lemma_path_cons(nexts(l2), n, following_of(l, s));
        lemma_path_from(nexts(l2), Some(n), seq![n] + following_of(l, s));
    } else {
        lemma_link_after_from(nexts(l), nexts(l2), s, n, l[q.0 as int].next_sibling);
    }
    lemma_link_after_back(l, s, n, s);
    assert(!preceding_of(l, s).contains(s)) by {
        let front = preceding_of(l, s);
        lemma_path_cons(prevs(l), s, front);
        lemma_path_distinct(prevs(l), Some(s), seq![s] + front);
        if front.contains(s) {
            let k = front.index_of(s);
            assert((seq![s] + front)[k + 1] == s);
            assert((seq![s] + front)[0] == s);
        }
    }
    if q == n {
        lemma_links_within(l2, s);
        assert(terminates(prevs(l2), Some(s)));
        lemma_path_step(prevs(l2), s);
    } else {
        lemma_link_after_back(l, s, n, q);
    }
}

/// Linking a loose node `n` behind `s` puts `n` in front of `s` in the
/// siblings in front of every other node.
proof fn lemma_link_after_back(l: Seq<Links>, s: NodeId, n: NodeId, q: NodeId)
    requires
        well_linked(l),
        loose(l, n),
        s.0 < l.len(),
        s != n,
        q.0 < l.len(),
        q != n,
    ensures
        preceding_of(link_after(l, s, n), q) == inserted_before(preceding_of(l, q), s, n),
{
    let l2 = link_after(l, s, n);
    lemma_link_after_well_linked(l, s, n);
    lemma_links_within(l, s);
    lemma_links_within(l, q);
    lemma_loose_isolated(l, n);
    assert(node_ok(l, s));
    assert(node_ok(l, n));
    assert(node_ok(l, q));
    lemma_no_self_sibling(l, s);
    let before = preceding_of(l, q);
    let start = l[q.0 as int].previous_sibling;
    lemma_path_distinct(prevs(l), start, before);
    // wherever `s` stands in the walk, the node that followed `s` stands right in front of it
    if before.contains(s) {
        let j = before.index_of(s);
        assert(before[j] == s);
        if j > 0 {
            assert(prevs(l)[before[j - 1].0 as int] == Some(before[j]));
            assert(node_ok(l, before[j - 1]));
        }
    }
    match l[s.0 as int].next_sibling {
        Some(z) => {
            assert(node_ok(l, z));
            if q == z {
                lemma_link_after_from_new(prevs(l), prevs(l2), z, n, before);
                lemma_path_cons(prevs(l2), n, before);
                lemma_path_from(prevs(l2), Some(n), seq![n] + before);
                assert(before[0] == s);
                assert(before.contains(s));
                assert(before.index_of(s) == 0);
                assert(before.insert(0, n) =~= seq![n] + before);
            } else {
                lemma_link_after_from(prevs(l), prevs(l2), z, n, start);
                if before.contains(z) {
                    let k = before.index_of(z);
                    assert(before[k] == z);
                    assert(prevs(l)[before[k].0 as int] == Some(s));
                    assert(k + 1 < before.len());
                    assert(prevs(l)[before[k].0 as int] == Some(before[k + 1]));
                    assert(before.contains(before[k + 1]));
                    assert(before.index_of(s) == k + 1);
                } else {
                    if before.contains(s) {
                        let j = before.index_of(s);
                        if j > 0 {
                            assert(before.contains(before[j - 1]));
                        }
                    }
                }
            }
        },
        None => {
            lemma_link_front_from(prevs(l), prevs(l2), n, Some(s), start);
        },
    }
}

/// Linking a loose node in front of `s` puts it in front of `s` among the
/// children of every node.
pub proof fn lemma_link_before_children(l: Seq<Links>, s: NodeId, n: NodeId, q: NodeId)
    requires
        well_linked(l),
        loose(l, n),
        s.0 < l.len(),
        s != n,
        q.0 < l.len(),
    ensures
        children_of(link_before(l, s, n), q) == inserted_before(children_of(l, q), s, n),
{
    let l2 = link_before(l, s, n);
    lemma_link_before_well_linked(l, s, n);
    lemma_links_within(l, q);
    lemma_links_within(l, s);
    assert(node_ok(l, q));
    assert(node_ok(l, n));
    assert(node_ok(l, s));
    let ch = children_of(l, q);
    lemma_children_parent(l, q);
    lemma_path_distinct(nexts(l), l[q.0 as int].first_child, ch);
    match l[s.0 as int].previous_sibling {
        Some(z) => {
            assert(node_ok(l, z));
            lemma_link_after_from(nexts(l), nexts(l2), z, n, l[q.0 as int].first_child);
            if ch.contains(s) {
                let k = ch.index_of(s);
                assert(ch[k] == s);
                assert(k > 0);
                assert(nexts(l)[ch[k - 1].0 as int] == Some(ch[k]));
                assert(node_ok(l, ch[k - 1]));
                assert(ch[k - 1] == z);
                assert(ch.contains(z));
                assert(ch.index_of(z) == k - 1);
            } else {
                if ch.contains(z) {
                    let k = ch.index_of(z);
                    assert(ch[k] == z);
                    if k + 1 < ch.len() {
                        assert(nexts(l)[ch[k].0 as int] == Some(ch[k + 1]));
                        assert(ch.contains(ch[k + 1]));
                    }
                }
            }
        },
        None => {
            if l[s.0 as int].parent == Some(q) {
                lemma_path_none(nexts(l));
                lemma_link_front_from(nexts(l), nexts(l2), n, Some(s), None);
                assert(ch[0] == s);
                assert(ch.contains(s));
                assert(ch.index_of(s) == 0);
                assert(ch.insert(0, n) =~= seq![n] + ch);
            } else {
                lemma_link_front_from(nexts(l), nexts(l2), n, Some(s), l[q.0 as int].first_child);
                if ch.contains(s) {
                    let k = ch.index_of(s);
                    assert(l[ch[k].0 as int].parent == Some(q));
                }
            }
        },
    }
}

/// Linking a loose node `n` in front of `s` puts `n` in front of `s` in the
/// siblings in front of every node and behind `s` in the siblings behind
/// every node; `n` itself gets `s` and what was behind it behind, and what
/// was in front of `s` in front.
pub proof fn lemma_link_before_siblings(l: Seq<Links>, s: NodeId, n: NodeId, q: NodeId)
    requires
        well_linked(l),
        loose(l, n),
        s.0 < l.len(),
        s != n,
        q.0 < l.len(),
    ensures
        preceding_of(link_before(l, s, n), q) == (if q == n {
            preceding_of(l, s)
        } else if q == s {
            seq![n] + preceding_of(l, s)
        } else {
            inserted_after(preceding_of(l, q), s, n)
        }),
        following_of(link_before(l, s, n), q) == (if q == n {
            seq![s] + following_of(l, s)
        } else if q == s {
            following_of(l, s)
        } else {
            inserted_before(following_of(l, q), s, n)
        }),
{
    lemma_mirror_well_linked(l);
    lemma_link_before_mirror(l, s, n);
    lemma_link_after_well_linked(mirror(l), s, n);
    lemma_link_after_siblings(mirror(l), s, n, q);
    lemma_mirror_walks(l, q);
    lemma_mirror_walks(l, s);
    lemma_mirror_walks(link_after(mirror(l), s, n), q);
}

/// Attaching a loose node `c` as last child of `p` puts it at the end of the
/// siblings behind every child of `p` and leaves all other siblings; `c`
/// itself gets the children of `p` in front, nearest first, and none behind.
pub proof fn lemma_attach_last_siblings(l: Seq<Links>, p: NodeId, c: NodeId, q: NodeId)
    requires
        well_linked(l),
        loose(l, c),
        p.0 < l.len(),
        p != c,
        q.0 < l.len(),
    ensures
        following_of(attach_last(l, p, c), q) == (if q == c {
            Seq::empty()
        } else if l[q.0 as int].parent == Some(p) {
            following_of(l, q).push(c)
        } else {
            following_of(l, q)
        }),
        preceding_of(attach_last(l, p, c), q) == (if q == c {
            children_of(l, p).reverse()
        } else {
            preceding_of(l, q)
        }),
{
    let l2 = attach_last(l, p, c);
    lemma_attach_last_well_linked(l, p, c);
    lemma_links_within(l, q);
    lemma_links_within(l, p);
    lemma_loose_isolated(l, c);
    assert(node_ok(l, q));
    assert(node_ok(l, p));
    assert(node_ok(l, c));
    let last = l[p.0 as int].last_child;
    lemma_children_reverse(l, p);
    if q == c {
        lemma_path_none(nexts(l2));
        lemma_link_front_from(prevs(l), prevs(l2), c, last, last);
    } else {
        lemma_link_front_from(prevs(l), prevs(l2), c, last, l[q.0 as int].previous_sibling);
        let behind = following_of(l, q);
        assert(terminates(nexts(l), Some(q)));
        lemma_path_step(nexts(l), q);
        let chain = seq![q] + behind;
        lemma_path_distinct(nexts(l), Some(q), chain);
        assert forall|i: int| 0 <= i < behind.len() implies
            l[(#[trigger] behind[i]).0 as int].parent == l[q.0 as int].parent by {
            lemma_chain_parent(l, q, chain, i + 1);
            assert(chain[i + 1] == behind[i]);
        }
        match last {
            Some(z) => {
                assert(node_ok(l, z));
                if q == z {
                    lemma_path_none(nexts(l));
                    lemma_link_after_from_new(nexts(l), nexts(l2), z, c, Seq::empty());
                    lemma_path_from(nexts(l2), Some(c), seq![c] + Seq::<NodeId>::empty());
                    assert(behind.push(c) =~= seq![c] + Seq::<NodeId>::empty());
                } else {
                    lemma_link_after_from(nexts(l), nexts(l2), z, c, l[q.0 as int].next_sibling);
                    if l[q.0 as int].parent == Some(p) {
                        let end = chain[chain.len() - 1];
                        lemma_chain_parent(l, q, chain, chain.len() - 1);
                        assert(node_ok(l, end));
                        assert(nexts(l)[end.0 as int] is None);
                        assert(end == z);
                        assert(behind.len() > 0);
                        assert(behind[behind.len() - 1] == z);
                        assert(behind.contains(z));
                        assert(behind.index_of(z) == behind.len() - 1) by {
                            assert(chain[behind.index_of(z) + 1] == z);
                        }
                        assert(behind.insert(behind.len() as int, c) =~= behind.push(c));
                    } else {
                        if behind.contains(z) {
                            let k = behind.index_of(z);
                            assert(l[behind[k].0 as int].parent == l[q.0 as int].parent);
                        }
                    }
                }
            },
            None => {
                if l[q.0 as int].parent == Some(p) {
                    lemma_children_complete(l, p, q);
                    lemma_children_parent(l, p);
                }
            },
        }
    }
}

/// Attaching a loose node `c` as first child of `p` puts it at the end of
/// the siblings in front of every child of `p` and leaves all other
/// siblings; `c` itself gets the children of `p` behind and none in front.
pub proof fn lemma_attach_first_siblings(l: Seq<Links>, p: NodeId, c: NodeId, q: NodeId)
    requires
        well_linked(l),
        loose(l, c),
        p.0 < l.len(),
        p != c,
        q.0 < l.len(),
    ensures
        preceding_of(attach_first(l, p, c), q) == (if q == c {
            Seq::empty()
        } else if l[q.0 as int].parent == Some(p) {
            preceding_of(l, q).push(c)
        } else {
            preceding_of(l, q)
        }),
        following_of(attach_first(l, p, c), q) == (if q == c {
            children_of(l, p)
        } else {
            following_of(l, q)
        }),
{
    lemma_mirror_well_linked(l);
    lemma_attach_first_mirror(l, p, c);
    lemma_attach_last_well_linked(mirror(l), p, c);
    lemma_attach_last_siblings(mirror(l), p, c, q);
    lemma_mirror_walks(l, q);
    lemma_mirror_walks(l, p);
    lemma_mirror_walks(attach_last(mirror(l), p, c), q);
    assert(children_of(l, p).reverse().reverse() =~= children_of(l, p));
}

/// Where one node `c` changes its parent to `target`: no node becomes its
/// own ancestor exactly if the walk from `target` towards the root did not
/// visit `c`, and then that walk gives the ancestors of `c`.
pub proof fn lemma_reparent(l: Seq<Links>, l2: Seq<Links>, c: NodeId, target: Option<NodeId>)
    requires
        well_linked(l),
        acyclic(l),
        c.0 < l.len(),
        differs_at(parents(l), parents(l2), c),
        l2[c.0 as int].parent == target,
        within(l, target),
    ensures
        acyclic(l2) <==> !path_from(parents(l), target).contains(c),
        acyclic(l2) ==> ancestors_of(l2, c) == path_from(parents(l), target),
{
    let before = parents(l);
    let mid = before.update(c.0 as int, None);
    let after = parents(l2);
    lemma_cut_terminates(before, mid, c);
    lemma_opt_terminates(before, target);
    let tail = path_from(before, target);
    if tail.contains(c) {
        let k = tail.index_of(c);
        assert(tail[k] == c);
        lemma_path_distinct(before, target, tail);
        if acyclic(l2) {
            assert(terminates(after, Some(c)));
            let w = path_from(after, Some(c));
            lemma_path_distinct(after, Some(c), w);
            crate::path::lemma_path_suffix(after, Some(c), w, 1);
            lemma_path_prefix(before, after, target, tail, w.skip(1), k);
            assert(w.skip(1)[k] == w[k + 1]);
            assert(w[0] == c);
        }
    } else {
        match target {
            Some(t) => {
                lemma_cut_path(before, mid, c, Some(t), tail);
                lemma_path_from(mid, Some(t), tail);
                lemma_extend_terminates(mid, after, c, t);
                lemma_extend_path(mid, after, c, t, tail, Some(t), tail);
                lemma_path_from(after, Some(t), tail);
            },
            None => {
                assert forall|n: NodeId| n.0 < after.len() implies #[trigger] terminates(after, Some(n)) by {
                    assert(terminates(mid, Some(n)));
                    lemma_path_frame(mid, after, Some(n), path_from(mid, Some(n)));
                }
                lemma_path_none(after);
            },
        }
    }
}

/// Where one node `c` changes its parent to `target` and the walk from
/// `target` towards the root did not visit `c`: the ancestors of a node above
/// which `c` lay are those up to `c` and then that walk; the ancestors of
/// every other node stay.
pub proof fn lemma_reparent_ancestors(l: Seq<Links>, l2: Seq<Links>, c: NodeId, target: Option<NodeId>, q: NodeId)
    requires
        well_linked(l),
        acyclic(l),
        c.0 < l.len(),
        q.0 < l.len(),
        q != c,
        differs_at(parents(l), parents(l2), c),
        l2[c.0 as int].parent == target,
        within(l, target),
        !path_from(parents(l), target).contains(c),
    ensures
        ancestors_of(l2, q) == (if ancestors_of(l, q).contains(c) {
            upto(ancestors_of(l, q), c) + path_from(parents(l), target)
        } else {
            ancestors_of(l, q)
        }),
{
    let before = parents(l);
    let mid = before.update(c.0 as int, None);
    let after = parents(l2);
    assert(node_ok(l, q));
    let start = l[q.0 as int].parent;
    assert(after[q.0 as int] == before[q.0 as int]);
    assert(l2[q.0 as int].parent == start);
    lemma_opt_terminates(before, start);
    lemma_opt_terminates(before, target);
    let up = ancestors_of(l, q);
    let tail = path_from(before, target);
    lemma_path_distinct(before, start, up);
    lemma_cut_path(before, mid, c, start, up);
    let cut = upto(up, c);
    assert(cut.contains(c) <==> up.contains(c)) by {
        if up.contains(c) {
            let k = up.index_of(c);
            assert(cut[k] == c);
        }
        if cut.contains(c) {
            let k = cut.index_of(c);
            assert(up[k] == c);
        }
    }
    match target {
        Some(t) => {
            lemma_cut_path(before, mid, c, Some(t), tail);
            lemma_extend_path(mid, after, c, t, tail, start, cut);
            lemma_path_from(after, start, if cut.contains(c) {
                cut + tail
            } else {
                cut
            });
        },
        None => {
            lemma_path_frame(mid, after, start, cut);
            lemma_path_from(after, start, cut);
            assert(cut + tail =~= cut);
        },
    }
}

/// Appending `c` to `p` takes `c` out of the children of every node and puts
/// it at the end of the children of `p`.
pub proof fn lemma_append_children(l: Seq<Links>, p: NodeId, c: NodeId, q: NodeId)
    requires
        well_linked(l),
        p.0 < l.len(),
        c.0 < l.len(),
        p != c,
        q.0 < l.len(),
    ensures
        children_of(append_links(l, p, c), q) == (if q == p {
            without(children_of(l, q), c).push(c)
        } else {
            without(children_of(l, q), c)
        }),
{
    lemma_detach_well_linked(l, c);
    lemma_detach_children(l, c, q);
    lemma_attach_last_children(detach_links(l, c), p, c, q);
}

/// Prepending `c` to `p` takes `c` out of the children of every node and
/// puts it at the front of the children of `p`.
pub proof fn lemma_prepend_children(l: Seq<Links>, p: NodeId, c: NodeId, q: NodeId)
    requires
        well_linked(l),
        p.0 < l.len(),
        c.0 < l.len(),
        p != c,
        q.0 < l.len(),
    ensures
        children_of(prepend_links(l, p, c), q) == (if q == p {
            seq![c] + without(children_of(l, q), c)
        } else {
            without(children_of(l, q), c)
        }),
{
    lemma_detach_well_linked(l, c);
    lemma_detach_children(l, c, q);
    lemma_attach_first_children(detach_links(l, c), p, c, q);
}

/// Inserting `n` behind `s` takes `n` out of the children of every node and
/// puts it behind `s` wherever `s` is a child.
pub proof fn lemma_insert_after_children(l: Seq<Links>, s: NodeId, n: NodeId, q: NodeId)
    requires
        well_linked(l),
        s.0 < l.len(),
        n.0 < l.len(),
        s != n,
        q.0 < l.len(),
    ensures
        children_of(insert_after_links(l, s, n), q) == inserted_after(without(children_of(l, q), n), s, n),
{
    lemma_detach_well_linked(l, n);
    lemma_detach_children(l, n, q);
    lemma_link_after_children(detach_links(l, n), s, n, q);
}

/// Inserting `n` in front of `s` takes `n` out of the children of every node
/// and puts it in front of `s` wherever `s` is a child.
pub proof fn lemma_insert_before_children(l: Seq<Links>, s: NodeId, n: NodeId, q: NodeId)
    requires
        well_linked(l),
        s.0 < l.len(),
        n.0 < l.len(),
        s != n,
        q.0 < l.len(),
    ensures
        children_of(insert_before_links(l, s, n), q) == inserted_before(without(children_of(l, q), n), s, n),
{
    lemma_detach_well_linked(l, n);
    lemma_detach_children(l, n, q);
    lemma_link_before_children(detach_links(l, n), s, n, q);
}

/// Appending `c` to `p` takes `c` out of the siblings of every other node
/// and puts it at the end of the siblings behind every child of `p`; `c`
/// itself gets the other children of `p` in front, nearest first, and none
/// behind.
pub proof fn lemma_append_siblings(l: Seq<Links>, p: NodeId, c: NodeId, q: NodeId)
    requires
        well_linked(l),
        p.0 < l.len(),
        c.0 < l.len(),
        p != c,
        q.0 < l.len(),
    ensures
        following_of(append_links(l, p, c), q) == (if q == c {
            Seq::empty()
        } else if l[q.0 as int].parent == Some(p) {
            without(following_of(l, q), c).push(c)
        } else {
            without(following_of(l, q), c)
        }),
        preceding_of(append_links(l, p, c), q) == (if q == c {
            without(children_of(l, p), c).reverse()
        } else {
            without(preceding_of(l, q), c)
        }),
{
    lemma_detach_well_linked(l, c);
    lemma_detach_siblings(l, c, q);
    lemma_detach_children(l, c, p);
    lemma_attach_last_siblings(detach_links(l, c), p, c, q);
}

/// Prepending `c` to `p` takes `c` out of the siblings of every other node
/// and puts it at the end of the siblings in front of every child of `p`;
/// `c` itself gets the other children of `p` behind and none in front.
pub proof fn lemma_prepend_siblings(l: Seq<Links>, p: NodeId, c: NodeId, q: NodeId)
    requires
        well_linked(l),
        p.0 < l.len(),
        c.0 < l.len(),
        p != c,
        q.0 < l.len(),
    ensures
        preceding_of(prepend_links(l, p, c), q) == (if q == c {
            Seq::empty()
        } else if l[q.0 as int].parent == Some(p) {
            without(preceding_of(l, q), c).push(c)
        } else {
            without(preceding_of(l, q), c)
        }),
        following_of(prepend_links(l, p, c), q) == (if q == c {
            without(children_of(l, p), c)
        } else {
            without(following_of(l, q), c)
        }),
{
    lemma_detach_well_linked(l, c);
    lemma_detach_siblings(l, c, q);
    lemma_detach_children(l, c, p);
    lemma_attach_first_siblings(detach_links(l, c), p, c, q);
}

/// Inserting `n` behind `s` takes `n` out of the siblings of every node and
/// puts it behind `s` wherever `s` is a sibling; `n` itself gets the place
/// of `s` with `s` in front of it.
pub proof fn lemma_insert_after_siblings(l: Seq<Links>, s: NodeId, n: NodeId, q: NodeId)
    requires
        well_linked(l),
        s.0 < l.len(),
        n.0 < l.len(),
        s != n,
        q.0 < l.len(),
    ensures
        following_of(insert_after_links(l, s, n), q) == (if q == n {
            without(following_of(l, s), n)
        } else if q == s {
            seq![n] + without(following_of(l, s), n)
        } else {
            inserted_after(without(following_of(l, q), n), s, n)
        }),
        preceding_of(insert_after_links(l, s, n), q) == (if q == n {
            seq![s] + without(preceding_of(l, s), n)
        } else if q == s {
            without(preceding_of(l, s), n)
        } else {
            inserted_before(without(preceding_of(l, q), n), s, n)
        }),
{
    lemma_detach_well_linked(l, n);
    lemma_detach_siblings(l, n, q);
    lemma_detach_siblings(l, n, s);
    lemma_link_after_siblings(detach_links(l, n), s, n, q);
}

/// Inserting `n` in front of `s` takes `n` out of the siblings of every node
/// and puts it in front of `s` wherever `s` is a sibling; `n` itself gets
/// the place of `s` with `s` behind it.
pub proof fn lemma_insert_before_siblings(l: Seq<Links>, s: NodeId, n: NodeId, q: NodeId)
    requires
        well_linked(l),
        s.0 < l.len(),
        n.0 < l.len(),
        s != n,
        q.0 < l.len(),
    ensures
        preceding_of(insert_before_links(l, s, n), q) == (if q == n {
            without(preceding_of(l, s), n)
        } else if q == s {
            seq![n] + without(preceding_of(l, s), n)
        } else {
            inserted_after(without(preceding_of(l, q), n), s, n)
        }),
        following_of(insert_before_links(l, s, n), q) == (if q == n {
            seq![s] + without(following_of(l, s), n)
        } else if q == s {
            without(following_of(l, s), n)
        } else {
            inserted_before(without(following_of(l, q), n), s, n)
        }),
{
    lemma_detach_well_linked(l, n);
    lemma_detach_siblings(l, n, q);
    lemma_detach_siblings(l, n, s);
    lemma_link_before_siblings(detach_links(l, n), s, n, q);
}

/// Giving `c` the parent `p` keeps the forest a forest exactly if `c` was no
/// ancestor of `p`, and then the ancestors of `c` are `p` and its ancestors.
pub proof fn lemma_adopt_ancestors(l: Seq<Links>, l2: Seq<Links>, p: NodeId, c: NodeId)
    requires
        well_linked(l),
        acyclic(l),
        p.0 < l.len(),
        c.0 < l.len(),
        p != c,
        l2 == append_links(l, p, c) || l2 == prepend_links(l, p, c),
    ensures
        acyclic(l2) <==> !ancestors_of(l, p).contains(c),
        acyclic(l2) ==> ancestors_of(l2, c) == seq![p] + ancestors_of(l, p),
        forall|q: NodeId|
            acyclic(l2) && q.0 < l.len() && q != c ==> #[trigger] ancestors_of(l2, q) == (if ancestors_of(
                l,
                q,
            ).contains(c) {
                upto(ancestors_of(l, q), c) + (seq![p] + ancestors_of(l, p))
            } else {
                ancestors_of(l, q)
            }),
{
    assert(differs_at(parents(l), parents(l2), c));
    assert(terminates(parents(l), Some(p)));
    lemma_path_step(parents(l), p);
    let up = ancestors_of(l, p);
    let whole = seq![p] + up;
    assert(whole.contains(c) <==> up.contains(c)) by {
        if whole.contains(c) {
            let k = whole.index_of(c);
            assert(whole[k] == c);
            assert(up[k - 1] == c);
        }
        if up.contains(c) {
            let k = up.index_of(c);
            assert(whole[k + 1] == c);
        }
    }
    lemma_reparent(l, l2, c, Some(p));
    assert forall|q: NodeId| acyclic(l2) && q.0 < l.len() && q != c implies
        #[trigger] ancestors_of(l2, q) == (if ancestors_of(
        l,
        q,
    ).contains(c) {
        upto(ancestors_of(l, q), c) + (seq![p] + ancestors_of(l, p))
    } else {
        ancestors_of(l, q)
    }) by {
        lemma_reparent_ancestors(l, l2, c, Some(p), q);
    }
}

/// Putting `n` beside `s` keeps the forest a forest exactly if `n` was no
/// ancestor of `s`, and then the ancestors of `n` are those of `s`.
pub proof fn lemma_beside_ancestors(l: Seq<Links>, l2: Seq<Links>, s: NodeId, n: NodeId)
    requires
        well_linked(l),
        acyclic(l),
        s.0 < l.len(),
        n.0 < l.len(),
        s != n,
        l2 == insert_after_links(l, s, n) || l2 == insert_before_links(l, s, n),
    ensures
        acyclic(l2) <==> !ancestors_of(l, s).contains(n),
        acyclic(l2) ==> ancestors_of(l2, n) == ancestors_of(l, s),
        forall|q: NodeId|
            acyclic(l2) && q.0 < l.len() && q != n ==> #[trigger] ancestors_of(l2, q) == (if ancestors_of(
                l,
                q,
            ).contains(n) {
                upto(ancestors_of(l, q), n) + ancestors_of(l, s)
            } else {
                ancestors_of(l, q)
            }),
{
    assert(differs_at(parents(l), parents(l2), n));
    assert(node_ok(l, s));
    lemma_reparent(l, l2, n, l[s.0 as int].parent);
    assert forall|q: NodeId| acyclic(l2) && q.0 < l.len() && q != n implies
        #[trigger] ancestors_of(l2, q) == (if ancestors_of(
        l,
        q,
    ).contains(n) {
        upto(ancestors_of(l, q), n) + ancestors_of(l, s)
    } else {
        ancestors_of(l, q)
    }) by {
        lemma_reparent_ancestors(l, l2, n, l[s.0 as int].parent, q);
    }
}

} // verus!
