//! Laws of the structural operations, stated over the link table that the
//! operations' contracts speak of.

use crate::effects::{lemma_append_children, lemma_insert_after_siblings, lemma_insert_before_siblings};
use crate::links::{
    ancestors_of, children_of, following_of, lemma_children_complete, lemma_children_parent, lemma_links_within,
    loose, nexts, node_ok, parents, preceding_of, prevs, well_linked, Links,
};
use crate::nodeid::NodeId;
use crate::path::{is_path, lemma_path_cons, lemma_path_distinct, lemma_path_from, lemma_path_suffix, without};
use crate::surgery::{
    append_links, detach_links, insert_after_links, insert_before_links, lemma_detach_well_linked,
    lemma_link_after_well_linked, lemma_link_before_well_linked,
};
use vstd::prelude::*;

verus! {

/// `n` lies `d` steps of `parent` below a root.
pub open spec fn at_depth(l: Seq<Links>, n: NodeId, d: nat) -> bool
    decreases d,
{
    n.0 < l.len() && match l[n.0 as int].parent {
        None => d == 0,
        Some(p) => d > 0 && at_depth(l, p, (d - 1) as nat),
    }
}

/// Detaching a node that has neither parent nor siblings changes nothing.
pub proof fn law_detach_loose(l: Seq<Links>, n: NodeId)
    requires
        well_linked(l),
        loose(l, n),
    ensures
        detach_links(l, n) == l,
{
    assert(detach_links(l, n) =~= l);
}

/// Detaching a node twice leaves the linkage as detaching it once does.
pub proof fn law_detach_idempotent(l: Seq<Links>, n: NodeId)
    requires
        well_linked(l),
        n.0 < l.len(),
    ensures
        detach_links(detach_links(l, n), n) == detach_links(l, n),
{
    lemma_detach_well_linked(l, n);
    law_detach_loose(detach_links(l, n), n);
}

/// After `c` is appended to `p`, it is the last child of `p` and `p` is its
/// parent; `p` has one child more than before, or as many as before where
/// `c` was its child already.
pub proof fn law_append_last_child(l: Seq<Links>, p: NodeId, c: NodeId)
    requires
        well_linked(l),
        p.0 < l.len(),
        c.0 < l.len(),
        p != c,
    ensures
        children_of(append_links(l, p, c), p).last() == c,
        append_links(l, p, c)[c.0 as int].parent == Some(p),
        children_of(append_links(l, p, c), p).len() == children_of(l, p).len() + (if l[c.0 as int].parent == Some(p) {
            0int
        } else {
            1int
        }),
{
    lemma_append_children(l, p, c, p);
    lemma_children_complete(l, p, c);
    lemma_children_parent(l, p);
    let ch = children_of(l, p);
    if ch.contains(c) {
        let k = ch.index_of(c);
        assert(ch.remove(k).len() == ch.len() - 1);
    }
}

/// The children of a node list its children in the order of the chain that
/// links them: the siblings behind a child are the children behind it, and
/// the siblings in front of it are the children in front of it, nearest first.
pub proof fn law_siblings_in_children(l: Seq<Links>, p: NodeId, c: NodeId)
    requires
        well_linked(l),
        p.0 < l.len(),
        c.0 < l.len(),
        l[c.0 as int].parent == Some(p),
    ensures
        children_of(l, p).contains(c),
        following_of(l, c) == children_of(l, p).skip(children_of(l, p).index_of(c) + 1),
        preceding_of(l, c) == children_of(l, p).take(children_of(l, p).index_of(c)).reverse(),
{
    lemma_children_complete(l, p, c);
    lemma_children_parent(l, p);
    let ch = children_of(l, p);
    let k = ch.index_of(c);
    assert(ch[k] == c);
    assert(node_ok(l, p));
    assert(node_ok(l, c));
    lemma_path_suffix(nexts(l), l[p.0 as int].first_child, ch, k + 1);
    lemma_path_from(nexts(l), l[c.0 as int].next_sibling, ch.skip(k + 1));
    let front = ch.take(k);
    let back = front.reverse();
    assert(back.len() == k);
    assert forall|i: int| 0 <= i < k implies #[trigger] back[i] == ch[k - 1 - i] by {}
    if k > 0 {
        assert(nexts(l)[ch[k - 1].0 as int] == Some(ch[k]));
        assert(node_ok(l, ch[k - 1]));
    }
    assert forall|i: int, j: int| 0 <= i && j == i + 1 && j < back.len() implies prevs(l)[(#[trigger] back[i]).0 as int]
        == Some(#[trigger] back[j]) by {
        assert(nexts(l)[ch[k - 1 - j].0 as int] == Some(ch[k - 1 - i]));
        assert(node_ok(l, ch[k - 1 - j]));
    }
    assert(is_path(prevs(l), l[c.0 as int].previous_sibling, back));
    lemma_path_from(prevs(l), l[c.0 as int].previous_sibling, back);
}

/// After `x` is inserted in front of `s` and `y` behind it, where `s` has
/// the parent `p` and the three nodes differ: `x` is the nearest sibling in
/// front of `s` and `y` the nearest behind it; the children of `p` are the
/// one chain from its first to its last child, they hold `x`, `s` and `y`
/// side by side in this order, and they are all the nodes whose parent is
/// `p`, each once.
pub proof fn law_insert_both_sides(l: Seq<Links>, s: NodeId, x: NodeId, y: NodeId, p: NodeId)
    requires
        well_linked(l),
        s.0 < l.len(),
        x.0 < l.len(),
        y.0 < l.len(),
        l[s.0 as int].parent == Some(p),
        x != s,
        y != s,
        x != y,
    ensures
        well_linked(insert_after_links(insert_before_links(l, s, x), s, y)),
        preceding_of(insert_after_links(insert_before_links(l, s, x), s, y), s).first() == x,
        following_of(insert_after_links(insert_before_links(l, s, x), s, y), s).first() == y,
        ({
            let after = insert_after_links(insert_before_links(l, s, x), s, y);
            let ch = children_of(after, p);
            &&& is_path(nexts(after), after[p.0 as int].first_child, ch)
            &&& ch.no_duplicates()
            &&& forall|c: NodeId| c.0 < after.len() ==> (ch.contains(c) <==> after[c.0 as int].parent == Some(p))
            &&& exists|k: int| 0 <= k && k + 2 < ch.len() && #[trigger] ch[k] == x && ch[k + 1] == s && ch[k + 2] == y
        }),
{
    let loosened = detach_links(l, x);
    lemma_detach_well_linked(l, x);
    let mid = insert_before_links(l, s, x);
    lemma_link_before_well_linked(loosened, s, x);
    lemma_insert_before_siblings(l, s, x, s);
    let loosened2 = detach_links(mid, y);
    lemma_detach_well_linked(mid, y);
    let after = insert_after_links(mid, s, y);
    lemma_link_after_well_linked(loosened2, s, y);
    lemma_insert_after_siblings(mid, s, y, s);
    let front = preceding_of(mid, s);
    assert(front[0] == x);
    let kept = without(front, y);
    assert(kept.len() > 0 && kept[0] == x) by {
        if front.contains(y) {
            let k = front.index_of(y);
            assert(front[k] == y);
            assert(front.remove(k)[0] == front[0]);
        }
    }
    assert(node_ok(l, s));
    assert(p.0 < l.len());
    assert(after[s.0 as int].parent == Some(p));
    let ch = children_of(after, p);
    lemma_children_parent(after, p);
    lemma_path_distinct(nexts(after), after[p.0 as int].first_child, ch);
    assert forall|c: NodeId| c.0 < after.len() implies (ch.contains(c) <==> after[c.0 as int].parent == Some(p)) by {
        lemma_children_complete(after, p, c);
    }
    lemma_children_complete(after, p, s);
    let k = ch.index_of(s);
    assert(ch[k] == s);
    lemma_links_within(after, s);
    assert(node_ok(after, s));
    assert(after[s.0 as int].next_sibling == Some(y));
    assert(after[s.0 as int].previous_sibling == Some(x));
    assert(node_ok(after, p));
    assert(k > 0);
    assert(nexts(after)[ch[k - 1].0 as int] == Some(ch[k]));
    assert(node_ok(after, ch[k - 1]));
    if k + 1 < ch.len() {
        assert(nexts(after)[ch[k].0 as int] == Some(ch[k + 1]));
    }
    assert(ch[k - 1] == x && ch[k] == s && ch[k + 1] == y);
    assert(0 <= k - 1 && (k - 1) + 2 < ch.len() && ch[k - 1] == x && ch[(k - 1) + 1] == s && ch[(k - 1) + 2] == y);
}

/// The ancestors of a node that lies `d` steps below a root are `d` nodes:
/// its parent first, then each node's parent in turn, and the root last.
pub proof fn law_ancestors_depth(l: Seq<Links>, n: NodeId, d: nat)
    requires
        at_depth(l, n, d),
    ensures
        n.0 < l.len(),
        ancestors_of(l, n).len() == d,
        is_path(parents(l), l[n.0 as int].parent, ancestors_of(l, n)),
        forall|i: int| 0 <= i < d ==> at_depth(l, #[trigger] ancestors_of(l, n)[i], (d - 1 - i) as nat),
    decreases d,
{
    match l[n.0 as int].parent {
        None => {
            lemma_path_from(parents(l), None, Seq::<NodeId>::empty());
        },
        Some(p) => {
            law_ancestors_depth(l, p, (d - 1) as nat);
            let up = ancestors_of(l, p);
            lemma_path_cons(parents(l), p, up);
            lemma_path_from(parents(l), Some(p), seq![p] + up);
            let all = ancestors_of(l, n);
            assert forall|i: int| 0 <= i < d implies at_depth(l, #[trigger] all[i], (d - 1 - i) as nat) by {
                if i > 0 {
                    assert(all[i] == up[i - 1]);
                }
            }
        },
    }
}

} // verus!
