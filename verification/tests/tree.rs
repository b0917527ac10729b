use indextree::{Arena, GetPairMut, NodeId};

use std::cell::Cell;

struct DropTracker<'a>(&'a Cell<u32>);

impl<'a> Drop for DropTracker<'a> {
    fn drop(&mut self) {
        self.0.set(&self.0.get() + 1);
    }
}

fn collect_children<T>(node: NodeId, arena: &Arena<T>) -> Vec<NodeId> {
    let mut walk = node.children(arena);
    let mut out = Vec::new();
    while let Some(id) = walk.next() {
        out.push(id);
    }
    out
}

fn collect_ancestors<T>(node: NodeId, arena: &Arena<T>) -> Vec<NodeId> {
    let mut walk = node.ancestors(arena);
    let mut out = Vec::new();
    while let Some(id) = walk.next() {
        out.push(id);
    }
    out
}

fn collect_following<T>(node: NodeId, arena: &Arena<T>) -> Vec<NodeId> {
    let mut walk = node.following_siblings(arena);
    let mut out = Vec::new();
    while let Some(id) = walk.next() {
        out.push(id);
    }
    out
}

fn collect_preceding<T>(node: NodeId, arena: &Arena<T>) -> Vec<NodeId> {
    let mut walk = node.preceding_siblings(arena);
    let mut out = Vec::new();
    while let Some(id) = walk.next() {
        out.push(id);
    }
    out
}

#[test]
fn data_lifetimes() {
    let drop_counter = Cell::new(0);
    {
        let mut new_counter = 0;
        let arena = &mut Arena::new();

        new_counter += 1;
        let a = arena.new_node((new_counter, DropTracker(&drop_counter))); // 1
        new_counter += 1;
        let n2 = arena.new_node((new_counter, DropTracker(&drop_counter))); // 2
        a.append(n2, arena);
        new_counter += 1;
        let n3 = arena.new_node((new_counter, DropTracker(&drop_counter))); // 3
        a.append(n3, arena);
        new_counter += 1;
        let n4 = arena.new_node((new_counter, DropTracker(&drop_counter))); // 4
        a.prepend(n4, arena);
        new_counter += 1;
        let b = arena.new_node((new_counter, DropTracker(&drop_counter))); // 5
        b.append(a, arena);
        new_counter += 1;
        let n6 = arena.new_node((new_counter, DropTracker(&drop_counter))); // 6
        a.insert_before(n6, arena);
        new_counter += 1;
        let n7 = arena.new_node((new_counter, DropTracker(&drop_counter))); // 7
        a.insert_before(n7, arena);
        new_counter += 1;
        let n8 = arena.new_node((new_counter, DropTracker(&drop_counter))); // 8
        a.insert_after(n8, arena);
        new_counter += 1;
        let n9 = arena.new_node((new_counter, DropTracker(&drop_counter))); // 9
        a.insert_after(n9, arena);
        {
            new_counter += 1;
            let c = arena.new_node((new_counter, DropTracker(&drop_counter))); // 10
            b.append(c, arena);
            c.detach(arena);
        }
        assert_eq!(drop_counter.get(), 0);
        assert_eq!(collect_children(b, arena), vec![n6, n7, a, n9, n8]);
        assert_eq!(collect_children(a, arena), vec![n4, n2, n3]);
    }

    assert_eq!(drop_counter.get(), 10);
}

#[test]
fn ancestor() {
    let arena = &mut Arena::new();
    let a = arena.new_node(1);
    let b = arena.new_node(2);
    let c = arena.new_node(3);
    a.append(b, arena);
    b.append(c, arena);

    let mut ancestors = c.ancestors(arena);
    assert_eq!(ancestors.next().unwrap(), b);
    assert_eq!(ancestors.next().unwrap(), a);
    assert_eq!(ancestors.next(), None);
}

#[test]
fn prepend() {
    let arena = &mut Arena::new();
    let a = arena.new_node(1);
    let b = arena.new_node(2);
    a.prepend(b, arena);
    assert_eq!(collect_children(a, arena), vec![b]);
    assert_eq!(arena.nodes[b.0].parent, Some(a));
}

#[test]
fn detach() {
    let arena = &mut Arena::new();
    let a = arena.new_node(1);
    let b = arena.new_node(1);
    a.append(b, arena);
    assert_eq!(a.children(arena).count(), 1);
    b.detach(arena);
    assert_eq!(a.children(arena).count(), 0);
}

#[test]
fn fresh_node_stands_alone() {
    let arena = &mut Arena::new();
    assert!(arena.is_empty());
    assert_eq!(arena.len(), 0);
    let a = arena.new_node("a");
    let b = arena.new_node("b");
    assert_eq!(a, NodeId(0));
    assert_eq!(b, NodeId(1));
    assert!(!arena.is_empty());
    assert_eq!(arena.len(), 2);
    for n in [a, b] {
        let node = &arena.nodes[n.0];
        assert_eq!(node.parent, None);
        assert_eq!(node.previous_sibling, None);
        assert_eq!(node.next_sibling, None);
        assert_eq!(node.first_child, None);
        assert_eq!(node.last_child, None);
        assert_eq!(n.children(arena).count(), 0);
        assert_eq!(n.ancestors(arena).count(), 0);
        assert_eq!(n.preceding_siblings(arena).count(), 0);
        assert_eq!(n.following_siblings(arena).count(), 0);
        assert_eq!(n.children(arena).next(), None);
    }
}

#[test]
fn append_puts_child_last() {
    let arena = &mut Arena::new();
    let p = arena.new_node(0);
    let c1 = arena.new_node(1);
    let c2 = arena.new_node(2);
    let c3 = arena.new_node(3);
    p.append(c1, arena);
    assert_eq!(collect_children(p, arena), vec![c1]);
    p.append(c2, arena);
    assert_eq!(collect_children(p, arena), vec![c1, c2]);
    p.append(c3, arena);
    assert_eq!(collect_children(p, arena), vec![c1, c2, c3]);
    assert_eq!(arena.nodes[c3.0].parent, Some(p));
    assert_eq!(arena.nodes[p.0].first_child, Some(c1));
    assert_eq!(arena.nodes[p.0].last_child, Some(c3));
    assert_eq!(p.children(arena).count(), 3);
}

#[test]
fn append_again_moves_child_to_the_end() {
    let arena = &mut Arena::new();
    let p = arena.new_node(0);
    let c1 = arena.new_node(1);
    let c2 = arena.new_node(2);
    let c3 = arena.new_node(3);
    p.append(c1, arena);
    p.append(c2, arena);
    p.append(c3, arena);
    p.append(c1, arena);
    assert_eq!(collect_children(p, arena), vec![c2, c3, c1]);
    assert_eq!(p.children(arena).count(), 3);
    p.append(c1, arena);
    assert_eq!(collect_children(p, arena), vec![c2, c3, c1]);
}

#[test]
fn append_moves_child_between_parents() {
    let arena = &mut Arena::new();
    let p = arena.new_node(0);
    let q = arena.new_node(1);
    let c1 = arena.new_node(2);
    let c2 = arena.new_node(3);
    p.append(c1, arena);
    p.append(c2, arena);
    q.append(c1, arena);
    assert_eq!(collect_children(p, arena), vec![c2]);
    assert_eq!(collect_children(q, arena), vec![c1]);
    assert_eq!(arena.nodes[c1.0].parent, Some(q));
    assert_eq!(arena.nodes[c2.0].previous_sibling, None);
}

#[test]
fn prepend_puts_child_first() {
    let arena = &mut Arena::new();
    let p = arena.new_node(0);
    let c1 = arena.new_node(1);
    let c2 = arena.new_node(2);
    let c3 = arena.new_node(3);
    p.prepend(c1, arena);
    p.prepend(c2, arena);
    p.prepend(c3, arena);
    assert_eq!(collect_children(p, arena), vec![c3, c2, c1]);
    assert_eq!(arena.nodes[p.0].first_child, Some(c3));
    assert_eq!(arena.nodes[p.0].last_child, Some(c1));
    p.prepend(c1, arena);
    assert_eq!(collect_children(p, arena), vec![c1, c3, c2]);
    assert_eq!(arena.nodes[p.0].last_child, Some(c2));
}

#[test]
fn detach_twice_is_detach_once() {
    let arena = &mut Arena::new();
    let p = arena.new_node(0);
    let c1 = arena.new_node(1);
    let c2 = arena.new_node(2);
    let c3 = arena.new_node(3);
    let g = arena.new_node(4);
    p.append(c1, arena);
    p.append(c2, arena);
    p.append(c3, arena);
    c2.append(g, arena);
    c2.detach(arena);
    let once: Vec<_> = arena
        .nodes
        .iter()
        .map(|n| (n.parent, n.previous_sibling, n.next_sibling, n.first_child, n.last_child, n.data))
        .collect();
    c2.detach(arena);
    let twice: Vec<_> = arena
        .nodes
        .iter()
        .map(|n| (n.parent, n.previous_sibling, n.next_sibling, n.first_child, n.last_child, n.data))
        .collect();
    assert_eq!(once, twice);
    assert_eq!(collect_children(p, arena), vec![c1, c3]);
    assert_eq!(collect_children(c2, arena), vec![g]);
    assert_eq!(arena.nodes[c2.0].parent, None);
    assert_eq!(arena.nodes[c1.0].next_sibling, Some(c3));
    assert_eq!(arena.nodes[c3.0].previous_sibling, Some(c1));
}

#[test]
fn detach_at_either_end_moves_first_and_last_child() {
    let arena = &mut Arena::new();
    let p = arena.new_node(0);
    let c1 = arena.new_node(1);
    let c2 = arena.new_node(2);
    let c3 = arena.new_node(3);
    p.append(c1, arena);
    p.append(c2, arena);
    p.append(c3, arena);
    c1.detach(arena);
    assert_eq!(arena.nodes[p.0].first_child, Some(c2));
    assert_eq!(arena.nodes[c2.0].previous_sibling, None);
    c3.detach(arena);
    assert_eq!(arena.nodes[p.0].last_child, Some(c2));
    assert_eq!(arena.nodes[c2.0].next_sibling, None);
    c2.detach(arena);
    assert_eq!(arena.nodes[p.0].first_child, None);
    assert_eq!(arena.nodes[p.0].last_child, None);
    assert_eq!(p.children(arena).count(), 0);
}

#[test]
fn insert_before_and_after_surround_the_node() {
    let arena = &mut Arena::new();
    let p = arena.new_node(0);
    let s = arena.new_node(1);
    let x = arena.new_node(2);
    let y = arena.new_node(3);
    let l = arena.new_node(4);
    let r = arena.new_node(5);
    p.append(l, arena);
    p.append(s, arena);
    p.append(r, arena);
    s.insert_before(x, arena);
    s.insert_after(y, arena);
    assert_eq!(collect_preceding(s, arena), vec![x, l]);
    assert_eq!(collect_following(s, arena), vec![y, r]);
    assert_eq!(collect_children(p, arena), vec![l, x, s, y, r]);
    assert_eq!(arena.nodes[x.0].parent, Some(p));
    assert_eq!(arena.nodes[y.0].parent, Some(p));
    assert_eq!(s.preceding_siblings(arena).count(), 2);
    assert_eq!(s.following_siblings(arena).count(), 2);
}

#[test]
fn insert_at_the_ends_moves_first_and_last_child() {
    let arena = &mut Arena::new();
    let p = arena.new_node(0);
    let s = arena.new_node(1);
    let x = arena.new_node(2);
    let y = arena.new_node(3);
    p.append(s, arena);
    s.insert_before(x, arena);
    assert_eq!(arena.nodes[p.0].first_child, Some(x));
    assert_eq!(arena.nodes[p.0].last_child, Some(s));
    s.insert_after(y, arena);
    assert_eq!(arena.nodes[p.0].first_child, Some(x));
    assert_eq!(arena.nodes[p.0].last_child, Some(y));
    assert_eq!(collect_children(p, arena), vec![x, s, y]);
}

#[test]
fn insert_beside_a_root_makes_root_siblings() {
    let arena = &mut Arena::new();
    let s = arena.new_node(1);
    let x = arena.new_node(2);
    let y = arena.new_node(3);
    s.insert_after(y, arena);
    s.insert_before(x, arena);
    assert_eq!(arena.nodes[x.0].parent, None);
    assert_eq!(arena.nodes[y.0].parent, None);
    assert_eq!(collect_following(x, arena), vec![s, y]);
    assert_eq!(collect_preceding(y, arena), vec![s, x]);
}

#[test]
fn ancestors_run_from_parent_to_root() {
    let arena = &mut Arena::new();
    let ids: Vec<NodeId> = (0..5).map(|i| arena.new_node(i)).collect();
    for w in ids.windows(2) {
        w[0].append(w[1], arena);
    }
    assert_eq!(collect_ancestors(ids[4], arena), vec![ids[3], ids[2], ids[1], ids[0]]);
    assert_eq!(ids[4].ancestors(arena).count(), 4);
    assert_eq!(ids[0].ancestors(arena).count(), 0);
    assert_eq!(collect_ancestors(ids[1], arena), vec![ids[0]]);
}

#[test]
fn append_then_parent_and_count() {
    let arena = &mut Arena::new();
    let a = arena.new_node(1);
    let b = arena.new_node(2);
    a.append(b, arena);
    assert_eq!(a.children(arena).count(), 1);
    assert_eq!(arena.nodes[b.0].parent, Some(a));
    assert_eq!(arena[a], 1);
    assert_eq!(arena[b], 2);
}

#[test]
fn append_then_detach_leaves_no_child_and_no_parent() {
    let arena = &mut Arena::new();
    let a = arena.new_node(1);
    let b = arena.new_node(2);
    a.append(b, arena);
    b.detach(arena);
    assert_eq!(a.children(arena).count(), 0);
    assert_eq!(arena.nodes[b.0].parent, None);
}

#[test]
fn payloads_are_read_and_written_by_identifier() {
    let arena = &mut Arena::new();
    let a = arena.new_node(10);
    let b = arena.new_node(20);
    a.append(b, arena);
    *arena.index_mut(b) = 21;
    assert_eq!(arena[a], 10);
    assert_eq!(arena[b], 21);
    assert_eq!(arena.nodes[b.0].parent, Some(a));
}

#[test]
fn get_pair_mut_hands_out_both_elements() {
    let mut v = vec![10, 20, 30, 40];
    {
        let (x, y) = v.get_pair_mut(3, 1, "same");
        assert_eq!((*x, *y), (40, 20));
        *x += 1;
        *y += 2;
    }
    assert_eq!(v, vec![10, 22, 30, 41]);
    {
        let (x, y) = v.get_pair_mut(0, 2, "same");
        assert_eq!((*x, *y), (10, 30));
        *x = 0;
        *y = 1;
    }
    assert_eq!(v, vec![0, 22, 1, 41]);
}

#[test]
fn appending_an_ancestor_closes_a_cycle_of_parents() {
    let arena = &mut Arena::new();
    let a = arena.new_node(1);
    let b = arena.new_node(2);
    let c = arena.new_node(3);
    a.append(b, arena);
    b.append(c, arena);
    c.append(a, arena);
    assert_eq!(arena.nodes[a.0].parent, Some(c));
    assert_eq!(arena.nodes[b.0].parent, Some(a));
    assert_eq!(arena.nodes[c.0].parent, Some(b));
    assert_eq!(collect_children(c, arena), vec![a]);
    assert_eq!(collect_children(a, arena), vec![b]);
    assert_eq!(collect_children(b, arena), vec![c]);
    a.detach(arena);
    assert_eq!(collect_ancestors(c, arena), vec![b, a]);
}

#[test]
fn walks_stop_after_the_last_node() {
    let arena = &mut Arena::new();
    let p = arena.new_node(0);
    let c1 = arena.new_node(1);
    let c2 = arena.new_node(2);
    p.append(c1, arena);
    p.append(c2, arena);
    let mut walk = p.children(arena);
    assert_eq!(walk.next(), Some(c1));
    assert_eq!(walk.next(), Some(c2));
    assert_eq!(walk.next(), None);
    assert_eq!(walk.next(), None);
    let mut back = c2.preceding_siblings(arena);
    assert_eq!(back.next(), Some(c1));
    assert_eq!(back.next(), None);
    let mut ahead = c1.following_siblings(arena);
    assert_eq!(ahead.next(), Some(c2));
    assert_eq!(ahead.next(), None);
}

#[test]
fn insert_moves_a_node_that_was_a_sibling_already() {
    let arena = &mut Arena::new();
    let p = arena.new_node(0);
    let c1 = arena.new_node(1);
    let c2 = arena.new_node(2);
    let c3 = arena.new_node(3);
    p.append(c1, arena);
    p.append(c2, arena);
    p.append(c3, arena);
    c1.insert_before(c3, arena);
    assert_eq!(collect_children(p, arena), vec![c3, c1, c2]);
    c2.insert_after(c3, arena);
    assert_eq!(collect_children(p, arena), vec![c1, c2, c3]);
    c3.insert_after(c1, arena);
    assert_eq!(collect_children(p, arena), vec![c2, c3, c1]);
    assert_eq!(arena.nodes[p.0].first_child, Some(c2));
    assert_eq!(arena.nodes[p.0].last_child, Some(c1));
}

#[test]
fn detached_subtree_keeps_its_children() {
    let arena = &mut Arena::new();
    let root = arena.new_node(0);
    let mid = arena.new_node(1);
    let leaf1 = arena.new_node(2);
    let leaf2 = arena.new_node(3);
    root.append(mid, arena);
    mid.append(leaf1, arena);
    mid.append(leaf2, arena);
    assert_eq!(collect_ancestors(leaf2, arena), vec![mid, root]);
    mid.detach(arena);
    assert_eq!(collect_children(mid, arena), vec![leaf1, leaf2]);
    assert_eq!(collect_ancestors(leaf2, arena), vec![mid]);
    assert_eq!(root.children(arena).count(), 0);
    assert_eq!(arena.len(), 4);
}

#[test]
fn node_links_in_print() {
    let arena = &mut Arena::new();
    let ids: Vec<NodeId> = (0..13).map(|i| arena.new_node(i)).collect();
    ids[0].append(ids[10], arena);
    ids[0].append(ids[11], arena);
    ids[0].append(ids[12], arena);
    ids[11].append(ids[7], arena);
    assert_eq!(
        arena.nodes[11].to_string(),
        "Parent: Some(NodeId(0)), Previous sibling: Some(NodeId(10)), Next sibling: Some(NodeId(12)), \
         First child: Some(NodeId(7)), Last child: Some(NodeId(7))"
    );
    assert_eq!(
        arena.nodes[3].to_string(),
        "Parent: None, Previous sibling: None, Next sibling: None, First child: None, Last child: None"
    );
    assert_eq!(
        arena.nodes[11].to_string(),
        format!(
            "Parent: {:?}, Previous sibling: {:?}, Next sibling: {:?}, First child: {:?}, Last child: {:?}",
            arena.nodes[11].parent,
            arena.nodes[11].previous_sibling,
            arena.nodes[11].next_sibling,
            arena.nodes[11].first_child,
            arena.nodes[11].last_child
        )
    );
}

#[test]
fn decimal_text_of_numbers() {
    assert_eq!(indextree::text::decimal_text(0), "0");
    assert_eq!(indextree::text::decimal_text(9), "9");
    assert_eq!(indextree::text::decimal_text(10), "10");
    assert_eq!(indextree::text::decimal_text(4096), "4096");
    assert_eq!(indextree::text::decimal_text(usize::MAX), usize::MAX.to_string());
    assert_eq!(indextree::text::link_text(None), "None");
    assert_eq!(indextree::text::link_text(Some(NodeId(120))), "Some(NodeId(120))");
}
