use crate::arena::{Arena, GetPairMut};
use crate::effects::{
    lemma_adopt_ancestors, lemma_append_children, lemma_append_siblings, lemma_beside_ancestors,
    lemma_detach_ancestors, lemma_detach_children, lemma_detach_siblings, lemma_insert_after_children,
    lemma_insert_after_siblings, lemma_insert_before_children, lemma_insert_before_siblings, lemma_prepend_children,
    lemma_prepend_siblings,
};
use crate::laws::{law_append_last_child, law_detach_loose};
use crate::links::{lemma_no_self_sibling, loose, node_ok, parents};
use crate::path::{inserted_after, inserted_before, lemma_path_step, upto, without};
use crate::surgery::{
    append_links, detach_links, insert_after_links, insert_before_links, lemma_attach_first_well_linked,
    lemma_attach_last_well_linked, lemma_detach_acyclic, lemma_detach_well_linked, lemma_link_after_well_linked,
    lemma_link_before_well_linked, prepend_links,
};
use crate::traverse::{Ancestors, Children, FollowingSiblings, PrecedingSiblings};
use vstd::prelude::*;

verus! {

/// A node identifier within a particular arena.
#[derive(PartialEq, Eq, Structural, Copy, Clone, Debug, Hash)]
pub struct NodeId(pub usize);

impl NodeId {
    /// Return a walk over the node's ancestors, nearest first.
    ///
    /// The node must have a root above it, as every node of a forest has:
    /// a walk along a cycle of parents would never end.
    pub fn ancestors<T>(self, arena: &Arena<T>) -> (walk: Ancestors<'_, T>)
        requires
            arena.wf(),
            arena.rooted(self),
            arena.contains(self),
        ensures
            walk.arena() == *arena,
            walk.remaining() == arena.ancestors(self),
    {
        proof {
            assert(node_ok(arena.links(), self));
            lemma_path_step(parents(arena.links()), self);
        }
        Ancestors::starting_at(arena, arena.get_node(self).parent)
    }

    /// Return a walk over the siblings in front of the node, nearest first.
    pub fn preceding_siblings<T>(self, arena: &Arena<T>) -> (walk: PrecedingSiblings<'_, T>)
        requires
            arena.wf(),
            arena.contains(self),
        ensures
            walk.arena() == *arena,
            walk.remaining() == arena.preceding_siblings(self),
    {
        proof {
            assert(node_ok(arena.links(), self));
        }
        PrecedingSiblings::starting_at(arena, arena.get_node(self).previous_sibling)
    }

    /// Return a walk over the siblings behind the node, nearest first.
    pub fn following_siblings<T>(self, arena: &Arena<T>) -> (walk: FollowingSiblings<'_, T>)
        requires
            arena.wf(),
            arena.contains(self),
        ensures
            walk.arena() == *arena,
            walk.remaining() == arena.following_siblings(self),
    {
        proof {
            assert(node_ok(arena.links(), self));
        }
        FollowingSiblings::starting_at(arena, arena.get_node(self).next_sibling)
    }

    /// Return a walk over the node's children, front to back.
    pub fn children<T>(self, arena: &Arena<T>) -> (walk: Children<'_, T>)
        requires
            arena.wf(),
            arena.contains(self),
        ensures
            walk.arena() == *arena,
            walk.remaining() == arena.children(self),
    {
        proof {
            assert(node_ok(arena.links(), self));
        }
        Children::starting_at(arena, arena.get_node(self).first_child)
    }

    /// Detach a node from its parent and siblings. Its children stay with it.
    ///
    /// Afterwards the node has neither parent nor siblings, and it is gone
    /// from every walk that passed through it: from the children of its
    /// parent, from the siblings of its neighbours, and (with its own
    /// ancestors) from the ancestors of its descendants. Detaching a node
    /// that stands alone changes nothing.
    pub fn detach<T>(self, arena: &mut Arena<T>)
        requires
            old(arena).wf(),
            old(arena).contains(self),
        ensures
            final(arena).wf(),
            final(arena).links() == detach_links(old(arena).links(), self),
            final(arena).payloads() == old(arena).payloads(),
            loose(old(arena).links(), self) ==> final(arena).links() == old(arena).links(),
            final(arena).parent(self) is None,
            forall|q: NodeId|
                old(arena).contains(q) && q != self ==> #[trigger] final(arena).parent(q) == old(arena).parent(q),
            forall|q: NodeId|
                old(arena).contains(q) ==> #[trigger] final(arena).children(q) == without(
                    old(arena).children(q),
                    self,
                ),
            forall|q: NodeId|
                old(arena).contains(q) ==> #[trigger] final(arena).following_siblings(q) == (if q == self {
                    Seq::empty()
                } else {
                    without(old(arena).following_siblings(q), self)
                }),
            forall|q: NodeId|
                old(arena).contains(q) ==> #[trigger] final(arena).preceding_siblings(q) == (if q == self {
                    Seq::empty()
                } else {
                    without(old(arena).preceding_siblings(q), self)
                }),
            old(arena).is_forest() ==> final(arena).is_forest(),
            forall|q: NodeId|
                old(arena).is_forest() && old(arena).contains(q) ==> #[trigger] final(arena).ancestors(q) == (if q
                    == self {
                    Seq::empty()
                } else {
                    upto(old(arena).ancestors(q), self)
                }),
    {
        let ghost before = arena.links();
        proof {
            assert(node_ok(before, self));
            lemma_no_self_sibling(before, self);
        }
        let (parent, previous_sibling, next_sibling) = {
            let node = arena.get_node_mut(self);
            (node.parent.take(), node.previous_sibling.take(), node.next_sibling.take())
        };

        if let Some(next_sibling) = next_sibling {
            arena.get_node_mut(next_sibling).previous_sibling = previous_sibling;
        } else if let Some(parent) = parent {
            arena.get_node_mut(parent).last_child = previous_sibling;
        }

        if let Some(previous_sibling) = previous_sibling {
            arena.get_node_mut(previous_sibling).next_sibling = next_sibling;
        } else if let Some(parent) = parent {
            arena.get_node_mut(parent).first_child = next_sibling;
        }
        proof {
            assert(arena.links() =~= detach_links(before, self));
            assert(arena.payloads() =~= old(arena).payloads());
            lemma_detach_well_linked(before, self);
            if loose(before, self) {
                law_detach_loose(before, self);
            }
            assert forall|q: NodeId| old(arena).contains(q) implies #[trigger] arena.children(q) == without(
                old(arena).children(q),
                self,
            ) by {
                lemma_detach_children(before, self, q);
            }
            assert forall|q: NodeId| old(arena).contains(q) implies #[trigger] arena.following_siblings(q) == (if q
                == self {
                Seq::empty()
            } else {
                without(old(arena).following_siblings(q), self)
            }) by {
                lemma_detach_siblings(before, self, q);
            }
            assert forall|q: NodeId| old(arena).contains(q) implies #[trigger] arena.preceding_siblings(q) == (if q
                == self {
                Seq::empty()
            } else {
                without(old(arena).preceding_siblings(q), self)
            }) by {
                lemma_detach_siblings(before, self, q);
            }
            if old(arena).is_forest() {
                lemma_detach_acyclic(before, self);
                assert forall|q: NodeId| old(arena).contains(q) implies #[trigger] arena.ancestors(q) == (if q
                    == self {
                    Seq::empty()
                } else {
                    upto(old(arena).ancestors(q), self)
                }) by {
                    lemma_detach_ancestors(before, self, q);
                }
            }
        }
    }

    /// Append a new child to this node, after existing children.
    ///
    /// The child is first detached from where it was. It may be an ancestor
    /// of this node: the linkage stays consistent, but the two then lie on a
    /// cycle of parents and the arena is no forest any more. Keeping the
    /// child out of this node's ancestors is up to the caller.
    pub fn append<T>(self, new_child: NodeId, arena: &mut Arena<T>)
        requires
            old(arena).wf(),
            old(arena).contains(self),
            old(arena).contains(new_child),
            self != new_child,
        ensures
            final(arena).wf(),
            final(arena).links() == append_links(old(arena).links(), self, new_child),
            final(arena).payloads() == old(arena).payloads(),
            final(arena).parent(new_child) == Some(self),
            forall|q: NodeId|
                old(arena).contains(q) && q != new_child ==> #[trigger] final(arena).parent(q) == old(arena).parent(q),
            final(arena).children(self).last() == new_child,
            final(arena).children(self).len() == old(arena).children(self).len() + (if old(arena).parent(new_child)
                == Some(self) {
                0int
            } else {
                1int
            }),
            forall|q: NodeId|
                old(arena).contains(q) ==> #[trigger] final(arena).children(q) == (if q == self {
                    without(old(arena).children(q), new_child).push(new_child)
                } else {
                    without(old(arena).children(q), new_child)
                }),
            forall|q: NodeId|
                old(arena).contains(q) ==> #[trigger] final(arena).following_siblings(q) == (if q == new_child {
                    Seq::empty()
                } else if old(arena).parent(q) == Some(self) {
                    without(old(arena).following_siblings(q), new_child).push(new_child)
                } else {
                    without(old(arena).following_siblings(q), new_child)
                }),
            forall|q: NodeId|
                old(arena).contains(q) ==> #[trigger] final(arena).preceding_siblings(q) == (if q == new_child {
                    without(old(arena).children(self), new_child).reverse()
                } else {
                    without(old(arena).preceding_siblings(q), new_child)
                }),
            old(arena).is_forest() ==> (final(arena).is_forest() <==> !old(arena).ancestors(self).contains(new_child)),
            old(arena).is_forest() && final(arena).is_forest() ==> final(arena).ancestors(new_child) == seq![self]
                + old(arena).ancestors(self),
            forall|q: NodeId|
                old(arena).is_forest() && final(arena).is_forest() && old(arena).contains(q) && q != new_child
                    ==> #[trigger] final(arena).ancestors(q) == (if old(arena).ancestors(q).contains(new_child) {
                    upto(old(arena).ancestors(q), new_child) + (seq![self] + old(arena).ancestors(self))
                } else {
                    old(arena).ancestors(q)
                }),
    {
        new_child.detach(arena);
        let ghost loosened = arena.links();
        let ghost payloads = arena.payloads();
        proof {
            lemma_detach_well_linked(old(arena).links(), new_child);
            assert(node_ok(loosened, self));
        }
        let last_child_opt;
        {
            let (self_borrow, new_child_borrow) = arena.nodes.get_pair_mut(
                self.0,
                new_child.0,
                "Can not append a node to itself",
            );
            new_child_borrow.parent = Some(self);
            last_child_opt = self_borrow.last_child;
            self_borrow.last_child = Some(new_child);
            if let Some(last_child) = last_child_opt {
                new_child_borrow.previous_sibling = Some(last_child);
            } else {
                self_borrow.first_child = Some(new_child);
            }
        }
        if let Some(last_child) = last_child_opt {
            arena.get_node_mut(last_child).next_sibling = Some(new_child);
        }
        proof {
            assert(arena.links() =~= append_links(old(arena).links(), self, new_child));
            assert(arena.payloads() =~= payloads);
            lemma_attach_last_well_linked(loosened, self, new_child);
            assert forall|q: NodeId| old(arena).contains(q) && q != new_child implies #[trigger] arena.parent(q) == old(
                arena,
            ).parent(q) by {
                assert(arena.links()[q.0 as int].parent == loosened[q.0 as int].parent);
                assert(loosened[q.0 as int].parent == old(arena).links()[q.0 as int].parent);
            }
            law_append_last_child(old(arena).links(), self, new_child);
            assert forall|q: NodeId| old(arena).contains(q) implies #[trigger] arena.children(q) == (if q == self {
                without(old(arena).children(q), new_child).push(new_child)
            } else {
                without(old(arena).children(q), new_child)
            }) by {
                lemma_append_children(old(arena).links(), self, new_child, q);
            }
            assert forall|q: NodeId| old(arena).contains(q) implies #[trigger] arena.following_siblings(q) == (if q
                == new_child {
                Seq::empty()
            } else if old(arena).parent(q) == Some(self) {
                without(old(arena).following_siblings(q), new_child).push(new_child)
            } else {
                without(old(arena).following_siblings(q), new_child)
            }) by {
                lemma_append_siblings(old(arena).links(), self, new_child, q);
            }
            assert forall|q: NodeId| old(arena).contains(q) implies #[trigger] arena.preceding_siblings(q) == (if q
                == new_child {
                without(old(arena).children(self), new_child).reverse()
            } else {
                without(old(arena).preceding_siblings(q), new_child)
            }) by {
                lemma_append_siblings(old(arena).links(), self, new_child, q);
            }
            if old(arena).is_forest() {
                lemma_adopt_ancestors(old(arena).links(), arena.links(), self, new_child);
            }
        }
    }

    /// Prepend a new child to this node, before existing children.
    ///
    /// The child is first detached from where it was. As with `append`,
    /// keeping the child out of this node's ancestors is up to the caller.
    pub fn prepend<T>(self, new_child: NodeId, arena: &mut Arena<T>)
        requires
            old(arena).wf(),
            old(arena).contains(self),
            old(arena).contains(new_child),
            self != new_child,
        ensures
            final(arena).wf(),
            final(arena).links() == prepend_links(old(arena).links(), self, new_child),
            final(arena).payloads() == old(arena).payloads(),
            final(arena).parent(new_child) == Some(self),
            forall|q: NodeId|
                old(arena).contains(q) && q != new_child ==> #[trigger] final(arena).parent(q) == old(arena).parent(q),
            forall|q: NodeId|
                old(arena).contains(q) ==> #[trigger] final(arena).children(q) == (if q == self {
                    seq![new_child] + without(old(arena).children(q), new_child)
                } else {
                    without(old(arena).children(q), new_child)
                }),
            forall|q: NodeId|
                old(arena).contains(q) ==> #[trigger] final(arena).preceding_siblings(q) == (if q == new_child {
                    Seq::empty()
                } else if old(arena).parent(q) == Some(self) {
                    without(old(arena).preceding_siblings(q), new_child).push(new_child)
                } else {
                    without(old(arena).preceding_siblings(q), new_child)
                }),
            forall|q: NodeId|
                old(arena).contains(q) ==> #[trigger] final(arena).following_siblings(q) == (if q == new_child {
                    without(old(arena).children(self), new_child)
                } else {
                    without(old(arena).following_siblings(q), new_child)
                }),
            old(arena).is_forest() ==> (final(arena).is_forest() <==> !old(arena).ancestors(self).contains(new_child)),
            old(arena).is_forest() && final(arena).is_forest() ==> final(arena).ancestors(new_child) == seq![self]
                + old(arena).ancestors(self),
            forall|q: NodeId|
                old(arena).is_forest() && final(arena).is_forest() && old(arena).contains(q) && q != new_child
                    ==> #[trigger] final(arena).ancestors(q) == (if old(arena).ancestors(q).contains(new_child) {
                    upto(old(arena).ancestors(q), new_child) + (seq![self] + old(arena).ancestors(self))
                } else {
                    old(arena).ancestors(q)
                }),
    {
        new_child.detach(arena);
        let ghost loosened = arena.links();
        let ghost payloads = arena.payloads();
        proof {
            lemma_detach_well_linked(old(arena).links(), new_child);
            assert(node_ok(loosened, self));
        }
        let first_child_opt;
        {
            let (self_borrow, new_child_borrow) = arena.nodes.get_pair_mut(
                self.0,
                new_child.0,
                "Can not prepend a node to itself",
            );
            new_child_borrow.parent = Some(self);
            first_child_opt = self_borrow.first_child;
            self_borrow.first_child = Some(new_child);
            if let Some(first_child) = first_child_opt {
                new_child_borrow.next_sibling = Some(first_child);
            } else {
                self_borrow.last_child = Some(new_child);
            }
        }
        if let Some(first_child) = first_child_opt {
            arena.get_node_mut(first_child).previous_sibling = Some(new_child);
        }
        proof {
            assert(arena.links() =~= prepend_links(old(arena).links(), self, new_child));
            assert(arena.payloads() =~= payloads);
            lemma_attach_first_well_linked(loosened, self, new_child);
            assert forall|q: NodeId| old(arena).contains(q) && q != new_child implies #[trigger] arena.parent(q) == old(
                arena,
            ).parent(q) by {
                assert(arena.links()[q.0 as int].parent == loosened[q.0 as int].parent);
                assert(loosened[q.0 as int].parent == old(arena).links()[q.0 as int].parent);
            }
            assert forall|q: NodeId| old(arena).contains(q) implies #[trigger] arena.children(q) == (if q == self {
                seq![new_child] + without(old(arena).children(q), new_child)
            } else {
                without(old(arena).children(q), new_child)
            }) by {
                lemma_prepend_children(old(arena).links(), self, new_child, q);
            }
            assert forall|q: NodeId| old(arena).contains(q) implies #[trigger] arena.preceding_siblings(q) == (if q
                == new_child {
                Seq::empty()
            } else if old(arena).parent(q) == Some(self) {
                without(old(arena).preceding_siblings(q), new_child).push(new_child)
            } else {
                without(old(arena).preceding_siblings(q), new_child)
            }) by {
                lemma_prepend_siblings(old(arena).links(), self, new_child, q);
            }
            assert forall|q: NodeId| old(arena).contains(q) implies #[trigger] arena.following_siblings(q) == (if q
                == new_child {
                without(old(arena).children(self), new_child)
            } else {
                without(old(arena).following_siblings(q), new_child)
            }) by {
                lemma_prepend_siblings(old(arena).links(), self, new_child, q);
            }
            if old(arena).is_forest() {
                lemma_adopt_ancestors(old(arena).links(), arena.links(), self, new_child);
            }
        }
    }

    /// Insert a new sibling after this node.
    ///
    /// The sibling is first detached from where it was, then it takes this
    /// node's parent (none, where this node is a root) and the place directly
    /// behind this node. Keeping the sibling out of this node's ancestors is
    /// up to the caller.
    pub fn insert_after<T>(self, new_sibling: NodeId, arena: &mut Arena<T>)
        requires
            old(arena).wf(),
            old(arena).contains(self),
            old(arena).contains(new_sibling),
            self != new_sibling,
        ensures
            final(arena).wf(),
            final(arena).links() == insert_after_links(old(arena).links(), self, new_sibling),
            final(arena).payloads() == old(arena).payloads(),
            final(arena).parent(new_sibling) == old(arena).parent(self),
            forall|q: NodeId|
                old(arena).contains(q) && q != new_sibling ==> #[trigger] final(arena).parent(q) == old(arena).parent(
                    q,
                ),
            forall|q: NodeId|
                old(arena).contains(q) ==> #[trigger] final(arena).following_siblings(q) == (if q == new_sibling {
                    without(old(arena).following_siblings(self), new_sibling)
                } else if q == self {
                    seq![new_sibling] + without(old(arena).following_siblings(self), new_sibling)
                } else {
                    inserted_after(without(old(arena).following_siblings(q), new_sibling), self, new_sibling)
                }),
            forall|q: NodeId|
                old(arena).contains(q) ==> #[trigger] final(arena).preceding_siblings(q) == (if q == new_sibling {
                    seq![self] + without(old(arena).preceding_siblings(self), new_sibling)
                } else if q == self {
                    without(old(arena).preceding_siblings(self), new_sibling)
                } else {
                    inserted_before(without(old(arena).preceding_siblings(q), new_sibling), self, new_sibling)
                }),
            forall|q: NodeId|
                old(arena).contains(q) ==> #[trigger] final(arena).children(q) == inserted_after(
                    without(old(arena).children(q), new_sibling),
                    self,
                    new_sibling,
                ),
            old(arena).is_forest() ==> (final(arena).is_forest() <==> !old(arena).ancestors(self).contains(
                new_sibling,
            )),
            old(arena).is_forest() && final(arena).is_forest() ==> final(arena).ancestors(new_sibling) == old(
                arena,
            ).ancestors(self),
            forall|q: NodeId|
                old(arena).is_forest() && final(arena).is_forest() && old(arena).contains(q) && q != new_sibling
                    ==> #[trigger] final(arena).ancestors(q) == (if old(arena).ancestors(q).contains(new_sibling) {
                    upto(old(arena).ancestors(q), new_sibling) + old(arena).ancestors(self)
                } else {
                    old(arena).ancestors(q)
                }),
    {
        new_sibling.detach(arena);
        let ghost loosened = arena.links();
        let ghost payloads = arena.payloads();
        proof {
            lemma_detach_well_linked(old(arena).links(), new_sibling);
            assert(node_ok(loosened, self));
            lemma_no_self_sibling(loosened, self);
        }
        let next_sibling_opt;
        let parent_opt;
        {
            let (self_borrow, new_sibling_borrow) = arena.nodes.get_pair_mut(
                self.0,
                new_sibling.0,
                "Can not insert a node after itself",
            );
            parent_opt = self_borrow.parent;
            new_sibling_borrow.parent = parent_opt;
            new_sibling_borrow.previous_sibling = Some(self);
            next_sibling_opt = self_borrow.next_sibling;
            self_borrow.next_sibling = Some(new_sibling);
            if let Some(next_sibling) = next_sibling_opt {
                new_sibling_borrow.next_sibling = Some(next_sibling);
            }
        }
        if let Some(next_sibling) = next_sibling_opt {
            arena.get_node_mut(next_sibling).previous_sibling = Some(new_sibling);
        } else if let Some(parent) = parent_opt {
            arena.get_node_mut(parent).last_child = Some(new_sibling);
        }
        proof {
            assert(arena.links() =~= insert_after_links(old(arena).links(), self, new_sibling));
            assert(arena.payloads() =~= payloads);
            lemma_link_after_well_linked(loosened, self, new_sibling);
            assert forall|q: NodeId| old(arena).contains(q) && q != new_sibling implies
                #[trigger] arena.parent(q) == old(
                arena,
            ).parent(q) by {
                assert(arena.links()[q.0 as int].parent == loosened[q.0 as int].parent);
                assert(loosened[q.0 as int].parent == old(arena).links()[q.0 as int].parent);
            }
            assert forall|q: NodeId| old(arena).contains(q) implies #[trigger] arena.following_siblings(q) == (if q
                == new_sibling {
                without(old(arena).following_siblings(self), new_sibling)
            } else if q == self {
                seq![new_sibling] + without(old(arena).following_siblings(self), new_sibling)
            } else {
                inserted_after(without(old(arena).following_siblings(q), new_sibling), self, new_sibling)
            }) by {
                lemma_insert_after_siblings(old(arena).links(), self, new_sibling, q);
            }
            assert forall|q: NodeId| old(arena).contains(q) implies #[trigger] arena.preceding_siblings(q) == (if q
                == new_sibling {
                seq![self] + without(old(arena).preceding_siblings(self), new_sibling)
            } else if q == self {
                without(old(arena).preceding_siblings(self), new_sibling)
            } else {
                inserted_before(without(old(arena).preceding_siblings(q), new_sibling), self, new_sibling)
            }) by {
                lemma_insert_after_siblings(old(arena).links(), self, new_sibling, q);
            }
            assert forall|q: NodeId| old(arena).contains(q) implies #[trigger] arena.children(q) == inserted_after(
                without(old(arena).children(q), new_sibling),
                self,
                new_sibling,
            ) by {
                lemma_insert_after_children(old(arena).links(), self, new_sibling, q);
            }
            if old(arena).is_forest() {
                lemma_beside_ancestors(old(arena).links(), arena.links(), self, new_sibling);
            }
        }
    }

    /// Insert a new sibling before this node.
    ///
    /// The sibling is first detached from where it was, then it takes this
    /// node's parent (none, where this node is a root) and the place directly
    /// in front of this node. Keeping the sibling out of this node's
    /// ancestors is up to the caller.
    pub fn insert_before<T>(self, new_sibling: NodeId, arena: &mut Arena<T>)
        requires
            old(arena).wf(),
            old(arena).contains(self),
            old(arena).contains(new_sibling),
            self != new_sibling,
        ensures
            final(arena).wf(),
            final(arena).links() == insert_before_links(old(arena).links(), self, new_sibling),
            final(arena).payloads() == old(arena).payloads(),
            final(arena).parent(new_sibling) == old(arena).parent(self),
            forall|q: NodeId|
                old(arena).contains(q) && q != new_sibling ==> #[trigger] final(arena).parent(q) == old(arena).parent(
                    q,
                ),
            forall|q: NodeId|
                old(arena).contains(q) ==> #[trigger] final(arena).preceding_siblings(q) == (if q == new_sibling {
                    without(old(arena).preceding_siblings(self), new_sibling)
                } else if q == self {
                    seq![new_sibling] + without(old(arena).preceding_siblings(self), new_sibling)
                } else {
                    inserted_after(without(old(arena).preceding_siblings(q), new_sibling), self, new_sibling)
                }),
            forall|q: NodeId|
                old(arena).contains(q) ==> #[trigger] final(arena).following_siblings(q) == (if q == new_sibling {
                    seq![self] + without(old(arena).following_siblings(self), new_sibling)
                } else if q == self {
                    without(old(arena).following_siblings(self), new_sibling)
                } else {
                    inserted_before(without(old(arena).following_siblings(q), new_sibling), self, new_sibling)
                }),
            forall|q: NodeId|
                old(arena).contains(q) ==> #[trigger] final(arena).children(q) == inserted_before(
                    without(old(arena).children(q), new_sibling),
                    self,
                    new_sibling,
                ),
            old(arena).is_forest() ==> (final(arena).is_forest() <==> !old(arena).ancestors(self).contains(
                new_sibling,
            )),
            old(arena).is_forest() && final(arena).is_forest() ==> final(arena).ancestors(new_sibling) == old(
                arena,
            ).ancestors(self),
            forall|q: NodeId|
                old(arena).is_forest() && final(arena).is_forest() && old(arena).contains(q) && q != new_sibling
                    ==> #[trigger] final(arena).ancestors(q) == (if old(arena).ancestors(q).contains(new_sibling) {
                    upto(old(arena).ancestors(q), new_sibling) + old(arena).ancestors(self)
                } else {
                    old(arena).ancestors(q)
                }),
    {
        new_sibling.detach(arena);
        let ghost loosened = arena.links();
        let ghost payloads = arena.payloads();
        proof {
            lemma_detach_well_linked(old(arena).links(), new_sibling);
            assert(node_ok(loosened, self));
            lemma_no_self_sibling(loosened, self);
        }
        let previous_sibling_opt;
        let parent_opt;
        {
            let (self_borrow, new_sibling_borrow) = arena.nodes.get_pair_mut(
                self.0,
                new_sibling.0,
                "Can not insert a node before itself",
            );
            parent_opt = self_borrow.parent;
            new_sibling_borrow.parent = parent_opt;
            new_sibling_borrow.next_sibling = Some(self);
            previous_sibling_opt = self_borrow.previous_sibling;
            self_borrow.previous_sibling = Some(new_sibling);
            if let Some(previous_sibling) = previous_sibling_opt {
                new_sibling_borrow.previous_sibling = Some(previous_sibling);
            }
        }
        if let Some(previous_sibling) = previous_sibling_opt {
            arena.get_node_mut(previous_sibling).next_sibling = Some(new_sibling);
        } else if let Some(parent) = parent_opt {
            arena.get_node_mut(parent).first_child = Some(new_sibling);
        }
        proof {
            assert(arena.links() =~= insert_before_links(old(arena).links(), self, new_sibling));
            assert(arena.payloads() =~= payloads);
            lemma_link_before_well_linked(loosened, self, new_sibling);
            assert forall|q: NodeId| old(arena).contains(q) && q != new_sibling implies
                #[trigger] arena.parent(q) == old(
                arena,
            ).parent(q) by {
                assert(arena.links()[q.0 as int].parent == loosened[q.0 as int].parent);
                assert(loosened[q.0 as int].parent == old(arena).links()[q.0 as int].parent);
            }
            assert forall|q: NodeId| old(arena).contains(q) implies #[trigger] arena.preceding_siblings(q) == (if q
                == new_sibling {
                without(old(arena).preceding_siblings(self), new_sibling)
            } else if q == self {
                seq![new_sibling] + without(old(arena).preceding_siblings(self), new_sibling)
            } else {
                inserted_after(without(old(arena).preceding_siblings(q), new_sibling), self, new_sibling)
            }) by {
                lemma_insert_before_siblings(old(arena).links(), self, new_sibling, q);
            }
            assert forall|q: NodeId| old(arena).contains(q) implies #[trigger] arena.following_siblings(q) == (if q
                == new_sibling {
                seq![self] + without(old(arena).following_siblings(self), new_sibling)
            } else if q == self {
                without(old(arena).following_siblings(self), new_sibling)
            } else {
                inserted_before(without(old(arena).following_siblings(q), new_sibling), self, new_sibling)
            }) by {
                lemma_insert_before_siblings(old(arena).links(), self, new_sibling, q);
            }
            assert forall|q: NodeId| old(arena).contains(q) implies #[trigger] arena.children(q) == inserted_before(
                without(old(arena).children(q), new_sibling),
                self,
                new_sibling,
            ) by {
                lemma_insert_before_children(old(arena).links(), self, new_sibling, q);
            }
            if old(arena).is_forest() {
                lemma_beside_ancestors(old(arena).links(), arena.links(), self, new_sibling);
            }
        }
    }
}

} // verus!
