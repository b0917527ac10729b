//! The four walks over the linkage of an arena: towards the root, through
//! the children of a node, and along its siblings in either direction.
//!
//! Each walk borrows the arena, holds the node it will yield next, and moves
//! one link per call of `next`.

use crate::arena::Arena;
use crate::links::{lemma_opt_terminates, nexts, node_ok, parents, prevs, within};
use crate::nodeid::NodeId;
use crate::path::{lemma_path_from, lemma_path_len, lemma_path_suffix, path_from, terminates};
use vstd::prelude::*;

verus! {

/// A walk over the ancestors of a node, nearest first.
pub struct Ancestors<'a, T> {
    arena: &'a Arena<T>,
    node: Option<NodeId>,
}

impl<'a, T> Ancestors<'a, T> {
    #[verifier::type_invariant]
    spec fn inv(self) -> bool {
        &&& self.arena.wf()
        &&& terminates(parents(self.arena.links()), self.node)
        &&& within(self.arena.links(), self.node)
    }

    /// The arena that is walked.
    pub closed spec fn arena(&self) -> Arena<T> {
        *self.arena
    }

    /// The nodes that the walk has yet to yield, in order.
    pub closed spec fn remaining(&self) -> Seq<NodeId> {
        path_from(parents(self.arena.links()), self.node)
    }

    /// A walk over `arena` that yields `start` first.
    pub(crate) fn starting_at(arena: &'a Arena<T>, start: Option<NodeId>) -> (walk: Self)
        requires
            arena.wf(),
            terminates(parents(arena.links()), start),
            within(arena.links(), start),
        ensures
            walk.arena() == *arena,
            walk.remaining() == path_from(parents(arena.links()), start),
    {
        Ancestors { arena: arena, node: start }
    }

    /// Yields the next node of the walk, or `None` once the walk is over.
    pub fn next(&mut self) -> (item: Option<NodeId>)
        ensures
            final(self).arena() == old(self).arena(),
            old(self).remaining().len() == 0 ==> item is None && final(self).remaining() == old(self).remaining(),
            old(self).remaining().len() > 0 ==> item == Some(old(self).remaining()[0]) && final(self).remaining()
                == old(self).remaining().skip(1),
    {
        proof {
            use_type_invariant(&*self);
        }
        match self.node {
            Some(node) => {
                proof {
                    let rest = self.remaining();
                    assert(node_ok(self.arena.links(), node));
                    lemma_path_suffix(parents(self.arena.links()), self.node, rest, 1);
                    lemma_path_from(
                        parents(self.arena.links()),
                        self.arena.links()[node.0 as int].parent,
                        rest.skip(1),
                    );
                }
                self.node = self.arena.get_node(node).parent;
                Some(node)
            },
            None => None,
        }
    }

    /// Walks to the end and returns the number of nodes that were left.
    pub fn count(self) -> (n: usize)
        ensures
            n == self.remaining().len(),
    {
        let mut walk = self;
        let mut n: usize = 0;
        proof {
            use_type_invariant(&walk);
            assert(walk.arena.nodes.len() == walk.arena.nodes@.len());
            lemma_path_len(parents(walk.arena.links()), walk.node, walk.remaining());
        }
        loop
            invariant
                n + walk.remaining().len() == self.remaining().len(),
                self.remaining().len() <= usize::MAX,
            decreases walk.remaining().len(),
        {
            match walk.next() {
                Some(_) => {
                    n = n + 1;
                },
                None => {
                    return n;
                },
            }
        }
    }
}

/// A walk over the siblings in front of a node, nearest first.
pub struct PrecedingSiblings<'a, T> {
    arena: &'a Arena<T>,
    node: Option<NodeId>,
}

impl<'a, T> PrecedingSiblings<'a, T> {
    #[verifier::type_invariant]
    spec fn inv(self) -> bool {
        &&& self.arena.wf()
        &&& within(self.arena.links(), self.node)
    }

    /// The arena that is walked.
    pub closed spec fn arena(&self) -> Arena<T> {
        *self.arena
    }

    /// The nodes that the walk has yet to yield, in order.
    pub closed spec fn remaining(&self) -> Seq<NodeId> {
        path_from(prevs(self.arena.links()), self.node)
    }

    /// A walk over `arena` that yields `start` first.
    pub(crate) fn starting_at(arena: &'a Arena<T>, start: Option<NodeId>) -> (walk: Self)
        requires
            arena.wf(),
            within(arena.links(), start),
        ensures
            walk.arena() == *arena,
            walk.remaining() == path_from(prevs(arena.links()), start),
    {
        PrecedingSiblings { arena: arena, node: start }
    }

    /// Yields the next node of the walk, or `None` once the walk is over.
    pub fn next(&mut self) -> (item: Option<NodeId>)
        ensures
            final(self).arena() == old(self).arena(),
            old(self).remaining().len() == 0 ==> item is None && final(self).remaining() == old(self).remaining(),
            old(self).remaining().len() > 0 ==> item == Some(old(self).remaining()[0]) && final(self).remaining()
                == old(self).remaining().skip(1),
    {
        proof {
            use_type_invariant(&*self);
            lemma_opt_terminates(prevs(self.arena.links()), self.node);
        }
        match self.node {
            Some(node) => {
                proof {
                    let rest = self.remaining();
                    assert(node_ok(self.arena.links(), node));
                    lemma_path_suffix(prevs(self.arena.links()), self.node, rest, 1);
                    lemma_path_from(
                        prevs(self.arena.links()),
                        self.arena.links()[node.0 as int].previous_sibling,
                        rest.skip(1),
                    );
                }
                self.node = self.arena.get_node(node).previous_sibling;
                Some(node)
            },
            None => None,
        }
    }

    /// Walks to the end and returns the number of nodes that were left.
    pub fn count(self) -> (n: usize)
        ensures
            n == self.remaining().len(),
    {
        let mut walk = self;
        let mut n: usize = 0;
        proof {
            use_type_invariant(&walk);
            assert(walk.arena.nodes.len() == walk.arena.nodes@.len());
            lemma_opt_terminates(prevs(walk.arena.links()), walk.node);
            lemma_path_len(prevs(walk.arena.links()), walk.node, walk.remaining());
        }
        loop
            invariant
                n + walk.remaining().len() == self.remaining().len(),
                self.remaining().len() <= usize::MAX,
            decreases walk.remaining().len(),
        {
            match walk.next() {
                Some(_) => {
                    n = n + 1;
                },
                None => {
                    return n;
                },
            }
        }
    }
}

/// A walk over the siblings behind a node, nearest first.
pub struct FollowingSiblings<'a, T> {
    arena: &'a Arena<T>,
    node: Option<NodeId>,
}

impl<'a, T> FollowingSiblings<'a, T> {
    #[verifier::type_invariant]
    spec fn inv(self) -> bool {
        &&& self.arena.wf()
        &&& within(self.arena.links(), self.node)
    }

    /// The arena that is walked.
    pub closed spec fn arena(&self) -> Arena<T> {
        *self.arena
    }

    /// The nodes that the walk has yet to yield, in order.
    pub closed spec fn remaining(&self) -> Seq<NodeId> {
        path_from(nexts(self.arena.links()), self.node)
    }

    /// A walk over `arena` that yields `start` first.
    pub(crate) fn starting_at(arena: &'a Arena<T>, start: Option<NodeId>) -> (walk: Self)
        requires
            arena.wf(),
            within(arena.links(), start),
        ensures
            walk.arena() == *arena,
            walk.remaining() == path_from(nexts(arena.links()), start),
    {
        FollowingSiblings { arena: arena, node: start }
    }

    /// Yields the next node of the walk, or `None` once the walk is over.
    pub fn next(&mut self) -> (item: Option<NodeId>)
        ensures
            final(self).arena() == old(self).arena(),
            old(self).remaining().len() == 0 ==> item is None && final(self).remaining() == old(self).remaining(),
            old(self).remaining().len() > 0 ==> item == Some(old(self).remaining()[0]) && final(self).remaining()
                == old(self).remaining().skip(1),
    {
        proof {
            use_type_invariant(&*self);
            lemma_opt_terminates(nexts(self.arena.links()), self.node);
        }
        match self.node {
            Some(node) => {
                proof {
                    let rest = self.remaining();
                    assert(node_ok(self.arena.links(), node));
                    lemma_path_suffix(nexts(self.arena.links()), self.node, rest, 1);
                    lemma_path_from(
                        nexts(self.arena.links()),
                        self.arena.links()[node.0 as int].next_sibling,
                        rest.skip(1),
                    );
                }
                self.node = self.arena.get_node(node).next_sibling;
                Some(node)
            },
            None => None,
        }
    }

    /// Walks to the end and returns the number of nodes that were left.
    pub fn count(self) -> (n: usize)
        ensures
            n == self.remaining().len(),
    {
        let mut walk = self;
        let mut n: usize = 0;
        proof {
            use_type_invariant(&walk);
            assert(walk.arena.nodes.len() == walk.arena.nodes@.len());
            lemma_opt_terminates(nexts(walk.arena.links()), walk.node);
            lemma_path_len(nexts(walk.arena.links()), walk.node, walk.remaining());
        }
        loop
            invariant
                n + walk.remaining().len() == self.remaining().len(),
                self.remaining().len() <= usize::MAX,
            decreases walk.remaining().len(),
        {
            match walk.next() {
                Some(_) => {
                    n = n + 1;
                },
                None => {
                    return n;
                },
            }
        }
    }
}

/// A walk over the children of a node, front to back.
pub struct Children<'a, T> {
    arena: &'a Arena<T>,
    node: Option<NodeId>,
}

impl<'a, T> Children<'a, T> {
    #[verifier::type_invariant]
    spec fn inv(self) -> bool {
        &&& self.arena.wf()
        &&& within(self.arena.links(), self.node)
    }

    /// The arena that is walked.
    pub closed spec fn arena(&self) -> Arena<T> {
        *self.arena
    }

    /// The nodes that the walk has yet to yield, in order.
    pub closed spec fn remaining(&self) -> Seq<NodeId> {
        path_from(nexts(self.arena.links()), self.node)
    }

    /// A walk over `arena` that yields `start` first.
    pub(crate) fn starting_at(arena: &'a Arena<T>, start: Option<NodeId>) -> (walk: Self)
        requires
            arena.wf(),
            within(arena.links(), start),
        ensures
            walk.arena() == *arena,
            walk.remaining() == path_from(nexts(arena.links()), start),
    {
        Children { arena: arena, node: start }
    }

    /// Yields the next node of the walk, or `None` once the walk is over.
    pub fn next(&mut self) -> (item: Option<NodeId>)
        ensures
            final(self).arena() == old(self).arena(),
            old(self).remaining().len() == 0 ==> item is None && final(self).remaining() == old(self).remaining(),
            old(self).remaining().len() > 0 ==> item == Some(old(self).remaining()[0]) && final(self).remaining()
                == old(self).remaining().skip(1),
    {
        proof {
            use_type_invariant(&*self);
            lemma_opt_terminates(nexts(self.arena.links()), self.node);
        }
        match self.node {
            Some(node) => {
                proof {
                    let rest = self.remaining();
                    assert(node_ok(self.arena.links(), node));
                    lemma_path_suffix(nexts(self.arena.links()), self.node, rest, 1);
                    lemma_path_from(
                        nexts(self.arena.links()),
                        self.arena.links()[node.0 as int].next_sibling,
                        rest.skip(1),
                    );
                }
                self.node = self.arena.get_node(node).next_sibling;
                Some(node)
            },
            None => None,
        }
    }

    /// Walks to the end and returns the number of nodes that were left.
    pub fn count(self) -> (n: usize)
        ensures
            n == self.remaining().len(),
    {
        let mut walk = self;
        let mut n: usize = 0;
        proof {
            use_type_invariant(&walk);
            assert(walk.arena.nodes.len() == walk.arena.nodes@.len());
            lemma_opt_terminates(nexts(walk.arena.links()), walk.node);
            lemma_path_len(nexts(walk.arena.links()), walk.node, walk.remaining());
        }
        loop
            invariant
                n + walk.remaining().len() == self.remaining().len(),
                self.remaining().len() <= usize::MAX,
            decreases walk.remaining().len(),
        {
            match walk.next() {
                Some(_) => {
                    n = n + 1;
                },
                None => {
                    return n;
                },
            }
        }
    }
}

} // verus!
