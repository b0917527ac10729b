use crate::links::{
    acyclic, ancestors_of, blank, children_of, following_of, lemma_push_blank, nexts, parents, preceding_of, prevs,
    well_linked, Links,
};
use crate::node::Node;
use crate::nodeid::NodeId;
use crate::path::{lemma_path_none, terminates};
use vstd::prelude::*;

verus! {

/// The store that owns every node of a tree. A node is named by its position
/// in `nodes`, which never changes once the node exists.
#[derive(Clone, Debug)]
pub struct Arena<T> {
    pub nodes: Vec<Node<T>>,
}

impl<T> Arena<T> {
    /// The neighbours of every node, by position.
    pub open spec fn links(&self) -> Seq<Links> {
        Seq::new(self.nodes@.len(), |i: int| self.nodes@[i].links())
    }

    /// The payload of every node, by position.
    pub open spec fn payloads(&self) -> Seq<T> {
        Seq::new(self.nodes@.len(), |i: int| self.nodes@[i].data)
    }

    /// `id` names a node of this arena.
    pub open spec fn contains(&self, id: NodeId) -> bool {
        id.0 < self.nodes@.len()
    }

    /// The linkage is consistent: sibling links are mutual, every chain of
    /// siblings has two ends, and a parent's first and last child are the
    /// ends of the chain of its children.
    pub open spec fn wf(&self) -> bool {
        well_linked(self.links())
    }

    /// No node is its own ancestor.
    pub open spec fn is_forest(&self) -> bool {
        acyclic(self.links())
    }

    /// The walk from `id` towards the root comes to an end: `id` lies on no
    /// cycle of parents, and below none.
    pub open spec fn rooted(&self, id: NodeId) -> bool {
        terminates(parents(self.links()), Some(id))
    }

    /// The parent of `id`, if it has one.
    pub open spec fn parent(&self, id: NodeId) -> Option<NodeId> {
        self.nodes@[id.0 as int].parent
    }

    /// The ancestors of `id`, nearest first.
    pub open spec fn ancestors(&self, id: NodeId) -> Seq<NodeId> {
        ancestors_of(self.links(), id)
    }

    /// The children of `id`, front to back.
    pub open spec fn children(&self, id: NodeId) -> Seq<NodeId> {
        children_of(self.links(), id)
    }

    /// The siblings in front of `id`, nearest first.
    pub open spec fn preceding_siblings(&self, id: NodeId) -> Seq<NodeId> {
        preceding_of(self.links(), id)
    }

    /// The siblings behind `id`, nearest first.
    pub open spec fn following_siblings(&self, id: NodeId) -> Seq<NodeId> {
        following_of(self.links(), id)
    }

    /// Create a new empty arena.
    pub fn new() -> (arena: Arena<T>)
        ensures
            arena.nodes@.len() == 0,
            arena.wf(),
            arena.is_forest(),
    {
        let arena = Arena { nodes: Vec::new() };
        proof {
            assert(arena.links() =~= Seq::<Links>::empty());
        }
        arena
    }

    /// Create a new node from its payload. The node stands alone, and every
    /// node that was there keeps its identifier, its payload and its place.
    pub fn new_node(&mut self, data: T) -> (id: NodeId)
        ensures
            id.0 == old(self).nodes@.len(),
            final(self).links() == old(self).links().push(blank()),
            final(self).payloads() == old(self).payloads().push(data),
            final(self).children(id) == Seq::<NodeId>::empty(),
            final(self).ancestors(id) == Seq::<NodeId>::empty(),
            final(self).preceding_siblings(id) == Seq::<NodeId>::empty(),
            final(self).following_siblings(id) == Seq::<NodeId>::empty(),
            old(self).wf() ==> final(self).wf(),
            old(self).wf() && old(self).is_forest() ==> final(self).is_forest(),
            forall|n: NodeId|
                old(self).wf() && old(self).contains(n) ==> #[trigger] final(self).children(n) == old(self).children(n),
            forall|n: NodeId|
                old(self).wf() && old(self).contains(n) ==> #[trigger] final(self).following_siblings(n) == old(
                    self,
                ).following_siblings(n),
            forall|n: NodeId|
                old(self).wf() && old(self).contains(n) ==> #[trigger] final(self).preceding_siblings(n) == old(
                    self,
                ).preceding_siblings(n),
            forall|n: NodeId|
                old(self).wf() && old(self).is_forest() && old(self).contains(n) ==> #[trigger] final(self).ancestors(n)
                    == old(self).ancestors(n),
    {
        let next_index = self.nodes.len();
        self.nodes.push(
            Node {
                parent: None,
                first_child: None,
                last_child: None,
                previous_sibling: None,
                next_sibling: None,
                data: data,
            },
        );
        proof {
            assert(self.links() =~= old(self).links().push(blank()));
            assert(self.payloads() =~= old(self).payloads().push(data));
            lemma_path_none(nexts(self.links()));
            lemma_path_none(prevs(self.links()));
            lemma_path_none(parents(self.links()));
            if old(self).wf() {
                lemma_push_blank(old(self).links());
            }
        }
        NodeId(next_index)
    }

    /// Returns the number of nodes in the arena.
    pub fn len(&self) -> (n: usize)
        ensures
            n == self.nodes@.len(),
    {
        self.nodes.len()
    }

    /// Returns `true` if the arena has no nodes.
    pub fn is_empty(&self) -> (b: bool)
        ensures
            b == (self.nodes@.len() == 0),
    {
        self.len() == 0
    }

    /// Returns a reference to the node that `id` names.
    pub(crate) fn get_node(&self, id: NodeId) -> (node: &Node<T>)
        requires
            self.contains(id),
        ensures
            *node == self.nodes@[id.0 as int],
    {
        &self.nodes[id.0]
    }

    /// Returns a mutable reference to the node that `id` names. No other
    /// node changes through it.
    pub(crate) fn get_node_mut(&mut self, id: NodeId) -> (node: &mut Node<T>)
        requires
            old(self).contains(id),
        ensures
            *node == old(self).nodes@[id.0 as int],
            final(self).nodes@ == old(self).nodes@.update(id.0 as int, *final(node)),
    {
        &mut self.nodes[id.0]
    }

    /// Returns a mutable reference to the payload of the node that `node`
    /// names. The linkage and every other payload stay as they are.
    pub fn index_mut(&mut self, node: NodeId) -> (data: &mut T)
        requires
            old(self).contains(node),
        ensures
            *data == old(self).payloads()[node.0 as int],
            final(self).links() =~= old(self).links(),
            final(self).payloads() =~= old(self).payloads().update(node.0 as int, *final(data)),
    {
        &mut self.nodes[node.0].data
    }
}

/// Mutable access to two distinct elements of a sequence at once.
pub trait GetPairMut<T> {
    /// The elements, in order.
    spec fn elements(&self) -> Seq<T>;

    /// Get mutable references to the elements at two distinct positions.
    /// Every other element stays as it is. The message names the operation
    /// for callers that report equal positions themselves; it is not read.
    fn get_pair_mut(&mut self, a: usize, b: usize, same_index_error_message: &'static str) -> (pair: (&mut T, &mut T))
        requires
            a != b,
            a < old(self).elements().len(),
            b < old(self).elements().len(),
        ensures
            *pair.0 == old(self).elements()[a as int],
            *pair.1 == old(self).elements()[b as int],
            final(self).elements() == old(self).elements().update(a as int, *final(pair.0)).update(
                b as int,
                *final(pair.1),
            ),
    ;
}

impl<T> GetPairMut<T> for Vec<T> {
    open spec fn elements(&self) -> Seq<T> {
        self@
    }

    fn get_pair_mut(&mut self, a: usize, b: usize, same_index_error_message: &'static str) -> (pair: (
        &mut T,
        &mut T,
    )) {
        let mid: usize = if a < b {
            b
        } else {
            a
        };
        let ghost whole = self@;
        let (xs, ys) = self.split_at_mut(mid);
        let ghost front = xs@;
        let ghost back = ys@;
        if a < b {
            let pair = (&mut xs[a], &mut ys[0]);
            proof {
                assert(front.update(a as int, *final(pair.0)) + back.update(0, *final(pair.1)) =~= whole.update(
                    a as int,
                    *final(pair.0),
                ).update(b as int, *final(pair.1)));
            }
            pair
        } else {
            let pair = (&mut ys[0], &mut xs[b]);
            proof {
                assert(front.update(b as int, *final(pair.1)) + back.update(0, *final(pair.0)) =~= whole.update(
                    a as int,
                    *final(pair.0),
                ).update(b as int, *final(pair.1)));
            }
            pair
        }
    }
}

impl<T> core::ops::Index<NodeId> for Arena<T> {
    type Output = T;

    /// The payload of the node that `node` names.
    fn index(&self, node: NodeId) -> (data: &T)
        ensures
            *data == self.payloads()[node.0 as int],
    {
        &self.nodes[node.0].data
    }
}

impl<T> vstd::std_specs::core::IndexSpecImpl<NodeId> for Arena<T> {
    open spec fn index_req(&self, index: &NodeId) -> bool {
        self.contains(*index)
    }
}

} // verus!
