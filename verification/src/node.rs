use crate::links::Links;
use crate::nodeid::NodeId;
use crate::text::{link_text, links_chars};
use vstd::prelude::*;

verus! {

/// A node within a particular arena: five optional neighbours and a payload.
#[derive(Clone, Debug)]
pub struct Node<T> {
    pub parent: Option<NodeId>,
    pub previous_sibling: Option<NodeId>,
    pub next_sibling: Option<NodeId>,
    pub first_child: Option<NodeId>,
    pub last_child: Option<NodeId>,
    /// The payload stored in the tree.
    pub data: T,
}

impl<T> Node<T> {
    /// The neighbours of the node, without its payload.
    pub open spec fn links(&self) -> Links {
        Links {
            parent: self.parent,
            previous_sibling: self.previous_sibling,
            next_sibling: self.next_sibling,
            first_child: self.first_child,
            last_child: self.last_child,
        }
    }

    /// The links of the node in print, each behind its label. The payload
    /// is left out.
    pub fn to_string(&self) -> (text: String)
        ensures
            text@ == links_chars(
                self.parent,
                self.previous_sibling,
                self.next_sibling,
                self.first_child,
                self.last_child,
            ),
    {
        let mut text = String::from_str("Parent: ");
        text.append(link_text(self.parent).as_str());
        text.append(", Previous sibling: ");
        text.append(link_text(self.previous_sibling).as_str());
        text.append(", Next sibling: ");
        text.append(link_text(self.next_sibling).as_str());
        text.append(", First child: ");
        text.append(link_text(self.first_child).as_str());
        text.append(", Last child: ");
        text.append(link_text(self.last_child).as_str());
        text
    }
}

} // verus!
