//! A tree in an arena: every node lives in one growable vector and is named
//! by its position there, so parents, children and siblings are plain
//! indices and restructuring the tree is a matter of rewriting a few of them.
//!
//! Nodes are created by [`Arena::new_node`] and never removed; an identifier
//! stays valid for as long as its arena. The five structural operations
//! (`detach`, `append`, `prepend`, `insert_after`, `insert_before`) and the
//! four walks (`ancestors`, `children`, `preceding_siblings`,
//! `following_siblings`) are methods of [`NodeId`] that take the arena.
//!
//! The contracts speak of an arena through its link table
//! ([`Arena::links`]) and its payloads ([`Arena::payloads`]), and through the
//! walks read off the link table ([`Arena::children`] and its like). The
//! modules are layered:
//!
//! - `path`: walks through a table of optional successors;
//! - `rewire`: how walks change when entries of such a table are rewritten;
//! - `links`: the link table of an arena and what makes it well formed;
//! - `surgery`: the structural operations as rewritings of the link table;
//! - `effects`: what the operations do to children, siblings and ancestors;
//! - `laws`: what holds of the operations together;
//! - `arena`, `node`, `nodeid`, `traverse`, `text`: the executable code.

pub mod arena;
pub mod effects;
pub mod laws;
pub mod links;
pub mod node;
pub mod nodeid;
pub mod path;
pub mod rewire;
pub mod surgery;
pub mod text;
pub mod traverse;

pub use crate::arena::{Arena, GetPairMut};
pub use crate::node::Node;
pub use crate::nodeid::NodeId;
pub use crate::traverse::{Ancestors, Children, FollowingSiblings, PrecedingSiblings};
