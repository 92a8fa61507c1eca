//! An editable, ordered tree of scenario nodes with a flattened,
//! position-numbered view of each sibling scope, and a history of the edits
//! made to it that can be undone and redone.
//!
//! The nodes live in an arena ([`tree`]) and are linked as first child and
//! next sibling ([`scenario_node`]). The structural edits ([`engine`]) take a
//! node out of its scope and put it in elsewhere; they refuse to put a node
//! below itself. Scopes are read off the links, and every node carries its
//! position in its scope ([`sequencer`]); the edits of [`editor`] keep the
//! positions right. A reading ([`resolver`]) says where a node stood when it
//! was taken. A drop is turned into a move by [`policy`], edits are recorded,
//! undone and redone by [`operation_history`], and [`session`] holds a tree
//! and its history together. [`builder`] takes hand-linked nodes as a tree,
//! and [`dump`] writes nodes out for diagnosis. What holds of all trees and
//! edits is stated and proved in [`laws`] and [`projection`].

pub mod item;
pub mod scenario_node;
pub mod tree;
pub mod engine;
pub mod sequencer;
pub mod editor;
pub mod resolver;
pub mod operation_history;
pub mod policy;
pub mod session;
pub mod builder;
pub mod dump;
pub mod projection;
pub mod laws;
