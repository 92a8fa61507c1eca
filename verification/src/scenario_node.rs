//! The storage unit of a scenario: a payload and the links that place it.
//!
//! Nodes live in an arena and refer to one another by index. A node owns its
//! first child and its next sibling; `parent` points back at the one node whose
//! `child` or `neighbor` link leads here, and `bt` says which of the two it is.

use vstd::prelude::*;
use crate::item::Item;

verus! {

/// The index of a node in its arena.
pub type NodeId = usize;

/// How a node hangs from the node that owns it.
#[derive(Debug, Clone, Copy, PartialEq, Eq, Structural)]
pub enum BranchType {
    /// Reached through the owner's `child` link: the head of a scope.
    Child,
    /// Reached through the owner's `neighbor` link: a later member of a scope.
    Neighbor,
}

/// One node of a scenario.
#[derive(Debug)]
pub struct ScenarioNode {
    pub value: Item,
    pub bt: BranchType,
    pub parent: Option<NodeId>,
    pub child: Option<NodeId>,
    pub neighbor: Option<NodeId>,
    pub id: i32,
}

impl ScenarioNode {
    /// A page with no links and identity 0.
    pub fn new() -> (n: ScenarioNode)
        ensures
            n == (ScenarioNode {
                value: Item::Page,
                bt: BranchType::Child,
                parent: None,
                child: None,
                neighbor: None,
                id: 0,
            }),
    {
        ScenarioNode {
            value: Item::Page,
            bt: BranchType::Child,
            parent: None,
            child: None,
            neighbor: None,
            id: 0,
        }
    }

    /// Replaces the payload.
    pub fn set_value(&mut self, v: Item)
        ensures
            *final(self) == (ScenarioNode { value: v, ..*old(self) }),
    {
        self.value = v;
    }

    /// Says how the node hangs from its owner.
    pub fn set_bt(&mut self, bt: BranchType)
        ensures
            *final(self) == (ScenarioNode { bt: bt, ..*old(self) }),
    {
        self.bt = bt;
    }

    /// Names the owner of the node, or says that it has none.
    pub fn set_parent(&mut self, p: Option<NodeId>)
        ensures
            *final(self) == (ScenarioNode { parent: p, ..*old(self) }),
    {
        self.parent = p;
    }

    /// Names the first child of the node.
    pub fn set_child(&mut self, c: NodeId)
        ensures
            *final(self) == (ScenarioNode { child: Some(c), ..*old(self) }),
    {
        self.child = Some(c);
    }

    /// Names the next sibling of the node.
    pub fn set_neighbor(&mut self, n: NodeId)
        ensures
            *final(self) == (ScenarioNode { neighbor: Some(n), ..*old(self) }),
    {
        self.neighbor = Some(n);
    }

    /// Says that the node has no next sibling.
    pub fn unset_neighbor(&mut self)
        ensures
            *final(self) == (ScenarioNode { neighbor: None, ..*old(self) }),
    {
        self.neighbor = None;
    }
}

impl Default for ScenarioNode {
    /// A page with no links and identity 0.
    fn default() -> (n: ScenarioNode)
        ensures
            n == (ScenarioNode {
                value: Item::Page,
                bt: BranchType::Child,
                parent: None,
                child: None,
                neighbor: None,
                id: 0,
            }),
    {
        ScenarioNode::new()
    }
}

} // verus!
