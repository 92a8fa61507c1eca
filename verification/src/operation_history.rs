//! The history of the edits made to a tree: a list of records and a cursor
//! that parts the records that are applied from those that can be redone.
//!
//! A record names the kind of the edit, holds the readings taken before it
//! and the node that the edit created. Undoing and redoing a record go by
//! what the record holds, through the same edits that are open to everyone.

use vstd::prelude::*;
use crate::editor::substituted;
use crate::engine::{detached, moved_to_child, moved_to_neighbor, moved_to_parent, put_back, Slot};
use crate::resolver::TreeManipulationHandle;
use crate::scenario_node::{BranchType, NodeId};
use crate::sequencer::{resequenced, sequenced};
use crate::tree::{ScenarioTree, TreeView};

verus! {

/// The kinds of edit that the history records.
#[derive(Debug, Clone, Copy, PartialEq, Eq, Structural)]
pub enum Operation {
    /// A node was taken out of its scope.
    Remove,
    /// A node was created as the first child of the source.
    AddChild,
    /// A node was created as the next sibling of the source.
    AddNeighbor,
    /// A node was created as the root, before the source if there was one.
    AddRoot,
    /// The source became the first child of the item that the destination
    /// hangs from.
    MvToParentChild,
    /// The source took the place of the destination.
    MvToParent,
    /// The source took the place of the item that the destination hangs
    /// from.
    MvToParentPlace,
    /// The source became the first child of the destination.
    MvToDestChild,
    /// The source became the next sibling of the destination.
    MvToDestNeighbor,
}

impl Operation {
    /// The edit relocates a node that was there before.
    pub open spec fn is_move(self) -> bool {
        self == Operation::MvToParentChild || self == Operation::MvToParent || self
            == Operation::MvToParentPlace || self == Operation::MvToDestChild || self
            == Operation::MvToDestNeighbor
    }
}

/// One edit, as the history keeps it.
#[derive(Debug)]
pub struct OperationHistoryItem {
    pub ope: Operation,
    pub src: Option<TreeManipulationHandle>,
    pub dest: Option<TreeManipulationHandle>,
    /// The node that the edit created.
    pub new_sno: Option<NodeId>,
}

impl OperationHistoryItem {
    /// A record of the kind `ope` with the source reading `hdl`.
    pub fn new_from_handle(ope: Operation, hdl: TreeManipulationHandle) -> (r: Self)
        ensures
            r == (OperationHistoryItem { ope: ope, src: Some(hdl), dest: None, new_sno: None }),
    {
        OperationHistoryItem { ope: ope, src: Some(hdl), dest: None, new_sno: None }
    }

    /// The node that the record is about: the source.
    pub open spec fn subject(self) -> Option<NodeId> {
        match self.src {
            Some(h) => Some(h.item.node),
            None => None,
        }
    }

    /// The node next to which a move puts its source: the destination, or the
    /// item that the destination hangs from.
    pub open spec fn anchor(self) -> Option<NodeId> {
        match self.dest {
            Some(d) => anchor_of(self.ope, d),
            None => None,
        }
    }
}

/// The state after the move of the kind `ope` has put `b` next to `a`.
pub open spec fn forward(v: TreeView, ope: Operation, a: NodeId, b: NodeId) -> TreeView {
    match ope {
        Operation::MvToParentChild | Operation::MvToDestChild => resequenced(
            moved_to_child(v, a, b),
        ),
        Operation::MvToParent | Operation::MvToParentPlace => resequenced(
            moved_to_parent(v, a, b),
        ),
        Operation::MvToDestNeighbor => resequenced(moved_to_neighbor(v, a, b)),
        _ => v,
    }
}

/// The state after the edit that `rec` records has been taken back.
///
/// A removed node is put back into the place that its reading describes. A
/// created node is taken out of its scope. After a move, the source takes its
/// place back from the node that the move created and is put back into the
/// place that its reading describes.
pub open spec fn undone(v: TreeView, rec: OperationHistoryItem) -> TreeView {
    match rec.ope {
        Operation::Remove => match rec.src {
            Some(h) => resequenced(put_back(v, h.item.slot(), h.item.node)),
            None => v,
        },
        Operation::AddChild | Operation::AddNeighbor | Operation::AddRoot => match rec.new_sno {
            Some(n) => if v.has(n) {
                resequenced(detached(v, n))
            } else {
                v
            },
            None => v,
        },
        _ => match (rec.src, rec.new_sno) {
            (Some(h), Some(m)) => resequenced(
                put_back(substituted(v, m, h.item.node), h.item.slot(), h.item.node),
            ),
            _ => v,
        },
    }
}

/// The state after the edit that `rec` records has been made again.
///
/// A removed node is taken out of its scope. A created node is put where it
/// was created: below or behind the source, or at the root. After a move was
/// undone, the source is moved next to the anchor of the record again, and
/// the node that the move created takes its place.
pub open spec fn redone(v: TreeView, rec: OperationHistoryItem) -> TreeView {
    match rec.ope {
        Operation::Remove => match rec.src {
            Some(h) => if v.has(h.item.node) {
                resequenced(detached(v, h.item.node))
            } else {
                v
            },
            None => v,
        },
        Operation::AddChild => match (rec.src, rec.new_sno) {
            (Some(h), Some(n)) => resequenced(moved_to_child(v, h.item.node, n)),
            _ => v,
        },
        Operation::AddNeighbor => match (rec.src, rec.new_sno) {
            (Some(h), Some(n)) => resequenced(moved_to_neighbor(v, h.item.node, n)),
            _ => v,
        },
        Operation::AddRoot => match rec.new_sno {
            Some(n) => resequenced(
                put_back(
                    v,
                    Slot {
                        owner: None,
                        link: BranchType::Child,
                        next: rec.subject(),
                        root: true,
                    },
                    n,
                ),
            ),
            None => v,
        },
        _ => match (rec.src, rec.new_sno) {
            (Some(h), Some(m)) => substituted(
                match rec.anchor() {
                    Some(a) => forward(v, rec.ope, a, h.item.node),
                    None => v,
                },
                h.item.node,
                m,
            ),
            _ => v,
        },
    }
}

/// The abstract state of a history.
pub struct HistoryView {
    pub items: Seq<OperationHistoryItem>,
    /// The number of records that are applied.
    pub cursor: nat,
}

/// The records of the edits made, and how many of them are applied.
pub struct OperationHistory {
    items: Vec<OperationHistoryItem>,
    cursor: usize,
}

impl View for OperationHistory {
    type V = HistoryView;

    closed spec fn view(&self) -> HistoryView {
        HistoryView { items: self.items@, cursor: self.cursor as nat }
    }
}

impl HistoryView {
    /// The cursor does not pass the end of the list.
    pub open spec fn wf(self) -> bool {
        self.cursor <= self.items.len()
    }
}

impl OperationHistory {
    /// A history without records.
    pub fn new() -> (h: OperationHistory)
        ensures
            h@.wf(),
            h@.items.len() == 0,
            h@.cursor == 0,
    {
        OperationHistory { items: Vec::new(), cursor: 0 }
    }

    /// The number of records, applied or not.
    pub fn len(&self) -> (n: usize)
        ensures
            n == self@.items.len(),
    {
        self.items.len()
    }

    /// The number of records that are applied.
    pub fn cursor(&self) -> (c: usize)
        ensures
            c == self@.cursor,
    {
        self.cursor
    }

    /// The record at `i`, if there is one.
    pub fn get(&self, i: usize) -> (r: Option<&OperationHistoryItem>)
        ensures
            r == (if i < self@.items.len() {
                Some(&self@.items[i as int])
            } else {
                None
            }),
    {
        if i < self.items.len() {
            Some(&self.items[i])
        } else {
            None
        }
    }

    /// Records an edit. The records behind the cursor, which were undone and
    /// not redone, are dropped; the new record is the last one, and it is
    /// applied.
    pub fn push(&mut self, item: OperationHistoryItem)
        requires
            old(self)@.wf(),
        ensures
            final(self)@.wf(),
            final(self)@.items == old(self)@.items.take(old(self)@.cursor as int).push(item),
            final(self)@.cursor == old(self)@.cursor + 1,
    {
        self.items.truncate(self.cursor);
        self.items.push(item);
        self.cursor = self.items.len();
    }

    /// Takes back the last applied edit on `tree`. Nothing happens, and the
    /// answer is `false`, where no record is applied.
    pub fn undo(&mut self, tree: &mut ScenarioTree) -> (done: bool)
        requires
            old(self)@.wf(),
            old(tree)@.wf(),
            sequenced(old(tree)@),
        ensures
            final(self)@.wf(),
            final(tree)@.wf(),
            sequenced(final(tree)@),
            done == (old(self)@.cursor > 0),
            final(self)@.items == old(self)@.items,
            final(self)@.cursor == (if done {
                old(self)@.cursor - 1
            } else {
                old(self)@.cursor as int
            }),
            final(tree)@ == (if done {
                undone(old(tree)@, old(self)@.items[old(self)@.cursor - 1])
            } else {
                old(tree)@
            }),
    {
        if self.cursor == 0 {
            return false;
        }
        self.cursor = self.cursor - 1;
        revert(tree, &self.items[self.cursor]);
        true
    }

    /// Makes the first edit behind the cursor again on `tree`. Nothing
    /// happens, and the answer is `false`, where every record is applied.
    pub fn redo(&mut self, tree: &mut ScenarioTree) -> (done: bool)
        requires
            old(self)@.wf(),
            old(tree)@.wf(),
            sequenced(old(tree)@),
        ensures
            final(self)@.wf(),
            final(tree)@.wf(),
            sequenced(final(tree)@),
            done == (old(self)@.cursor < old(self)@.items.len()),
            final(self)@.items == old(self)@.items,
            final(self)@.cursor == (if done {
                old(self)@.cursor + 1
            } else {
                old(self)@.cursor
            }),
            final(tree)@ == (if done {
                redone(old(tree)@, old(self)@.items[old(self)@.cursor as int])
            } else {
                old(tree)@
            }),
    {
        if self.cursor >= self.items.len() {
            return false;
        }
        reapply(tree, &self.items[self.cursor]);
        self.cursor = self.cursor + 1;
        true
    }
}

/// Takes back on `tree` the edit that `rec` records.
pub fn revert(tree: &mut ScenarioTree, rec: &OperationHistoryItem)
    requires
        old(tree)@.wf(),
        sequenced(old(tree)@),
    ensures
        final(tree)@.wf(),
        sequenced(final(tree)@),
        final(tree)@ == undone(old(tree)@, *rec),
{
    match rec.ope {
        Operation::Remove => {
            match &rec.src {
                Some(h) => {
                    tree.put_back_node(h.item.to_slot(), h.item.node);
                },
                None => {},
            }
        },
        Operation::AddChild | Operation::AddNeighbor | Operation::AddRoot => {
            match rec.new_sno {
                Some(n) => {
                    tree.remove_node(n);
                },
                None => {},
            }
        },
        _ => {
            match &rec.src {
                Some(h) => match rec.new_sno {
                    Some(m) => {
                        tree.substitute(m, h.item.node);
                        tree.put_back_node(h.item.to_slot(), h.item.node);
                    },
                    None => {},
                },
                None => {},
            }
        },
    }
}

/// Makes on `tree` the edit that `rec` records.
pub fn reapply(tree: &mut ScenarioTree, rec: &OperationHistoryItem)
    requires
        old(tree)@.wf(),
        sequenced(old(tree)@),
    ensures
        final(tree)@.wf(),
        sequenced(final(tree)@),
        final(tree)@ == redone(old(tree)@, *rec),
{
    match rec.ope {
        Operation::Remove => {
            match &rec.src {
                Some(h) => {
                    tree.remove_node(h.item.node);
                },
                None => {},
            }
        },
        Operation::AddChild => {
            match &rec.src {
                Some(h) => match rec.new_sno {
                    Some(n) => {
                        tree.move_to_child(h.item.node, n);
                    },
                    None => {},
                },
                None => {},
            }
        },
        Operation::AddNeighbor => {
            match &rec.src {
                Some(h) => match rec.new_sno {
                    Some(n) => {
                        tree.move_to_neighbor(h.item.node, n);
                    },
                    None => {},
                },
                None => {},
            }
        },
        Operation::AddRoot => {
            match rec.new_sno {
                Some(n) => {
                    let next = match &rec.src {
                        Some(h) => Some(h.item.node),
                        None => None,
                    };
                    tree.put_back_node(
                        Slot { owner: None, link: BranchType::Child, next: next, root: true },
                        n,
                    );
                },
                None => {},
            }
        },
        _ => {
            match &rec.src {
                Some(h) => match rec.new_sno {
                    Some(m) => {
                        match &rec.dest {
                            Some(d) => {
                                move_by(tree, rec.ope, d, h.item.node);
                            },
                            None => {},
                        }
                        tree.substitute(h.item.node, m);
                    },
                    None => {},
                },
                None => {},
            }
        },
    }
}

/// The node next to which a move of the kind `ope` puts its source, given
/// the reading `d` of the destination.
pub open spec fn anchor_of(ope: Operation, d: TreeManipulationHandle) -> Option<NodeId> {
    if ope == Operation::MvToParentChild || ope == Operation::MvToParentPlace {
        d.item.parent
    } else {
        Some(d.item.node)
    }
}

/// Moves `b` as the kind `ope` says, relative to the destination that `d`
/// reads.
pub fn move_by(tree: &mut ScenarioTree, ope: Operation, d: &TreeManipulationHandle, b: NodeId)
    requires
        old(tree)@.wf(),
        sequenced(old(tree)@),
    ensures
        final(tree)@.wf(),
        sequenced(final(tree)@),
        final(tree)@ == (match anchor_of(ope, *d) {
            Some(a) => forward(old(tree)@, ope, a, b),
            None => old(tree)@,
        }),
{
    match ope {
        Operation::MvToParentChild => {
            match d.item.parent {
                Some(a) => {
                    tree.move_to_child(a, b);
                },
                None => {},
            }
        },
        Operation::MvToParentPlace => {
            match d.item.parent {
                Some(a) => {
                    tree.move_to_parent(a, b);
                },
                None => {},
            }
        },
        Operation::MvToParent => {
            tree.move_to_parent(d.item.node, b);
        },
        Operation::MvToDestChild => {
            tree.move_to_child(d.item.node, b);
        },
        Operation::MvToDestNeighbor => {
            tree.move_to_neighbor(d.item.node, b);
        },
        _ => {},
    }
}

} // verus!
