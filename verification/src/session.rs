//! One editing session: a tree, the history of its edits, and the commands
//! that a user gives. Every command works on the node that is selected, if
//! one is; every change it makes is recorded, so that it can be taken back.

use vstd::prelude::*;
use crate::editor::root_slot;
use crate::engine::{detached, moved_to_child, moved_to_neighbor, put_back};
use crate::operation_history::{
    redone, undone, HistoryView, Operation, OperationHistory, OperationHistoryItem,
};
use crate::policy::{drop_item, droppable, dropped, records_drop, DropIndicator, DropOutcome};
use crate::scenario_node::{NodeId, ScenarioNode};
use crate::sequencer::{resequenced, sequenced};
use crate::tree::{has_room, planted, MAX_NODES, ScenarioTree, TreeView};

verus! {

/// Why a command did nothing.
#[derive(Debug, Clone, Copy, PartialEq, Eq, Structural)]
pub enum EditError {
    /// The command needs a selected node, and none is selected.
    NotSelected,
    /// The arena has no room for another node.
    Full,
}

/// A tree and the history of its edits.
pub struct EditSession {
    tree: ScenarioTree,
    history: OperationHistory,
}

/// The abstract state of a session.
pub struct SessionView {
    pub tree: TreeView,
    pub history: HistoryView,
}

impl SessionView {
    /// The tree is well formed, its positions are right, and the cursor of
    /// the history is in range.
    pub open spec fn wf(self) -> bool {
        self.tree.wf() && sequenced(self.tree) && self.history.wf()
    }

    /// The node that a selection names, where it names one of the tree.
    pub open spec fn picked(self, selection: Option<NodeId>) -> Option<NodeId> {
        match selection {
            Some(n) => if self.tree.has(n) {
                Some(n)
            } else {
                None
            },
            None => None,
        }
    }

    /// The history after `rec` has been recorded.
    pub open spec fn recorded(self, h: HistoryView, rec: OperationHistoryItem) -> bool {
        &&& h.cursor == self.history.cursor + 1
        &&& h.items == self.history.items.take(self.history.cursor as int).push(rec)
    }
}

impl View for EditSession {
    type V = SessionView;

    closed spec fn view(&self) -> SessionView {
        SessionView { tree: self.tree@, history: self.history@ }
    }
}

impl EditSession {
    /// A session with an empty tree and an empty history.
    pub fn new() -> (s: EditSession)
        ensures
            s@.wf(),
            s@.tree.nodes.len() == 0,
            s@.tree.seqs.len() == 0,
            s@.tree.root is None,
            s@.tree.limit == MAX_NODES,
            s@.history.items.len() == 0,
            s@.history.cursor == 0,
    {
        EditSession { tree: ScenarioTree::new(), history: OperationHistory::new() }
    }

    /// A session on `tree` with an empty history.
    pub fn with_tree(tree: ScenarioTree) -> (s: EditSession)
        requires
            tree@.wf(),
            sequenced(tree@),
        ensures
            s@.wf(),
            s@.tree == tree@,
            s@.history.items.len() == 0,
            s@.history.cursor == 0,
    {
        EditSession { tree: tree, history: OperationHistory::new() }
    }

    /// The tree of the session.
    pub fn tree(&self) -> (t: &ScenarioTree)
        ensures
            t@ == self@.tree,
    {
        &self.tree
    }

    /// The history of the session.
    pub fn history(&self) -> (h: &OperationHistory)
        ensures
            h@ == self@.history,
    {
        &self.history
    }

    /// Takes the selected node out of its scope and records it. Fails, with
    /// nothing changed, where no node of the tree is selected.
    pub fn remove_selected(&mut self, selection: Option<NodeId>) -> (r: Result<(), EditError>)
        requires
            old(self)@.wf(),
        ensures
            final(self)@.wf(),
            r is Ok <==> old(self)@.picked(selection) is Some,
            r is Err ==> r == Err::<(), EditError>(EditError::NotSelected) && final(self)@ == old(self)@,
            r is Ok ==> {
                let n = selection->0;
                let rec = final(self)@.history.items[old(self)@.history.cursor as int];
                &&& final(self)@.tree == resequenced(detached(old(self)@.tree, n))
                &&& old(self)@.recorded(final(self)@.history, rec)
                &&& rec.ope == Operation::Remove
                &&& rec.src matches Some(h) && h.reads(old(self)@.tree, n)
                &&& rec.dest is None
                &&& rec.new_sno is None
            },
    {
        let n = match selection {
            Some(n) => n,
            None => {
                return Err(EditError::NotSelected);
            },
        };
        match self.tree.read_handle(n) {
            None => Err(EditError::NotSelected),
            Some(h) => {
                let rec = OperationHistoryItem::new_from_handle(Operation::Remove, h);
                self.history.push(rec);
                self.tree.remove_node(n);
                Ok(())
            },
        }
    }

    /// Creates a node with the payload of `node` as the first child of the
    /// selected node, or as the root where no node of the tree is selected,
    /// and records it. Gives the new node. Fails, with nothing changed, where
    /// the arena is full.
    pub fn add_child(&mut self, selection: Option<NodeId>, node: ScenarioNode) -> (r: Result<
        NodeId,
        EditError,
    >)
        requires
            old(self)@.wf(),
        ensures
            final(self)@.wf(),
            r is Ok <==> has_room(old(self)@.tree),
            r is Err ==> r == Err::<NodeId, EditError>(EditError::Full) && final(self)@ == old(self)@,
            r matches Ok(n) ==> {
                let v = old(self)@.tree;
                let rec = final(self)@.history.items[old(self)@.history.cursor as int];
                &&& n == v.nodes.len()
                &&& old(self)@.recorded(final(self)@.history, rec)
                &&& rec.new_sno == Some(n)
                &&& rec.dest is None
                &&& match old(self)@.picked(selection) {
                    Some(t) => {
                        &&& final(self)@.tree == resequenced(
                            moved_to_child(planted(v, node.value), t, n),
                        )
                        &&& rec.ope == Operation::AddChild
                        &&& rec.src matches Some(h) && h.reads(v, t)
                    },
                    None => {
                        &&& final(self)@.tree == resequenced(
                            put_back(planted(v, node.value), root_slot(v), n),
                        )
                        &&& rec.ope == Operation::AddRoot
                        &&& rec.src is Some <==> v.root is Some
                        &&& rec.src matches Some(h) ==> h.reads(v, v.root->0)
                    },
                }
            },
    {
        if !self.tree.has_room() {
            return Err(EditError::Full);
        }
        let target = match selection {
            Some(t) => if t < self.tree.len() {
                Some(t)
            } else {
                None
            },
            None => None,
        };
        match target {
            Some(t) => {
                let src = self.tree.read_handle(t);
                match self.tree.add_child(t, node) {
                    Some(n) => {
                        self.history.push(
                            OperationHistoryItem {
                                ope: Operation::AddChild,
                                src: src,
                                dest: None,
                                new_sno: Some(n),
                            },
                        );
                        Ok(n)
                    },
                    None => Err(EditError::Full),
                }
            },
            None => self.add_root(node),
        }
    }

    /// Creates a node with the payload of `node` as the next sibling of the
    /// selected node, or as the root where no node of the tree is selected,
    /// and records it. Gives the new node. Fails, with nothing changed, where
    /// the arena is full.
    pub fn add_neighbor(&mut self, selection: Option<NodeId>, node: ScenarioNode) -> (r: Result<
        NodeId,
        EditError,
    >)
        requires
            old(self)@.wf(),
        ensures
            final(self)@.wf(),
            r is Ok <==> has_room(old(self)@.tree),
            r is Err ==> r == Err::<NodeId, EditError>(EditError::Full) && final(self)@ == old(self)@,
            r matches Ok(n) ==> {
                let v = old(self)@.tree;
                let rec = final(self)@.history.items[old(self)@.history.cursor as int];
                &&& n == v.nodes.len()
                &&& old(self)@.recorded(final(self)@.history, rec)
                &&& rec.new_sno == Some(n)
                &&& rec.dest is None
                &&& match old(self)@.picked(selection) {
                    Some(t) => {
                        &&& final(self)@.tree == resequenced(
                            moved_to_neighbor(planted(v, node.value), t, n),
                        )
                        &&& rec.ope == Operation::AddNeighbor
                        &&& rec.src matches Some(h) && h.reads(v, t)
                    },
                    None => {
                        &&& final(self)@.tree == resequenced(
                            put_back(planted(v, node.value), root_slot(v), n),
                        )
                        &&& rec.ope == Operation::AddRoot
                        &&& rec.src is Some <==> v.root is Some
                        &&& rec.src matches Some(h) ==> h.reads(v, v.root->0)
                    },
                }
            },
    {
        if !self.tree.has_room() {
            return Err(EditError::Full);
        }
        let target = match selection {
            Some(t) => if t < self.tree.len() {
                Some(t)
            } else {
                None
            },
            None => None,
        };
        match target {
            Some(t) => {
                let src = self.tree.read_handle(t);
                match self.tree.add_neighbor(t, node) {
                    Some(n) => {
                        self.history.push(
                            OperationHistoryItem {
                                ope: Operation::AddNeighbor,
                                src: src,
                                dest: None,
                                new_sno: Some(n),
                            },
                        );
                        Ok(n)
                    },
                    None => Err(EditError::Full),
                }
            },
            None => self.add_root(node),
        }
    }

    /// Creates a node with the payload of `node` as the root and records it.
    fn add_root(&mut self, node: ScenarioNode) -> (r: Result<NodeId, EditError>)
        requires
            old(self)@.wf(),
        ensures
            final(self)@.wf(),
            r is Ok <==> has_room(old(self)@.tree),
            r is Err ==> r == Err::<NodeId, EditError>(EditError::Full) && final(self)@ == old(self)@,
            r matches Ok(n) ==> {
                let v = old(self)@.tree;
                let rec = final(self)@.history.items[old(self)@.history.cursor as int];
                &&& n == v.nodes.len()
                &&& old(self)@.recorded(final(self)@.history, rec)
                &&& rec.new_sno == Some(n)
                &&& rec.dest is None
                &&& final(self)@.tree == resequenced(
                    put_back(planted(v, node.value), root_slot(v), n),
                )
                &&& rec.ope == Operation::AddRoot
                &&& rec.src is Some <==> v.root is Some
                &&& rec.src matches Some(h) ==> h.reads(v, v.root->0)
            },
    {
        let src = match self.tree.root() {
            Some(r) => self.tree.read_handle(r),
            None => None,
        };
        match self.tree.add_root(node) {
            Some(n) => {
                self.history.push(
                    OperationHistoryItem {
                        ope: Operation::AddRoot,
                        src: src,
                        dest: None,
                        new_sno: Some(n),
                    },
                );
                Ok(n)
            },
            None => Err(EditError::Full),
        }
    }

    /// Drops `src` on `dest`; `on_label` says whether the label of the row
    /// was hit, `upper` whether its upper half was. The answer says whether
    /// the drop was accepted, and that the row shows no mark any more; a
    /// refused drop changes nothing.
    pub fn drop_on(&mut self, src: NodeId, dest: NodeId, on_label: bool, upper: bool) -> (out:
        DropOutcome)
        requires
            old(self)@.wf(),
        ensures
            final(self)@.wf(),
            out.accepted == droppable(old(self)@.tree, src, dest),
            out.indicator == (DropIndicator { upper: false, lower: false }),
            !out.accepted ==> final(self)@ == old(self)@,
            out.accepted ==> {
                let c = old(self)@.history.cursor as int;
                &&& final(self)@.tree == dropped(old(self)@.tree, src, dest, on_label, upper)
                &&& final(self)@.history.cursor == c + 1
                &&& final(self)@.history.items.len() == c + 1
                &&& final(self)@.history.items.take(c) == old(self)@.history.items.take(c)
                &&& records_drop(
                    final(self)@.history.items[c],
                    old(self)@.tree,
                    src,
                    dest,
                    on_label,
                    upper,
                )
            },
    {
        let accepted = drop_item(&mut self.tree, &mut self.history, src, dest, on_label, upper);
        DropOutcome { accepted: accepted, indicator: DropIndicator::cleared() }
    }

    /// Takes back the last applied edit. Nothing happens, and the answer is
    /// `false`, where no edit is applied.
    pub fn undo(&mut self) -> (done: bool)
        requires
            old(self)@.wf(),
        ensures
            final(self)@.wf(),
            done == (old(self)@.history.cursor > 0),
            final(self)@.history.items == old(self)@.history.items,
            !done ==> final(self)@ == old(self)@,
            done ==> final(self)@.history.cursor == old(self)@.history.cursor - 1 && final(self)@.tree == undone(
                old(self)@.tree,
                old(self)@.history.items[old(self)@.history.cursor - 1],
            ),
    {
        self.history.undo(&mut self.tree)
    }

    /// Makes the last edit that was taken back again. Nothing happens, and
    /// the answer is `false`, where every recorded edit is applied.
    pub fn redo(&mut self) -> (done: bool)
        requires
            old(self)@.wf(),
        ensures
            final(self)@.wf(),
            done == (old(self)@.history.cursor < old(self)@.history.items.len()),
            final(self)@.history.items == old(self)@.history.items,
            !done ==> final(self)@ == old(self)@,
            done ==> final(self)@.history.cursor == old(self)@.history.cursor + 1 && final(self)@.tree == redone(
                old(self)@.tree,
                old(self)@.history.items[old(self)@.history.cursor as int],
            ),
    {
        self.history.redo(&mut self.tree)
    }
}

} // verus!
