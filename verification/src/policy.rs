//! What a drop does: which move it stands for, when it is refused, and what
//! it leaves in the tree and in the history.
//!
//! A drop names a source node, a destination node, the region of the
//! destination row that was hit (its label, or the row outside the label), and
//! the half of the row (upper or lower). A drop in the upper half puts the
//! source before the destination or before the item that the destination
//! hangs from; a drop in the lower half puts it below the destination (on the
//! label) or behind it (on the row).

use vstd::prelude::*;
use crate::editor::{lemma_planted_sequenced, substituted};
use crate::operation_history::{forward, move_by, Operation, OperationHistory, OperationHistoryItem};
use crate::scenario_node::{BranchType, NodeId, ScenarioNode};
use crate::sequencer::sequenced;
use crate::tree::{has_room, in_subtree, planted, ScenarioTree, TreeView};

verus! {

/// The move that a drop stands for.
///
/// | half  | destination            | move                                         |
/// |-------|------------------------|----------------------------------------------|
/// | upper | head of a scope, owned | first child of the owner of the destination  |
/// | upper | head of a scope, loose | into the place of the destination            |
/// | upper | later member           | into the place of the sibling before it      |
/// | lower | hit on the label       | first child of the destination               |
/// | lower | hit on the row         | next sibling of the destination              |
pub open spec fn chosen(on_label: bool, upper: bool, bt: BranchType, has_parent: bool) -> Operation {
    if upper {
        if bt == BranchType::Child {
            if has_parent {
                Operation::MvToParentChild
            } else {
                Operation::MvToParent
            }
        } else {
            Operation::MvToParentPlace
        }
    } else if on_label {
        Operation::MvToDestChild
    } else {
        Operation::MvToDestNeighbor
    }
}

/// The move that a drop stands for, given the region and the half that were
/// hit, the branch type of the destination and whether it has an owner.
pub fn choose_operation(on_label: bool, upper: bool, bt: BranchType, has_parent: bool) -> (ope:
    Operation)
    ensures
        ope == chosen(on_label, upper, bt, has_parent),
        ope.is_move(),
{
    if upper {
        if bt == BranchType::Child {
            if has_parent {
                Operation::MvToParentChild
            } else {
                Operation::MvToParent
            }
        } else {
            Operation::MvToParentPlace
        }
    } else if on_label {
        Operation::MvToDestChild
    } else {
        Operation::MvToDestNeighbor
    }
}

/// The marks on a row that show where a drop would go: above the row or
/// below it.
#[derive(Debug, Clone, Copy, PartialEq, Eq, Structural)]
pub struct DropIndicator {
    pub upper: bool,
    pub lower: bool,
}

impl DropIndicator {
    /// No mark: nothing hovers over the row, or the drop is over.
    pub fn cleared() -> (r: DropIndicator)
        ensures
            r == (DropIndicator { upper: false, lower: false }),
    {
        DropIndicator { upper: false, lower: false }
    }

    /// The mark while something hovers over the upper or the lower half of
    /// the row.
    pub fn over(upper: bool) -> (r: DropIndicator)
        ensures
            r == (DropIndicator { upper: upper, lower: !upper }),
    {
        DropIndicator { upper: upper, lower: !upper }
    }
}

/// What a drop gives back: whether it was accepted, and the marks that the
/// row shows from now on.
#[derive(Debug, Clone, Copy, PartialEq, Eq, Structural)]
pub struct DropOutcome {
    pub accepted: bool,
    pub indicator: DropIndicator,
}

/// A drop of `src` on `dest` is accepted: both are nodes of the tree, `dest`
/// is neither `src` nor below it, and there is room for the node that the
/// move creates.
pub open spec fn droppable(v: TreeView, src: NodeId, dest: NodeId) -> bool {
    v.has(src) && v.has(dest) && !in_subtree(v.nodes, src as int, dest as int) && has_room(v)
}

/// The node next to which a drop on `dest` puts its source.
pub open spec fn drop_anchor(v: TreeView, dest: NodeId, on_label: bool, upper: bool) -> Option<
    NodeId,
> {
    let nd = v.nodes[dest as int];
    let ope = chosen(on_label, upper, nd.bt, nd.parent is Some);
    if ope == Operation::MvToParentChild || ope == Operation::MvToParentPlace {
        nd.parent
    } else {
        Some(dest)
    }
}

/// The state after an accepted drop: a node with a copy of the payload of
/// `src` has been created, `src` has been moved next to the anchor of the
/// drop, and the new node has taken its place, children and all. `src` is
/// left standing alone.
pub open spec fn dropped(v: TreeView, src: NodeId, dest: NodeId, on_label: bool, upper: bool) -> TreeView {
    let nd = v.nodes[dest as int];
    let ope = chosen(on_label, upper, nd.bt, nd.parent is Some);
    let w = planted(v, v.nodes[src as int].value);
    let m = v.nodes.len() as usize;
    substituted(
        match drop_anchor(v, dest, on_label, upper) {
            Some(a) => forward(w, ope, a, src),
            None => w,
        },
        src,
        m,
    )
}

/// `rec` is the record of an accepted drop on the tree `v`.
pub open spec fn records_drop(
    rec: OperationHistoryItem,
    v: TreeView,
    src: NodeId,
    dest: NodeId,
    on_label: bool,
    upper: bool,
) -> bool {
    &&& rec.ope == chosen(
        on_label,
        upper,
        v.nodes[dest as int].bt,
        v.nodes[dest as int].parent is Some,
    )
    &&& rec.src matches Some(h) && h.reads(v, src)
    &&& rec.dest matches Some(d) && d.reads(v, dest)
    &&& rec.new_sno == Some(v.nodes.len() as usize)
}

/// Drops `src` on `dest`. The answer says whether the drop was accepted. A
/// refused drop changes neither the tree nor the history. An accepted drop
/// makes the move that the hit region and half stand for and records it.
pub fn drop_item(
    tree: &mut ScenarioTree,
    history: &mut OperationHistory,
    src: NodeId,
    dest: NodeId,
    on_label: bool,
    upper: bool,
) -> (accepted: bool)
    requires
        old(tree)@.wf(),
        sequenced(old(tree)@),
        old(history)@.wf(),
    ensures
        final(tree)@.wf(),
        sequenced(final(tree)@),
        final(history)@.wf(),
        accepted == droppable(old(tree)@, src, dest),
        !accepted ==> final(tree)@ == old(tree)@ && final(history)@ == old(history)@,
        accepted ==> {
            &&& final(tree)@ == dropped(old(tree)@, src, dest, on_label, upper)
            &&& final(history)@.cursor == old(history)@.cursor + 1
            &&& final(history)@.items.len() == old(history)@.cursor + 1
            &&& final(history)@.items.take(old(history)@.cursor as int) == old(history)@.items.take(old(history)@.cursor as int)
            &&& records_drop(
                final(history)@.items[old(history)@.cursor as int],
                old(tree)@,
                src,
                dest,
                on_label,
                upper,
            )
        },
{
    if src >= tree.len() || dest >= tree.len() || !tree.has_room() {
        return false;
    }
    if tree.in_subtree(src, dest) {
        return false;
    }
    let hs = match tree.read_handle(src) {
        Some(h) => h,
        None => {
            return false;
        },
    };
    let hd = match tree.read_handle(dest) {
        Some(h) => h,
        None => {
            return false;
        },
    };
    let ope = choose_operation(on_label, upper, hd.item.bt, hd.item.parent.is_some());
    let copy = tree.node(src).value.clone();
    let mut fresh = ScenarioNode::new();
    fresh.set_value(copy);
    proof {
        lemma_planted_sequenced(tree@, copy);
    }
    let m = match tree.plant(fresh) {
        Some(m) => m,
        None => {
            return false;
        },
    };
    move_by(tree, ope, &hd, src);
    tree.substitute(src, m);
    let rec = OperationHistoryItem { ope: ope, src: Some(hs), dest: Some(hd), new_sno: Some(m) };
    history.push(rec);
    proof {
        let c = old(history)@.cursor as int;
        let kept = old(history)@.items.take(c);
        assert(history@.items.take(c) =~= kept);
        assert(history@.items[c] == rec);
    }
    true
}

} // verus!
