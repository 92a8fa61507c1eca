//! What holds of every well-formed tree and of every edit of one.

use vstd::prelude::*;
use crate::editor::{
    can_stand_in, lemma_planted_sequenced, lemma_substituted, lemma_substituted_back, root_slot,
};
use crate::engine::{
    can_move, can_put_back, child_slot, detached, inserted, lemma_detach_inserted,
    lemma_detached_loose, lemma_detached_under, lemma_inserted_under, lemma_inserted_wf,
    lemma_reinsert, lemma_slots_open, moved_to_child, moved_to_neighbor, moved_to_parent,
    neighbor_slot, parent_slot, put_back, slot_of, slot_open, Slot,
};
use crate::item::Item;
use crate::operation_history::{forward, redone, undone, Operation, OperationHistoryItem};
use crate::policy::{chosen, drop_anchor, droppable, dropped, records_drop};
use crate::resolver::lemma_slot_read;
use crate::scenario_node::{BranchType, NodeId};
use crate::sequencer::{
    lemma_chain_distinct, lemma_chain_seq, lemma_resequenced, lemma_resequenced_ok,
    lemma_scope_facts, recounted, resequenced, scope_of, seq_ok, sequenced,
};
use crate::tree::{
    chain, has_room, in_subtree, is_under, lemma_apart, lemma_planted_wf, lemma_under_rank, linked,
    planted, ranking_of, TreeView,
};

verus! {

/// Every node of a well-formed tree hangs in exactly one way: from the `child`
/// link of its owner, from the `neighbor` link of its owner, or from nothing,
/// as the head of a top-level scope. Its branch type says which, and no other
/// link of the tree leads to it.
pub proof fn law_one_owner(v: TreeView, i: NodeId)
    requires
        v.wf(),
        v.has(i),
    ensures
        ({
            let n = v.nodes[i as int];
            let by_child = n.parent is Some && v.nodes[n.parent->0 as int].child == Some(i);
            let by_neighbor = n.parent is Some && v.nodes[n.parent->0 as int].neighbor == Some(
                i,
            );
            let by_nothing = n.parent is None;
            &&& by_child || by_neighbor || by_nothing
            &&& !(by_child && by_neighbor) && !(by_child && by_nothing) && !(by_neighbor
                && by_nothing)
            &&& by_child ==> n.bt == BranchType::Child
            &&& by_neighbor ==> n.bt == BranchType::Neighbor
            &&& by_nothing ==> n.bt == BranchType::Child
        }),
        forall|j: int|
            0 <= j < v.nodes.len() && (v.nodes[j].child == Some(i) || v.nodes[j].neighbor
                == Some(i)) ==> v.nodes[i as int].parent == Some(j as usize),
{
    lemma_apart(v.nodes, i as int);
    if v.nodes[i as int].parent is Some {
        lemma_apart(v.nodes, v.nodes[i as int].parent->0 as int);
    }
    assert forall|j: int|
        0 <= j < v.nodes.len() && (v.nodes[j].child == Some(i) || v.nodes[j].neighbor == Some(
            i,
        )) implies v.nodes[i as int].parent == Some(j as usize) by {
        assert(linked(v.nodes, j));
    }
}

/// Moving a node next to itself changes nothing.
pub proof fn law_move_onto_self(v: TreeView, a: NodeId)
    ensures
        moved_to_child(v, a, a) == v,
        moved_to_neighbor(v, a, a) == v,
        moved_to_parent(v, a, a) == v,
{
}

/// Moving a node next to a node of its own subtree changes nothing.
pub proof fn law_descendant_guard(v: TreeView, a: NodeId, b: NodeId)
    requires
        v.has(a),
        v.has(b),
        in_subtree(v.nodes, b as int, a as int),
    ensures
        !can_move(v, a, b),
        moved_to_child(v, a, b) == v,
        moved_to_neighbor(v, a, b) == v,
        moved_to_parent(v, a, b) == v,
{
}

/// Putting a node back into the place it held, right after it was taken out
/// of its scope, gives the tree as it was: every link, branch type, payload,
/// identity and position, and the root.
pub proof fn law_undo_remove(v: TreeView, b: NodeId)
    requires
        v.wf(),
        v.has(b),
    ensures
        can_put_back(detached(v, b), slot_of(v, b), b),
        put_back(detached(v, b), slot_of(v, b), b) == v,
{
    let d = detached(v, b);
    lemma_reinsert(v, b);
    lemma_detached_loose(d, b);
    if v.nodes[b as int].child is Some {
        let c = v.nodes[b as int].child->0 as int;
        assert forall|x: int|
            0 <= x < v.nodes.len() && #[trigger] is_under(d.nodes, x, c) implies is_under(
            v.nodes,
            x,
            c,
        ) by {
            lemma_detached_under(v, b, x);
        }
    }
    lemma_back_from(v, d, b);
}

/// Where `w` is a well-formed tree in which only `b` has another place than
/// in `v`, putting `b` back into the place it held in `v` gives `v`.
proof fn lemma_back_from(v: TreeView, w: TreeView, b: NodeId)
    requires
        v.wf(),
        v.has(b),
        w.wf(),
        detached(w, b) == detached(v, b),
        w.nodes[b as int].child == v.nodes[b as int].child,
        v.nodes[b as int].child matches Some(c) ==> forall|x: int|
            0 <= x < v.nodes.len() && #[trigger] is_under(w.nodes, x, c as int) ==> is_under(
                v.nodes,
                x,
                c as int,
            ),
    ensures
        can_put_back(w, slot_of(v, b), b),
        put_back(w, slot_of(v, b), b) == v,
{
    let d = detached(v, b);
    let s = slot_of(v, b);
    let r = ranking_of(v.nodes);
    lemma_reinsert(v, b);
    lemma_apart(v.nodes, b as int);
    assert(w.nodes.len() == v.nodes.len()) by {
        assert(detached(w, b).nodes.len() == w.nodes.len());
        assert(detached(v, b).nodes.len() == v.nodes.len());
    }
    assert(r.fits(v.nodes));
    assert(r.rises(v.nodes, b as int));
    if v.nodes[b as int].child is Some {
        let cb = v.nodes[b as int].child->0 as int;
        assert(r.rises(v.nodes, cb));
        if s.owner is Some {
            let p = s.owner->0 as int;
            if is_under(w.nodes, p, cb) {
                lemma_under_rank(v.nodes, r, p, cb);
            }
        } else if s.next is Some {
            let n = s.next->0 as int;
            lemma_apart(v.nodes, n);
            assert(r.rises(v.nodes, n));
            if is_under(w.nodes, n, cb) {
                lemma_under_rank(v.nodes, r, b as int, cb);
            }
        }
    }
    if s.next is Some {
        lemma_apart(v.nodes, s.next->0 as int);
    }
    assert(put_back(w, s, b).nodes =~= v.nodes);
}

/// Putting a node back into the place it held, right after it was moved, gives
/// the tree as it was before the move.
pub proof fn law_undo_move(v: TreeView, a: NodeId, b: NodeId)
    requires
        v.wf(),
        can_move(v, a, b),
    ensures
        put_back(moved_to_child(v, a, b), slot_of(v, b), b) == v,
        put_back(moved_to_neighbor(v, a, b), slot_of(v, b), b) == v,
        put_back(moved_to_parent(v, a, b), slot_of(v, b), b) == v,
{
    let d = detached(v, b);
    lemma_slots_open(v, a, b);
    lemma_after_insert(v, child_slot(d, a), b);
    lemma_after_insert(v, neighbor_slot(d, a), b);
    lemma_after_insert(v, parent_slot(d, a), b);
}

/// Putting `b` back into the place it held in `v`, after it has left its
/// scope and has been put into the place `s`, gives `v`.
proof fn lemma_after_insert(v: TreeView, s: Slot, b: NodeId)
    requires
        v.wf(),
        v.has(b),
        detached(v, b).wf(),
        slot_open(detached(v, b), s, b),
    ensures
        put_back(inserted(detached(v, b), s, b), slot_of(v, b), b) == v,
{
    let d = detached(v, b);
    let w = inserted(d, s, b);
    lemma_inserted_wf(d, s, b);
    lemma_detach_inserted(d, s, b);
    assert(d.nodes[b as int].child == v.nodes[b as int].child);
    if v.nodes[b as int].child is Some {
        let c = v.nodes[b as int].child->0 as int;
        assert forall|x: int|
            0 <= x < v.nodes.len() && #[trigger] is_under(w.nodes, x, c) implies is_under(
            v.nodes,
            x,
            c,
        ) by {
            lemma_inserted_under(d, s, b, x);
            lemma_detached_under(v, b, x);
        }
    }
    lemma_back_from(v, w, b);
}

/// Taking a node out of its scope a second time changes nothing.
pub proof fn law_remove_twice(v: TreeView, b: NodeId)
    requires
        v.wf(),
        v.has(b),
    ensures
        detached(detached(v, b), b) == detached(v, b),
{
    lemma_reinsert(v, b);
    lemma_detached_loose(detached(v, b), b);
}

/// Putting a node back into the place that it holds changes nothing.
pub proof fn law_put_back_in_place(v: TreeView, b: NodeId)
    requires
        v.wf(),
        v.has(b),
    ensures
        put_back(v, slot_of(v, b), b) == v,
{
    lemma_back_from(v, v, b);
}

/// Where positions are right, the members of a scope carry the numbers 0, 1,
/// 2 and so on in the order of the scope, with no gap and none twice, and
/// every node stands in its scope at its position.
pub proof fn law_positions(v: TreeView, x: NodeId)
    requires
        v.wf(),
        sequenced(v),
        v.has(x),
    ensures
        scope_of(v.nodes, x as int).no_duplicates(),
        scope_of(v.nodes, x as int).len() <= v.nodes.len(),
        forall|j: int|
            0 <= j < scope_of(v.nodes, x as int).len() ==> v.has(
                #[trigger] scope_of(v.nodes, x as int)[j],
            ) && v.seqs[scope_of(v.nodes, x as int)[j] as int] == j,
        v.seqs[x as int] < scope_of(v.nodes, x as int).len(),
        scope_of(v.nodes, x as int)[v.seqs[x as int] as int] == x,
{
    lemma_scope_facts(v, x as int);
}

/// Where positions are right, counting a scope from scratch changes nothing:
/// adding and taking off one at the place of an edit gives the positions that
/// a walk over the whole scope gives.
pub proof fn law_recount_agrees(v: TreeView, head: NodeId)
    requires
        v.wf(),
        sequenced(v),
        v.has(head),
        v.nodes[head as int].bt == BranchType::Child,
    ensures
        recounted(v, head) == v,
{
    let c = chain(v.nodes, Some(head));
    lemma_chain_distinct(v.nodes, head);
    assert(seq_ok(v, head as int));
    assert forall|i: int| 0 <= i < v.seqs.len() implies recounted(v, head).seqs[i]
        == v.seqs[i] by {
        if c.contains(i as usize) {
            let j = c.index_of(i as usize);
            lemma_chain_seq(v, head, j);
        }
    }
    assert(recounted(v, head).seqs =~= v.seqs);
}

/// Two states with the same links, the same root and the same room.
pub open spec fn same_links(x: TreeView, y: TreeView) -> bool {
    x.nodes == y.nodes && x.root == y.root && x.limit == y.limit
}

/// The structural edits do not look at positions.
proof fn lemma_same_links(x: TreeView, y: TreeView, s: Slot, b: NodeId)
    requires
        same_links(x, y),
    ensures
        same_links(detached(x, b), detached(y, b)),
        same_links(inserted(x, s, b), inserted(y, s, b)),
        same_links(put_back(x, s, b), put_back(y, s, b)),
        forall|a: NodeId| same_links(#[trigger] moved_to_child(x, a, b), moved_to_child(y, a, b)),
        forall|a: NodeId|
            same_links(#[trigger] moved_to_neighbor(x, a, b), moved_to_neighbor(y, a, b)),
        forall|a: NodeId|
            same_links(#[trigger] moved_to_parent(x, a, b), moved_to_parent(y, a, b)),
        resequenced(x) == resequenced(y),
{
    let dx = detached(x, b);
    let dy = detached(y, b);
    assert(dx.nodes =~= dy.nodes);
    assert(inserted(x, s, b).nodes =~= inserted(y, s, b).nodes);
    assert forall|a: NodeId| same_links(#[trigger] moved_to_child(x, a, b), moved_to_child(y, a, b)) by {
        assert(inserted(dx, child_slot(dx, a), b).nodes =~= inserted(dy, child_slot(dy, a), b).nodes);
    }
    assert forall|a: NodeId|
        same_links(#[trigger] moved_to_neighbor(x, a, b), moved_to_neighbor(y, a, b)) by {
        assert(inserted(dx, neighbor_slot(dx, a), b).nodes =~= inserted(
            dy,
            neighbor_slot(dy, a),
            b,
        ).nodes);
    }
    assert forall|a: NodeId|
        same_links(#[trigger] moved_to_parent(x, a, b), moved_to_parent(y, a, b)) by {
        assert(inserted(dx, parent_slot(dx, a), b).nodes =~= inserted(dy, parent_slot(dy, a), b).nodes);
    }
    if s.owner is Some {
        let p = s.owner->0;
        assert(same_links(moved_to_child(x, p, b), moved_to_child(y, p, b)));
        assert(same_links(moved_to_neighbor(x, p, b), moved_to_neighbor(y, p, b)));
    } else if s.next is Some {
        assert(same_links(moved_to_parent(x, s.next->0, b), moved_to_parent(y, s.next->0, b)));
    }
    assert(resequenced(x).seqs =~= resequenced(y).seqs);
}

/// Undoing the record of a removal, right after the removal, gives the tree
/// as it was before, positions included.
pub proof fn law_undo_remove_record(v: TreeView, b: NodeId, rec: OperationHistoryItem)
    requires
        v.wf(),
        sequenced(v),
        rec.ope == Operation::Remove,
        rec.src matches Some(h) && h.item.reads(v, b),
    ensures
        undone(resequenced(detached(v, b)), rec) == v,
{
    let h = rec.src->0;
    let d = detached(v, b);
    let w = resequenced(d);
    lemma_slot_read(h.item, v, b);
    law_undo_remove(v, b);
    lemma_same_links(w, d, slot_of(v, b), b);
    lemma_same_links(put_back(w, slot_of(v, b), b), v, slot_of(v, b), b);
    lemma_resequenced(v, v);
}

/// Undoing the record of a creation, right after the creation, leaves every
/// node that was there before as it was, with its links, its position, its
/// payload and its identity, and leaves the root as it was; the created node
/// stands alone.
pub proof fn law_undo_add_record(v: TreeView, value: Item, t: NodeId, rec: OperationHistoryItem)
    requires
        v.wf(),
        sequenced(v),
        has_room(v),
        rec.ope == Operation::AddChild || rec.ope == Operation::AddNeighbor || rec.ope
            == Operation::AddRoot,
        rec.new_sno == Some(v.nodes.len() as usize),
    ensures
        v.has(t) ==> undone(
            resequenced(moved_to_child(planted(v, value), t, v.nodes.len() as usize)),
            rec,
        ) == planted(v, value),
        v.has(t) ==> undone(
            resequenced(moved_to_neighbor(planted(v, value), t, v.nodes.len() as usize)),
            rec,
        ) == planted(v, value),
        undone(
            resequenced(put_back(planted(v, value), root_slot(v), v.nodes.len() as usize)),
            rec,
        ) == planted(v, value),
        planted(v, value).nodes.take(v.nodes.len() as int) == v.nodes,
        planted(v, value).seqs.take(v.nodes.len() as int) == v.seqs,
        planted(v, value).root == v.root,
{
    let w0 = planted(v, value);
    let n = v.nodes.len() as usize;
    lemma_planted_sequenced(v, value);
    lemma_detached_loose(w0, n);
    lemma_resequenced(w0, w0);
    assert(w0.nodes.take(v.nodes.len() as int) =~= v.nodes);
    assert(w0.seqs.take(v.nodes.len() as int) =~= v.seqs);
    if v.has(t) {
        lemma_slots_open(w0, t, n);
        let mc = moved_to_child(w0, t, n);
        lemma_detach_inserted(w0, child_slot(w0, t), n);
        lemma_same_links(resequenced(mc), mc, child_slot(w0, t), n);
        lemma_same_links(detached(resequenced(mc), n), w0, child_slot(w0, t), n);
        let mn = moved_to_neighbor(w0, t, n);
        lemma_detach_inserted(w0, neighbor_slot(w0, t), n);
        lemma_same_links(resequenced(mn), mn, child_slot(w0, t), n);
        lemma_same_links(detached(resequenced(mn), n), w0, child_slot(w0, t), n);
    }
    let mr = put_back(w0, root_slot(v), n);
    if v.root is Some {
        let r = v.root->0;
        lemma_apart(w0.nodes, r as int);
        lemma_slots_open(w0, r, n);
        lemma_detach_inserted(w0, parent_slot(w0, r), n);
    } else {
        assert(detached(mr, n).nodes =~= w0.nodes);
    }
    lemma_same_links(resequenced(mr), mr, root_slot(v), n);
    lemma_same_links(detached(resequenced(mr), n), w0, root_slot(v), n);
}

/// Redoing the record of a removal, right after it was undone, gives the tree
/// as the removal left it.
pub proof fn law_redo_remove_record(v: TreeView, b: NodeId, rec: OperationHistoryItem)
    requires
        v.wf(),
        sequenced(v),
        rec.ope == Operation::Remove,
        rec.src matches Some(h) && h.item.reads(v, b),
    ensures
        redone(undone(resequenced(detached(v, b)), rec), rec) == resequenced(detached(v, b)),
{
    law_undo_remove_record(v, b, rec);
}

/// Redoing the record of a creation, right after it was undone, gives the
/// tree as the creation left it.
pub proof fn law_redo_add_record(v: TreeView, value: Item, t: NodeId, rec: OperationHistoryItem)
    requires
        v.wf(),
        sequenced(v),
        has_room(v),
        rec.new_sno == Some(v.nodes.len() as usize),
    ensures
        v.has(t) && rec.ope == Operation::AddChild && rec.subject() == Some(t) ==> {
            let w = resequenced(moved_to_child(planted(v, value), t, v.nodes.len() as usize));
            redone(undone(w, rec), rec) == w
        },
        v.has(t) && rec.ope == Operation::AddNeighbor && rec.subject() == Some(t) ==> {
            let w = resequenced(moved_to_neighbor(planted(v, value), t, v.nodes.len() as usize));
            redone(undone(w, rec), rec) == w
        },
        rec.ope == Operation::AddRoot && rec.subject() == v.root ==> {
            let w = resequenced(
                put_back(planted(v, value), root_slot(v), v.nodes.len() as usize),
            );
            redone(undone(w, rec), rec) == w
        },
{
    if rec.ope == Operation::AddChild || rec.ope == Operation::AddNeighbor || rec.ope
        == Operation::AddRoot {
        law_undo_add_record(v, value, t, rec);
    }
}

/// Redoing the record of a drop, right after it was undone, gives the tree as
/// the drop left it.
pub proof fn law_redo_drop_record(
    v: TreeView,
    src: NodeId,
    dest: NodeId,
    on_label: bool,
    upper: bool,
    rec: OperationHistoryItem,
)
    requires
        v.wf(),
        sequenced(v),
        droppable(v, src, dest),
        records_drop(rec, v, src, dest, on_label, upper),
    ensures
        redone(undone(dropped(v, src, dest, on_label, upper), rec), rec) == dropped(
            v,
            src,
            dest,
            on_label,
            upper,
        ),
{
    law_undo_drop_record(v, src, dest, on_label, upper, rec);
    lemma_apart(v.nodes, dest as int);
}

/// What hangs below a node in a tree with one more node hung below it
/// before the node was created.
proof fn lemma_planted_under(v: TreeView, value: Item, x: int, y: int)
    requires
        v.wf(),
        has_room(v),
        0 <= x < v.nodes.len(),
        is_under(planted(v, value).nodes, x, y),
    ensures
        is_under(v.nodes, x, y),
    decreases ranking_of(v.nodes).rank[x],
{
    let w = planted(v, value);
    lemma_planted_wf(v, value);
    let r = ranking_of(v.nodes);
    assert(r.fits(v.nodes));
    assert(r.rises(v.nodes, x));
    if x != y {
        lemma_planted_under(v, value, v.nodes[x].parent->0 as int, y);
    }
}

/// An accepted drop is never half done: the source can be moved next to the
/// anchor of the drop, unless it is the anchor itself, and the node that the
/// drop creates can take its place.
pub proof fn law_drop_goes_through(
    v: TreeView,
    src: NodeId,
    dest: NodeId,
    on_label: bool,
    upper: bool,
)
    requires
        v.wf(),
        sequenced(v),
        droppable(v, src, dest),
    ensures
        ({
            let w = planted(v, v.nodes[src as int].value);
            let m = v.nodes.len() as usize;
            let ope = chosen(
                on_label,
                upper,
                v.nodes[dest as int].bt,
                v.nodes[dest as int].parent is Some,
            );
            &&& drop_anchor(v, dest, on_label, upper) matches Some(a) && (a == src || can_move(
                w,
                a,
                src,
            )) && can_stand_in(forward(w, ope, a, src), src, m)
            &&& dropped(v, src, dest, on_label, upper).wf()
            &&& sequenced(dropped(v, src, dest, on_label, upper))
        }),
{
    let value = v.nodes[src as int].value;
    let w = planted(v, value);
    let m = v.nodes.len() as usize;
    let nd = v.nodes[dest as int];
    let ope = chosen(on_label, upper, nd.bt, nd.parent is Some);
    lemma_planted_sequenced(v, value);
    lemma_apart(v.nodes, dest as int);
    lemma_apart(w.nodes, dest as int);
    lemma_apart(w.nodes, src as int);
    let a = drop_anchor(v, dest, on_label, upper)->0;
    if a != src && w.nodes[src as int].child is Some {
        let c = w.nodes[src as int].child->0 as int;
        if is_under(w.nodes, a as int, c) {
            assert(is_under(w.nodes, dest as int, c));
            lemma_planted_under(v, value, dest as int, c);
        }
    }
    lemma_forward_keeps(w, ope, a, src, m);
    lemma_substituted(forward(w, ope, a, src), src, m);
}

/// A move leaves a node that stands alone and is not part of it alone.
proof fn lemma_forward_keeps(w: TreeView, ope: Operation, a: NodeId, b: NodeId, m: NodeId)
    requires
        w.wf(),
        sequenced(w),
        a != m,
        can_stand_in(w, b, m),
        w.seqs[m as int] == 0,
    ensures
        forward(w, ope, a, b).wf(),
        sequenced(forward(w, ope, a, b)),
        can_stand_in(forward(w, ope, a, b), b, m),
        forward(w, ope, a, b).seqs[m as int] == 0,
        same_links(put_back(forward(w, ope, a, b), slot_of(w, b), b), w),
{
    let f = forward(w, ope, a, b);
    let moved = match ope {
        Operation::MvToParentChild | Operation::MvToDestChild => moved_to_child(w, a, b),
        Operation::MvToParent | Operation::MvToParentPlace => moved_to_parent(w, a, b),
        Operation::MvToDestNeighbor => moved_to_neighbor(w, a, b),
        _ => w,
    };
    lemma_apart(w.nodes, b as int);
    lemma_apart(w.nodes, m as int);
    if w.has(a) {
        lemma_apart(w.nodes, a as int);
    }
    law_put_back_in_place(w, b);
    if can_move(w, a, b) {
        let d = detached(w, b);
        lemma_slots_open(w, a, b);
        lemma_apart(d.nodes, a as int);
        lemma_inserted_wf(d, child_slot(d, a), b);
        lemma_inserted_wf(d, neighbor_slot(d, a), b);
        lemma_inserted_wf(d, parent_slot(d, a), b);
        law_undo_move(w, a, b);
    }
    assert(moved.wf());
    assert(moved.nodes[m as int] == w.nodes[m as int]);
    assert(moved.root != Some(m));
    assert(put_back(moved, slot_of(w, b), b) == w);
    if f != w {
        assert(f == resequenced(moved));
        lemma_same_links(f, moved, slot_of(w, b), b);
        lemma_resequenced_ok(moved);
    }
}

/// Undoing the record of a drop, right after the drop, leaves every node that
/// was there before as it was, with its links, its position, its payload and
/// its identity, and leaves the root as it was; the node that the drop
/// created stands alone.
pub proof fn law_undo_drop_record(
    v: TreeView,
    src: NodeId,
    dest: NodeId,
    on_label: bool,
    upper: bool,
    rec: OperationHistoryItem,
)
    requires
        v.wf(),
        sequenced(v),
        droppable(v, src, dest),
        records_drop(rec, v, src, dest, on_label, upper),
    ensures
        undone(dropped(v, src, dest, on_label, upper), rec) == planted(
            v,
            v.nodes[src as int].value,
        ),
        planted(v, v.nodes[src as int].value).nodes.take(v.nodes.len() as int) == v.nodes,
        planted(v, v.nodes[src as int].value).seqs.take(v.nodes.len() as int) == v.seqs,
        planted(v, v.nodes[src as int].value).root == v.root,
{
    let value = v.nodes[src as int].value;
    let w0 = planted(v, value);
    let m = v.nodes.len() as usize;
    let h = rec.src->0;
    let nd = v.nodes[dest as int];
    let ope = chosen(on_label, upper, nd.bt, nd.parent is Some);
    lemma_planted_sequenced(v, value);
    lemma_slot_read(h.item, v, src);
    lemma_apart(v.nodes, dest as int);
    lemma_resequenced(w0, w0);
    assert(w0.nodes.take(v.nodes.len() as int) =~= v.nodes);
    assert(w0.seqs.take(v.nodes.len() as int) =~= v.seqs);
    assert(slot_of(w0, src) == slot_of(v, src));
    let f = match drop_anchor(v, dest, on_label, upper) {
        Some(a) => forward(w0, ope, a, src),
        None => w0,
    };
    if drop_anchor(v, dest, on_label, upper) is Some {
        lemma_forward_keeps(w0, ope, drop_anchor(v, dest, on_label, upper)->0, src, m);
    } else {
        law_put_back_in_place(w0, src);
    }
    lemma_substituted_back(f, src, m);
    let back = put_back(f, slot_of(v, src), src);
    lemma_same_links(back, w0, slot_of(v, src), src);
}

} // verus!
