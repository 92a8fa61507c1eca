//! The structural edits of a scenario tree: taking a node out of its scope and
//! putting it back as the first child of a node, as its next sibling, or in
//! its place.
//!
//! Each edit is stated as a function on the abstract state, and each keeps the
//! tree well formed. An edit that would put a node below itself is refused.
//! The edits here change links and nothing else: the positions of the nodes
//! stay as they are.

use vstd::prelude::*;
use crate::scenario_node::{BranchType, NodeId, ScenarioNode};
use crate::tree::{
    in_subtree, is_under, lemma_apart, lemma_under_rank, linked, numbered, ranking_of, shaped,
    Ranking, ScenarioTree, TreeView,
};

verus! {

/// The record of node `i` once `b` has left its scope: the next sibling of
/// `b`, if any, takes the place, the link and the owner of `b`, and `b` keeps
/// nothing but its children.
pub open spec fn detached_node(v: TreeView, b: NodeId, i: int) -> ScenarioNode {
    let nb = v.nodes[b as int];
    let ni = v.nodes[i];
    if i == b {
        ScenarioNode { bt: BranchType::Child, parent: None, neighbor: None, ..ni }
    } else if nb.neighbor == Some(i as usize) {
        ScenarioNode { bt: nb.bt, parent: nb.parent, ..ni }
    } else if nb.parent == Some(i as usize) {
        if nb.bt == BranchType::Child {
            ScenarioNode { child: nb.neighbor, ..ni }
        } else {
            ScenarioNode { neighbor: nb.neighbor, ..ni }
        }
    } else {
        ni
    }
}

/// The state after `b` has left its scope. Where `b` was the root, its next
/// sibling is the root now.
pub open spec fn detached(v: TreeView, b: NodeId) -> TreeView {
    TreeView {
        nodes: Seq::new(v.nodes.len(), |i: int| detached_node(v, b, i)),
        seqs: v.seqs,
        limit: v.limit,
        root: if v.root == Some(b) {
            v.nodes[b as int].neighbor
        } else {
            v.root
        },
    }
}

/// After `b` has left its scope, the links of node `i` agree with those of
/// the nodes they lead to.
proof fn lemma_detached_linked(v: TreeView, b: NodeId, i: int)
    requires
        shaped(v.nodes),
        v.has(b),
        0 <= i < v.nodes.len(),
    ensures
        linked(detached(v, b).nodes, i),
{
    let ni = v.nodes[i];
    let nb = v.nodes[b as int];
    lemma_apart(v.nodes, b as int);
    lemma_apart(v.nodes, i);
    if nb.parent is Some {
        assert(linked(v.nodes, nb.parent->0 as int));
    }
    if nb.neighbor is Some {
        assert(linked(v.nodes, nb.neighbor->0 as int));
    }
    if ni.parent is Some {
        assert(linked(v.nodes, ni.parent->0 as int));
    }
    if ni.child is Some {
        assert(linked(v.nodes, ni.child->0 as int));
    }
    if ni.neighbor is Some {
        assert(linked(v.nodes, ni.neighbor->0 as int));
    }
}

/// Taking a node out of its scope keeps the tree well formed, and every
/// ranking of the tree stays one.
pub proof fn lemma_detached_wf(v: TreeView, b: NodeId)
    requires
        v.wf(),
        v.has(b),
    ensures
        detached(v, b).wf(),
        detached(v, b).nodes.len() == v.nodes.len(),
        forall|r: Ranking| r.fits(v.nodes) ==> #[trigger] r.fits(detached(v, b).nodes),
{
    let w = detached(v, b);
    let nb = v.nodes[b as int];
    assert(linked(v.nodes, b as int));
    assert forall|i: int| 0 <= i < w.nodes.len() implies #[trigger] linked(w.nodes, i) by {
        lemma_detached_linked(v, b, i);
    }
    assert forall|r: Ranking| r.fits(v.nodes) implies #[trigger] r.fits(w.nodes) by {
        assert forall|i: int| 0 <= i < w.nodes.len() implies #[trigger] r.rises(w.nodes, i) by {
            assert(r.rises(v.nodes, i));
            assert(r.rises(v.nodes, b as int));
        }
    }
    assert(ranking_of(v.nodes).fits(v.nodes));
    assert(ranking_of(v.nodes).fits(w.nodes));
    assert(numbered(w.nodes));
}

/// A place in the tree: the owner whose link leads to it, the kind of that
/// link, the node that follows it, and whether it is the place of the root.
#[derive(Debug, Clone, Copy, PartialEq, Eq, Structural)]
pub struct Slot {
    pub owner: Option<NodeId>,
    pub link: BranchType,
    pub next: Option<NodeId>,
    pub root: bool,
}

/// The place that `b` holds.
pub open spec fn slot_of(v: TreeView, b: NodeId) -> Slot {
    Slot {
        owner: v.nodes[b as int].parent,
        link: v.nodes[b as int].bt,
        next: v.nodes[b as int].neighbor,
        root: v.root == Some(b),
    }
}

/// `b` has no owner and no next sibling, and is not the root.
pub open spec fn loose(v: TreeView, b: NodeId) -> bool {
    &&& v.has(b)
    &&& v.nodes[b as int].parent is None
    &&& v.nodes[b as int].neighbor is None
    &&& v.root != Some(b)
}

/// The loose node `b` can be put into the place `s`: `s` names a place of the
/// tree as it is, outside of what hangs below `b`.
pub open spec fn slot_open(v: TreeView, s: Slot, b: NodeId) -> bool {
    &&& loose(v, b)
    &&& s.owner matches Some(p) ==> {
        &&& p < v.nodes.len()
        &&& p != b
        &&& !in_subtree(v.nodes, b as int, p as int)
        &&& if s.link == BranchType::Child {
            v.nodes[p as int].child == s.next
        } else {
            v.nodes[p as int].neighbor == s.next
        }
    }
    &&& s.owner is None ==> s.link == BranchType::Child
    &&& s.next matches Some(c) ==> {
        &&& c < v.nodes.len()
        &&& c != b
        &&& !in_subtree(v.nodes, b as int, c as int)
        &&& v.nodes[c as int].parent == s.owner
        &&& v.nodes[c as int].bt == s.link
    }
    &&& s.root ==> s.owner is None && v.root == s.next
    &&& (s.next is Some && v.root == s.next) ==> s.root
}

/// The record of node `i` once `b` has been put into the place `s`: `b` gets
/// the owner and the link of the place, and the node that held the place
/// becomes the next sibling of `b`.
pub open spec fn inserted_node(v: TreeView, s: Slot, b: NodeId, i: int) -> ScenarioNode {
    let ni = v.nodes[i];
    if i == b {
        ScenarioNode { bt: s.link, parent: s.owner, neighbor: s.next, ..ni }
    } else if s.next == Some(i as usize) {
        ScenarioNode { bt: BranchType::Neighbor, parent: Some(b), ..ni }
    } else if s.owner == Some(i as usize) {
        if s.link == BranchType::Child {
            ScenarioNode { child: Some(b), ..ni }
        } else {
            ScenarioNode { neighbor: Some(b), ..ni }
        }
    } else {
        ni
    }
}

/// The state after `b` has been put into the place `s`.
pub open spec fn inserted(v: TreeView, s: Slot, b: NodeId) -> TreeView {
    TreeView {
        nodes: Seq::new(v.nodes.len(), |i: int| inserted_node(v, s, b, i)),
        seqs: v.seqs,
        limit: v.limit,
        root: if s.root {
            Some(b)
        } else {
            v.root
        },
    }
}

/// The ranking that witnesses the forest after an insertion: what hangs below
/// the node that held the place is lifted above `b`, and what hangs below `b`
/// is lifted above the owner of the place.
pub open spec fn lifted(v: TreeView, s: Slot, b: NodeId) -> Ranking {
    let r = ranking_of(v.nodes);
    Ranking {
        rank: Seq::new(
            v.nodes.len(),
            |x: int|
                if s.next is Some && is_under(v.nodes, x, s.next->0 as int) {
                    r.rank[x] + 2 * r.bound
                } else if in_subtree(v.nodes, b as int, x) {
                    r.rank[x] + r.bound
                } else {
                    r.rank[x]
                },
        ),
        bound: 3 * r.bound,
    }
}

/// After `b` has been put into the place `s`, the links of node `i` agree
/// with those of the nodes they lead to.
proof fn lemma_inserted_linked(v: TreeView, s: Slot, b: NodeId, i: int)
    requires
        v.wf(),
        slot_open(v, s, b),
        0 <= i < v.nodes.len(),
    ensures
        linked(inserted(v, s, b).nodes, i),
{
    let ni = v.nodes[i];
    lemma_apart(v.nodes, b as int);
    lemma_apart(v.nodes, i);
    if s.owner is Some {
        lemma_apart(v.nodes, s.owner->0 as int);
    }
    if s.next is Some {
        lemma_apart(v.nodes, s.next->0 as int);
    }
    if ni.parent is Some {
        assert(linked(v.nodes, ni.parent->0 as int));
    }
    if ni.child is Some {
        assert(linked(v.nodes, ni.child->0 as int));
    }
    if ni.neighbor is Some {
        assert(linked(v.nodes, ni.neighbor->0 as int));
    }
}

/// After `b` has been put into the place `s`, the lifted ranking puts node
/// `i` above its owner.
proof fn lemma_inserted_rises(v: TreeView, s: Slot, b: NodeId, i: int)
    requires
        v.wf(),
        slot_open(v, s, b),
        0 <= i < v.nodes.len(),
    ensures
        lifted(v, s, b).rises(inserted(v, s, b).nodes, i),
{
    let r = ranking_of(v.nodes);
    let w = inserted(v, s, b);
    let l = lifted(v, s, b);
    assert(r.fits(v.nodes));
    assert(r.rises(v.nodes, i));
    assert(r.rises(v.nodes, b as int));
    lemma_apart(v.nodes, b as int);
    lemma_apart(v.nodes, i);
    if s.next is Some {
        let c = s.next->0 as int;
        assert(r.rises(v.nodes, c));
        lemma_apart(v.nodes, c);
        if s.owner is Some && is_under(v.nodes, s.owner->0 as int, c) {
            lemma_under_rank(v.nodes, r, s.owner->0 as int, c);
        }
    }
    if s.owner is Some {
        assert(r.rises(v.nodes, s.owner->0 as int));
    }
    if i == b {
    } else if s.next == Some(i as usize) {
    } else {
        if v.nodes[i].parent is Some {
            let above = v.nodes[i].parent->0 as int;
            assert(r.rises(v.nodes, above));
            assert(w.nodes[i].parent == Some(above as usize));
        }
    }
}

/// Putting a loose node into an open place keeps the tree well formed.
pub proof fn lemma_inserted_wf(v: TreeView, s: Slot, b: NodeId)
    requires
        v.wf(),
        slot_open(v, s, b),
    ensures
        inserted(v, s, b).wf(),
        inserted(v, s, b).nodes.len() == v.nodes.len(),
{
    let w = inserted(v, s, b);
    let l = lifted(v, s, b);
    assert forall|i: int| 0 <= i < w.nodes.len() implies #[trigger] linked(w.nodes, i) by {
        lemma_inserted_linked(v, s, b, i);
    }
    assert forall|i: int| 0 <= i < w.nodes.len() implies #[trigger] l.rises(w.nodes, i) by {
        lemma_inserted_rises(v, s, b, i);
    }
    assert(l.fits(w.nodes));
    assert(numbered(w.nodes));
    if s.next is Some {
        lemma_apart(v.nodes, s.next->0 as int);
    }
}

/// What hangs below `b` after `b` has left its scope hung below it before.
pub proof fn lemma_detached_under(v: TreeView, b: NodeId, x: int)
    requires
        v.wf(),
        v.has(b),
        0 <= x < v.nodes.len(),
        v.nodes[b as int].child is Some,
        is_under(detached(v, b).nodes, x, v.nodes[b as int].child->0 as int),
    ensures
        is_under(v.nodes, x, v.nodes[b as int].child->0 as int),
    decreases ranking_of(v.nodes).rank[x],
{
    let r = ranking_of(v.nodes);
    let d = detached(v, b);
    let c = v.nodes[b as int].child->0 as int;
    lemma_detached_wf(v, b);
    lemma_apart(v.nodes, b as int);
    assert(r.fits(v.nodes));
    assert(r.fits(d.nodes));
    assert(r.rises(d.nodes, x));
    assert(r.rises(v.nodes, b as int));
    assert(r.rises(v.nodes, c));
    if x != c {
        let p = d.nodes[x].parent->0 as int;
        lemma_detached_under(v, b, p);
        if v.nodes[b as int].neighbor == Some(x as usize) {
            lemma_under_rank(v.nodes, r, p, c);
        }
    }
}

/// `b` may be moved next to `a`: both are nodes of the tree, and `a` is
/// neither `b` nor below it.
pub open spec fn can_move(v: TreeView, a: NodeId, b: NodeId) -> bool {
    v.has(a) && v.has(b) && !in_subtree(v.nodes, b as int, a as int)
}

/// The place of the first child of `a`.
pub open spec fn child_slot(v: TreeView, a: NodeId) -> Slot {
    Slot { owner: Some(a), link: BranchType::Child, next: v.nodes[a as int].child, root: false }
}

/// The place of the next sibling of `a`.
pub open spec fn neighbor_slot(v: TreeView, a: NodeId) -> Slot {
    Slot {
        owner: Some(a),
        link: BranchType::Neighbor,
        next: v.nodes[a as int].neighbor,
        root: false,
    }
}

/// The place that `a` holds, with `a` as the node that follows.
pub open spec fn parent_slot(v: TreeView, a: NodeId) -> Slot {
    Slot {
        owner: v.nodes[a as int].parent,
        link: v.nodes[a as int].bt,
        next: Some(a),
        root: v.root == Some(a),
    }
}

/// The state after `b` has become the first child of `a`; the former first
/// child of `a` is then the next sibling of `b`.
pub open spec fn moved_to_child(v: TreeView, a: NodeId, b: NodeId) -> TreeView {
    if can_move(v, a, b) {
        inserted(detached(v, b), child_slot(detached(v, b), a), b)
    } else {
        v
    }
}

/// The state after `b` has become the next sibling of `a`; the former next
/// sibling of `a` is then the next sibling of `b`.
pub open spec fn moved_to_neighbor(v: TreeView, a: NodeId, b: NodeId) -> TreeView {
    if can_move(v, a, b) {
        inserted(detached(v, b), neighbor_slot(detached(v, b), a), b)
    } else {
        v
    }
}

/// The state after `b` has taken the place of `a`, with `a` as its next
/// sibling.
pub open spec fn moved_to_parent(v: TreeView, a: NodeId, b: NodeId) -> TreeView {
    if can_move(v, a, b) {
        inserted(detached(v, b), parent_slot(detached(v, b), a), b)
    } else {
        v
    }
}

/// After `b` has left its scope, every place next to a node that is not below
/// `b` is open to it.
pub proof fn lemma_slots_open(v: TreeView, a: NodeId, b: NodeId)
    requires
        v.wf(),
        can_move(v, a, b),
    ensures
        detached(v, b).wf(),
        slot_open(detached(v, b), child_slot(detached(v, b), a), b),
        slot_open(detached(v, b), neighbor_slot(detached(v, b), a), b),
        slot_open(detached(v, b), parent_slot(detached(v, b), a), b),
{
    let d = detached(v, b);
    lemma_detached_wf(v, b);
    lemma_apart(v.nodes, b as int);
    lemma_apart(d.nodes, a as int);
    lemma_apart(d.nodes, b as int);
    let na = d.nodes[a as int];
    assert(d.nodes[b as int].child == v.nodes[b as int].child);
    if d.nodes[b as int].child is Some {
        let cb = d.nodes[b as int].child->0 as int;
        if is_under(d.nodes, a as int, cb) {
            lemma_detached_under(v, b, a as int);
        }
        assert(!in_subtree(d.nodes, b as int, a as int));
        if na.child is Some {
            lemma_apart(d.nodes, na.child->0 as int);
        }
        if na.neighbor is Some {
            lemma_apart(d.nodes, na.neighbor->0 as int);
        }
        if na.parent is Some {
            lemma_apart(d.nodes, na.parent->0 as int);
        }
    }
}

/// The state after `b` has been put back into the place `s` that it held
/// before an edit: as the first child or the next sibling of the owner that
/// `s` names, else before the node that followed it, else alone, as the root
/// where it was the root.
pub open spec fn put_back(v: TreeView, s: Slot, b: NodeId) -> TreeView {
    match s.owner {
        Some(p) => if s.link == BranchType::Child {
            moved_to_child(v, p, b)
        } else {
            moved_to_neighbor(v, p, b)
        },
        None => match s.next {
            Some(n) => moved_to_parent(v, n, b),
            None => if v.has(b) {
                TreeView {
                    root: if s.root {
                        Some(b)
                    } else {
                        detached(v, b).root
                    },
                    ..detached(v, b)
                }
            } else {
                v
            },
        },
    }
}

/// Whether `b` can be put back into the place `s`.
pub open spec fn can_put_back(v: TreeView, s: Slot, b: NodeId) -> bool {
    match s.owner {
        Some(p) => can_move(v, p, b),
        None => match s.next {
            Some(n) => can_move(v, n, b),
            None => v.has(b),
        },
    }
}

/// Taking out a node that has no owner and no next sibling, and is not the
/// root, changes nothing.
pub proof fn lemma_detached_loose(v: TreeView, b: NodeId)
    requires
        v.wf(),
        loose(v, b),
    ensures
        detached(v, b) == v,
{
    lemma_apart(v.nodes, b as int);
    assert(detached(v, b).nodes =~= v.nodes);
}

/// Taking a node out again right after it was put into a place gives the
/// state before.
pub proof fn lemma_detach_inserted(d: TreeView, s: Slot, b: NodeId)
    requires
        d.wf(),
        slot_open(d, s, b),
    ensures
        detached(inserted(d, s, b), b) == d,
{
    let w = inserted(d, s, b);
    lemma_apart(d.nodes, b as int);
    if s.next is Some {
        lemma_apart(d.nodes, s.next->0 as int);
    }
    assert(detached(w, b).nodes =~= d.nodes);
}

/// The place that a node held is open to it once it has left, and putting it
/// there gives the state before.
pub proof fn lemma_reinsert(v: TreeView, b: NodeId)
    requires
        v.wf(),
        v.has(b),
    ensures
        detached(v, b).wf(),
        slot_open(detached(v, b), slot_of(v, b), b),
        inserted(detached(v, b), slot_of(v, b), b) == v,
{
    let d = detached(v, b);
    let s = slot_of(v, b);
    let r = ranking_of(v.nodes);
    lemma_detached_wf(v, b);
    lemma_apart(v.nodes, b as int);
    assert(r.fits(v.nodes));
    assert(r.rises(v.nodes, b as int));
    assert(d.nodes[b as int].child == v.nodes[b as int].child);
    if v.nodes[b as int].child is Some {
        let cb = v.nodes[b as int].child->0 as int;
        assert(r.rises(v.nodes, cb));
        if s.owner is Some {
            let p = s.owner->0 as int;
            if is_under(d.nodes, p, cb) {
                lemma_detached_under(v, b, p);
                lemma_under_rank(v.nodes, r, p, cb);
            }
        }
        if s.next is Some {
            let n = s.next->0 as int;
            lemma_apart(v.nodes, n);
            assert(r.rises(v.nodes, n));
            if is_under(d.nodes, n, cb) {
                lemma_detached_under(v, b, n);
                lemma_under_rank(v.nodes, r, b as int, cb);
            }
        }
    }
    if s.next is Some {
        lemma_apart(v.nodes, s.next->0 as int);
    }
    assert(slot_open(d, s, b));
    assert(inserted(d, s, b).nodes =~= v.nodes);
}

/// What hangs below `b` after `b` was put into a place hung below it before.
pub proof fn lemma_inserted_under(d: TreeView, s: Slot, b: NodeId, x: int)
    requires
        d.wf(),
        slot_open(d, s, b),
        0 <= x < d.nodes.len(),
        d.nodes[b as int].child is Some,
        is_under(inserted(d, s, b).nodes, x, d.nodes[b as int].child->0 as int),
    ensures
        is_under(d.nodes, x, d.nodes[b as int].child->0 as int),
    decreases lifted(d, s, b).rank[x],
{
    let w = inserted(d, s, b);
    let l = lifted(d, s, b);
    let c = d.nodes[b as int].child->0 as int;
    lemma_inserted_wf(d, s, b);
    lemma_lifted_fits(d, s, b);
    lemma_apart(d.nodes, b as int);
    assert(l.rises(w.nodes, x));
    if x != c {
        let p = w.nodes[x].parent->0 as int;
        lemma_inserted_under(d, s, b, p);
    }
}

/// The lifted ranking is one of the forest after the insertion.
pub proof fn lemma_lifted_fits(v: TreeView, s: Slot, b: NodeId)
    requires
        v.wf(),
        slot_open(v, s, b),
    ensures
        lifted(v, s, b).fits(inserted(v, s, b).nodes),
{
    let w = inserted(v, s, b);
    let l = lifted(v, s, b);
    assert forall|i: int| 0 <= i < w.nodes.len() implies #[trigger] l.rises(w.nodes, i) by {
        lemma_inserted_rises(v, s, b, i);
    }
}

impl ScenarioNode {
    /// Takes `node` out of its scope. Its next sibling, if it has one, moves
    /// into its place; its own children stay with it.
    pub fn remove(tree: &mut ScenarioTree, node: NodeId)
        requires
            old(tree)@.wf(),
        ensures
            final(tree)@.wf(),
            final(tree)@ == (if old(tree)@.has(node) {
                detached(old(tree)@, node)
            } else {
                old(tree)@
            }),
    {
        if node >= tree.len() {
            return ;
        }
        let bt = tree.node(node).bt;
        let parent = tree.node(node).parent;
        let neighbor = tree.node(node).neighbor;
        let was_root = match tree.root() {
            Some(r) => r == node,
            None => false,
        };
        proof {
            lemma_apart(tree@.nodes, node as int);
            lemma_detached_wf(tree@, node);
        }
        match parent {
            Some(p) => {
                if bt == BranchType::Child {
                    tree.put_child(p, neighbor);
                } else {
                    tree.put_neighbor(p, neighbor);
                }
            },
            None => {},
        }
        match neighbor {
            Some(n) => {
                tree.put_owner(n, bt, parent);
            },
            None => {},
        }
        tree.put_owner(node, BranchType::Child, None);
        tree.put_neighbor(node, None);
        if was_root {
            tree.put_root(neighbor);
        }
        assert(tree@.nodes =~= detached(old(tree)@, node).nodes);
    }

    /// Makes `b` the first child of `a`. The former first child of `a`
    /// becomes the next sibling of `b`. Nothing happens, and the answer is
    /// `false`, where `a` is `b` or lies below `b`, or where one of the two is
    /// no node of the tree.
    pub fn mv_to_child(tree: &mut ScenarioTree, a: NodeId, b: NodeId) -> (done: bool)
        requires
            old(tree)@.wf(),
        ensures
            final(tree)@.wf(),
            done == can_move(old(tree)@, a, b),
            final(tree)@ == moved_to_child(old(tree)@, a, b),
    {
        if !tree.can_move(a, b) {
            return false;
        }
        proof {
            lemma_slots_open(tree@, a, b);
        }
        Self::remove(tree, b);
        let next = tree.node(a).child;
        tree.insert(Slot { owner: Some(a), link: BranchType::Child, next: next, root: false }, b);
        true
    }

    /// Makes `b` the next sibling of `a`. The former next sibling of `a`
    /// becomes the next sibling of `b`. Nothing happens, and the answer is
    /// `false`, where `a` is `b` or lies below `b`, or where one of the two is
    /// no node of the tree.
    pub fn mv_to_neighbor(tree: &mut ScenarioTree, a: NodeId, b: NodeId) -> (done: bool)
        requires
            old(tree)@.wf(),
        ensures
            final(tree)@.wf(),
            done == can_move(old(tree)@, a, b),
            final(tree)@ == moved_to_neighbor(old(tree)@, a, b),
    {
        if !tree.can_move(a, b) {
            return false;
        }
        proof {
            lemma_slots_open(tree@, a, b);
        }
        Self::remove(tree, b);
        let next = tree.node(a).neighbor;
        tree.insert(
            Slot { owner: Some(a), link: BranchType::Neighbor, next: next, root: false },
            b,
        );
        true
    }

    /// Puts `b` into the place of `a`, and makes `a` its next sibling: `b`
    /// gets the owner and the link that `a` had, and is the root where `a`
    /// was. Nothing happens, and the answer is `false`, where `a` is `b` or
    /// lies below `b`, or where one of the two is no node of the tree.
    pub fn mv_to_parent(tree: &mut ScenarioTree, a: NodeId, b: NodeId) -> (done: bool)
        requires
            old(tree)@.wf(),
        ensures
            final(tree)@.wf(),
            done == can_move(old(tree)@, a, b),
            final(tree)@ == moved_to_parent(old(tree)@, a, b),
    {
        if !tree.can_move(a, b) {
            return false;
        }
        proof {
            lemma_slots_open(tree@, a, b);
        }
        Self::remove(tree, b);
        let owner = tree.node(a).parent;
        let link = tree.node(a).bt;
        let root = match tree.root() {
            Some(r) => r == a,
            None => false,
        };
        tree.insert(Slot { owner: owner, link: link, next: Some(a), root: root }, b);
        true
    }
}

impl ScenarioTree {
    /// Whether `x` is `top` or lies below it.
    pub fn in_subtree(&self, top: NodeId, x: NodeId) -> (r: bool)
        requires
            self@.wf(),
        ensures
            r == (self@.has(top) && self@.has(x) && in_subtree(
                self@.nodes,
                top as int,
                x as int,
            )),
    {
        if top >= self.len() || x >= self.len() {
            return false;
        }
        if x == top {
            return true;
        }
        match self.node(top).child {
            None => false,
            Some(c) => {
                let mut cur: NodeId = x;
                loop
                    invariant
                        self@.wf(),
                        top < self@.nodes.len(),
                        x < self@.nodes.len(),
                        x != top,
                        self@.nodes[top as int].child == Some(c),
                        cur < self@.nodes.len(),
                        is_under(self@.nodes, x as int, c as int) == is_under(
                            self@.nodes,
                            cur as int,
                            c as int,
                        ),
                    decreases ranking_of(self@.nodes).rank[cur as int],
                {
                    if cur == c {
                        return true;
                    }
                    proof {
                        assert(ranking_of(self@.nodes).rises(self@.nodes, cur as int));
                    }
                    match self.node(cur).parent {
                        None => {
                            return false;
                        },
                        Some(p) => {
                            cur = p;
                        },
                    }
                }
            },
        }
    }

    /// Whether `b` may be moved next to `a`: both are nodes of the tree, and
    /// `a` is neither `b` nor below it.
    pub fn can_move(&self, a: NodeId, b: NodeId) -> (r: bool)
        requires
            self@.wf(),
        ensures
            r == can_move(self@, a, b),
    {
        a < self.len() && b < self.len() && !self.in_subtree(b, a)
    }

    /// Puts `b` back into the place `s` that it held before an edit, by the
    /// move that the place calls for. The answer is `false`, and nothing
    /// happens, where that move is refused.
    pub fn put_back(&mut self, s: Slot, b: NodeId) -> (done: bool)
        requires
            old(self)@.wf(),
        ensures
            final(self)@.wf(),
            done == can_put_back(old(self)@, s, b),
            final(self)@ == put_back(old(self)@, s, b),
    {
        match s.owner {
            Some(p) => {
                if s.link == BranchType::Child {
                    ScenarioNode::mv_to_child(self, p, b)
                } else {
                    ScenarioNode::mv_to_neighbor(self, p, b)
                }
            },
            None => match s.next {
                Some(n) => ScenarioNode::mv_to_parent(self, n, b),
                None => {
                    if b >= self.len() {
                        return false;
                    }
                    ScenarioNode::remove(self, b);
                    if s.root {
                        self.put_root(Some(b));
                    }
                    true
                },
            },
        }
    }

    /// Puts the loose node `b` into the place `s`.
    pub(crate) fn insert(&mut self, s: Slot, b: NodeId)
        requires
            old(self)@.wf(),
            slot_open(old(self)@, s, b),
        ensures
            final(self)@.wf(),
            final(self)@ == inserted(old(self)@, s, b),
    {
        proof {
            lemma_inserted_wf(self@, s, b);
            lemma_apart(self@.nodes, b as int);
            if s.next is Some {
                lemma_apart(self@.nodes, s.next->0 as int);
            }
        }
        self.put_owner(b, s.link, s.owner);
        self.put_neighbor(b, s.next);
        match s.next {
            Some(c) => {
                self.put_owner(c, BranchType::Neighbor, Some(b));
            },
            None => {},
        }
        match s.owner {
            Some(p) => {
                if s.link == BranchType::Child {
                    self.put_child(p, Some(b));
                } else {
                    self.put_neighbor(p, Some(b));
                }
            },
            None => {},
        }
        if s.root {
            self.put_root(Some(b));
        }
        assert(self@.nodes =~= inserted(old(self)@, s, b).nodes);
    }
}

} // verus!
