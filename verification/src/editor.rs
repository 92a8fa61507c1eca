//! Edits that keep positions right: each changes the links of the tree
//! through one structural edit, adds one to the positions from the index
//! where a node comes in, and takes one off the positions behind the index
//! where a node goes out.

use vstd::prelude::*;
use crate::engine::{
    can_move, can_put_back, detached, inserted, lemma_detached_loose, lemma_detached_wf,
    lemma_inserted_wf, lemma_slots_open, loose, moved_to_child, moved_to_neighbor, moved_to_parent,
    put_back, slot_open, Slot,
};
use crate::scenario_node::{BranchType, NodeId, ScenarioNode};
use crate::sequencer::{
    lemma_resequenced, lemma_scope_facts, lemma_seq_bound, listed, reindexed, resequenced,
    scope_of, seq_ok, sequenced,
};
use crate::tree::{
    has_room, lemma_apart, lemma_planted_wf, linked, planted, ranking_of, ScenarioTree, TreeView,
};

verus! {

/// The position at which a node comes into the place `s`.
pub open spec fn entry(v: TreeView, s: Slot) -> int {
    match s.next {
        Some(c) => v.seqs[c as int] as int,
        None => match s.owner {
            Some(p) => if s.link == BranchType::Neighbor {
                v.seqs[p as int] + 1
            } else {
                0
            },
            None => 0,
        },
    }
}

/// The positions after a gap has been opened for `b` at the place `s`.
pub open spec fn gap_opened(v: TreeView, s: Slot, b: NodeId) -> Seq<usize> {
    let gap = match s.next {
        Some(c) => reindexed(v, scope_of(v.nodes, c as int), entry(v, s), 1),
        None => v,
    };
    gap.seqs.update(b as int, entry(v, s) as usize)
}

/// Opening a gap at a place and putting a loose node into it keeps positions
/// right.
pub proof fn lemma_opened(v: TreeView, s: Slot, b: NodeId)
    requires
        v.wf(),
        sequenced(v),
        slot_open(v, s, b),
    ensures
        sequenced(TreeView { seqs: gap_opened(v, s, b), ..inserted(v, s, b) }),
        0 <= entry(v, s) < usize::MAX,
{
    let w = TreeView { seqs: gap_opened(v, s, b), ..inserted(v, s, b) };
    let e = entry(v, s);
    lemma_apart(v.nodes, b as int);
    if s.owner is Some {
        lemma_seq_bound(v, s.owner->0 as int);
        lemma_apart(v.nodes, s.owner->0 as int);
    }
    if s.next is Some {
        let c = s.next->0 as int;
        lemma_scope_facts(v, c);
        lemma_apart(v.nodes, c);
        assert(seq_ok(v, c));
    }
    assert forall|i: int| 0 <= i < w.nodes.len() implies #[trigger] seq_ok(w, i) by {
        assert(seq_ok(v, i));
        lemma_apart(v.nodes, i);
        if s.next is Some {
            let c = s.next->0 as int;
            let full = scope_of(v.nodes, c);
            if listed(full, e, i) {
                let j = choose|j: int| e <= j < full.len() && full[j] == i;
                assert(full[j] == i);
                if j > e {
                    assert(full[j - 1] == v.nodes[i].parent->0);
                    assert(listed(full, e, full[j - 1] as int));
                }
            } else if i != b {
                if v.nodes[i].bt == BranchType::Neighbor && v.nodes[i].parent is Some {
                    let above = v.nodes[i].parent->0 as int;
                    if listed(full, e, above) {
                        let j = choose|j: int| e <= j < full.len() && full[j] == above;
                        assert(full[j] == above);
                        assert(linked(v.nodes, i));
                        if j + 1 < full.len() {
                            assert(full[j + 1] == i);
                        }
                    }
                }
            } else {
                if s.owner is Some && listed(full, e, s.owner->0 as int) {
                    let j = choose|j: int| e <= j < full.len() && full[j] == s.owner->0;
                    assert(full[j] == s.owner->0);
                    assert(full[e] == c);
                }
                assert(full[e] == c);
                assert(listed(full, e, c));
            }
        }
    }
}

/// The positions after the gap that `b` leaves in its scope has been closed.
pub open spec fn gap_closed(v: TreeView, b: NodeId) -> Seq<usize> {
    reindexed(v, scope_of(v.nodes, b as int), v.seqs[b as int] + 1, -1).seqs.update(b as int, 0)
}

/// Taking a node out of its scope and closing the gap keeps positions right.
pub proof fn lemma_closed(v: TreeView, b: NodeId)
    requires
        v.wf(),
        sequenced(v),
        v.has(b),
    ensures
        sequenced(TreeView { seqs: gap_closed(v, b), ..detached(v, b) }),
{
    let w = TreeView { seqs: gap_closed(v, b), ..detached(v, b) };
    let full = scope_of(v.nodes, b as int);
    let k = v.seqs[b as int] as int;
    lemma_scope_facts(v, b as int);
    lemma_apart(v.nodes, b as int);
    assert(seq_ok(v, b as int));
    assert(full[k] == b);
    assert forall|i: int| 0 <= i < w.nodes.len() implies #[trigger] seq_ok(w, i) by {
        assert(seq_ok(v, i));
        lemma_apart(v.nodes, i);
        if i == b {
        } else if listed(full, k + 1, i) {
            let j = choose|j: int| k + 1 <= j < full.len() && full[j] == i;
            assert(full[j] == i);
            assert(full[j - 1] == v.nodes[i].parent->0);
            if j > k + 1 {
                assert(listed(full, k + 1, full[j - 1] as int));
            } else {
                if k > 0 {
                    assert(full[k - 1] == v.nodes[b as int].parent->0);
                    if listed(full, k + 1, full[k - 1] as int) {
                        let m = choose|m: int|
                            k + 1 <= m < full.len() && #[trigger] full[m] == full[k - 1];
                        assert(full[m] == full[k - 1]);
                    }
                }
            }
        } else {
            if v.nodes[i].bt == BranchType::Neighbor && v.nodes[i].parent is Some {
                let above = v.nodes[i].parent->0 as int;
                if above == b {
                    assert(k + 1 < full.len());
                    assert(full[k + 1] == i);
                    assert(listed(full, k + 1, i));
                } else if listed(full, k + 1, above) {
                    let j = choose|j: int| k + 1 <= j < full.len() && full[j] == above;
                    assert(full[j] == above);
                    assert(linked(v.nodes, i));
                    if j + 1 < full.len() {
                        assert(full[j + 1] == i);
                    }
                }
            }
        }
    }
}

/// A newly created node has its position, and the others keep theirs.
pub proof fn lemma_planted_sequenced(v: TreeView, value: crate::item::Item)
    requires
        v.wf(),
        sequenced(v),
        has_room(v),
    ensures
        planted(v, value).wf(),
        sequenced(planted(v, value)),
        loose(planted(v, value), v.nodes.len() as usize),
        planted(v, value).nodes[v.nodes.len() as int].child is None,
{
    let w = planted(v, value);
    lemma_planted_wf(v, value);
    assert forall|i: int| 0 <= i < w.nodes.len() implies #[trigger] seq_ok(w, i) by {
        if i < v.nodes.len() {
            assert(seq_ok(v, i));
            assert(linked(v.nodes, i));
        }
    }
}

/// `m` can take the place of `s`: both are nodes of the tree, and `m` stands
/// alone, with no owner, no next sibling and no child, and is not the root.
pub open spec fn can_stand_in(v: TreeView, s: NodeId, m: NodeId) -> bool {
    &&& v.has(s)
    &&& s != m
    &&& loose(v, m)
    &&& v.nodes[m as int].child is None
}

/// The record of node `i` once `m` has taken the place of `s`.
pub open spec fn substituted_node(v: TreeView, s: NodeId, m: NodeId, i: int) -> ScenarioNode {
    let ns = v.nodes[s as int];
    let ni = v.nodes[i];
    if i == m {
        ScenarioNode { bt: ns.bt, parent: ns.parent, child: ns.child, neighbor: ns.neighbor, ..ni }
    } else if i == s {
        ScenarioNode { bt: BranchType::Child, parent: None, child: None, neighbor: None, ..ni }
    } else if ns.parent == Some(i as usize) {
        if ns.bt == BranchType::Child {
            ScenarioNode { child: Some(m), ..ni }
        } else {
            ScenarioNode { neighbor: Some(m), ..ni }
        }
    } else if ns.child == Some(i as usize) || ns.neighbor == Some(i as usize) {
        ScenarioNode { parent: Some(m), ..ni }
    } else {
        ni
    }
}

/// The state after `m` has taken the place of `s`: `m` has the owner, the
/// link, the next sibling, the children and the position that `s` had, and is
/// the root where `s` was; `s` stands alone. Payloads and identities stay
/// where they are.
pub open spec fn substituted(v: TreeView, s: NodeId, m: NodeId) -> TreeView {
    if can_stand_in(v, s, m) {
        TreeView {
            nodes: Seq::new(v.nodes.len(), |i: int| substituted_node(v, s, m, i)),
            seqs: v.seqs.update(m as int, v.seqs[s as int]).update(s as int, 0),
            root: if v.root == Some(s) {
                Some(m)
            } else {
                v.root
            },
            limit: v.limit,
        }
    } else {
        v
    }
}

/// After `m` has taken the place of `s`, the links of node `i` agree with
/// those of the nodes they lead to.
proof fn lemma_substituted_linked(v: TreeView, s: NodeId, m: NodeId, i: int)
    requires
        v.wf(),
        can_stand_in(v, s, m),
        0 <= i < v.nodes.len(),
    ensures
        linked(substituted(v, s, m).nodes, i),
{
    let ni = v.nodes[i];
    let ns = v.nodes[s as int];
    lemma_apart(v.nodes, i);
    lemma_apart(v.nodes, s as int);
    lemma_apart(v.nodes, m as int);
    if ns.parent is Some {
        lemma_apart(v.nodes, ns.parent->0 as int);
    }
    if ns.child is Some {
        lemma_apart(v.nodes, ns.child->0 as int);
    }
    if ns.neighbor is Some {
        lemma_apart(v.nodes, ns.neighbor->0 as int);
    }
    if ni.parent is Some {
        assert(linked(v.nodes, ni.parent->0 as int));
    }
    if ni.child is Some {
        assert(linked(v.nodes, ni.child->0 as int));
    }
    if ni.neighbor is Some {
        assert(linked(v.nodes, ni.neighbor->0 as int));
    }
}

/// Letting a node that stands alone take the place of another keeps the tree
/// well formed and its positions right.
pub proof fn lemma_substituted(v: TreeView, s: NodeId, m: NodeId)
    requires
        v.wf(),
        can_stand_in(v, s, m),
    ensures
        substituted(v, s, m).wf(),
        sequenced(v) ==> sequenced(substituted(v, s, m)),
        can_stand_in(substituted(v, s, m), m, s),
        substituted(v, s, m).seqs[s as int] == 0,
{
    let w = substituted(v, s, m);
    let r = ranking_of(v.nodes);
    let l = crate::tree::Ranking { rank: r.rank.update(m as int, r.rank[s as int]), bound: r.bound };
    assert(r.fits(v.nodes));
    lemma_apart(v.nodes, s as int);
    lemma_apart(v.nodes, m as int);
    assert forall|i: int| 0 <= i < w.nodes.len() implies #[trigger] linked(w.nodes, i) by {
        lemma_substituted_linked(v, s, m, i);
    }
    assert forall|i: int| 0 <= i < w.nodes.len() implies #[trigger] l.rises(w.nodes, i) by {
        assert(r.rises(v.nodes, i));
        assert(r.rises(v.nodes, s as int));
        lemma_apart(v.nodes, i);
        if v.nodes[i].parent is Some {
            assert(linked(v.nodes, v.nodes[i].parent->0 as int));
        }
    }
    assert(l.fits(w.nodes));
    if sequenced(v) {
        assert forall|i: int| 0 <= i < w.nodes.len() implies #[trigger] seq_ok(w, i) by {
            assert(seq_ok(v, i));
            assert(seq_ok(v, s as int));
            lemma_apart(v.nodes, i);
            if v.nodes[i].parent is Some {
                assert(linked(v.nodes, v.nodes[i].parent->0 as int));
            }
        }
    }
}

/// Letting `s` take its place back from `m` gives the state before `m` took
/// it, where `m` stood at position 0 then.
pub proof fn lemma_substituted_back(v: TreeView, s: NodeId, m: NodeId)
    requires
        v.wf(),
        can_stand_in(v, s, m),
        v.seqs[m as int] == 0,
    ensures
        substituted(substituted(v, s, m), m, s) == v,
{
    let w = substituted(v, s, m);
    lemma_substituted(v, s, m);
    lemma_apart(v.nodes, s as int);
    lemma_apart(v.nodes, m as int);
    let ns = v.nodes[s as int];
    if ns.parent is Some {
        lemma_apart(v.nodes, ns.parent->0 as int);
    }
    if ns.child is Some {
        lemma_apart(v.nodes, ns.child->0 as int);
    }
    if ns.neighbor is Some {
        lemma_apart(v.nodes, ns.neighbor->0 as int);
    }
    assert(substituted(w, m, s).nodes =~= v.nodes);
    assert(substituted(w, m, s).seqs =~= v.seqs);
}

/// The place at the head of the top-level scope.
pub open spec fn root_slot(v: TreeView) -> Slot {
    Slot { owner: None, link: BranchType::Child, next: v.root, root: true }
}

impl ScenarioTree {
    /// Opens a gap at the place `s` and puts the loose node `b` into it.
    fn place(&mut self, s: Slot, b: NodeId)
        requires
            old(self)@.wf(),
            sequenced(old(self)@),
            slot_open(old(self)@, s, b),
        ensures
            final(self)@.wf(),
            sequenced(final(self)@),
            final(self)@ == resequenced(inserted(old(self)@, s, b)),
    {
        proof {
            lemma_opened(self@, s, b);
            lemma_inserted_wf(self@, s, b);
            if s.next is Some {
                lemma_scope_facts(self@, s.next->0 as int);
            }
        }
        let pos: usize = match s.next {
            Some(c) => self.seqs_at(c),
            None => match s.owner {
                Some(p) => if s.link == BranchType::Neighbor {
                    self.seqs_at(p) + 1
                } else {
                    0
                },
                None => 0,
            },
        };
        match s.next {
            Some(c) => {
                let full = self.scope(c);
                self.reindex(&full, pos, 1);
            },
            None => {},
        }
        self.put_seq(b, pos);
        let ghost cur = self@;
        assert(cur.seqs == gap_opened(old(self)@, s, b));
        self.insert(s, b);
        proof {
            assert(self@.nodes =~= inserted(old(self)@, s, b).nodes);
            lemma_resequenced(self@, inserted(old(self)@, s, b));
        }
    }

    /// Takes `n` out of its scope and closes the gap: the siblings behind
    /// `n` move up by one position. The answer is `false` where `n` is no
    /// node of the tree.
    pub fn remove_node(&mut self, n: NodeId) -> (done: bool)
        requires
            old(self)@.wf(),
            sequenced(old(self)@),
        ensures
            final(self)@.wf(),
            sequenced(final(self)@),
            done == old(self)@.has(n),
            final(self)@ == (if old(self)@.has(n) {
                resequenced(detached(old(self)@, n))
            } else {
                old(self)@
            }),
    {
        if n >= self.len() {
            return false;
        }
        proof {
            lemma_closed(self@, n);
            lemma_scope_facts(self@, n as int);
            lemma_detached_wf(self@, n);
        }
        let k = self.seqs_at(n);
        let full = self.scope(n);
        self.reindex(&full, k + 1, -1);
        self.put_seq(n, 0);
        assert(self@.seqs == gap_closed(old(self)@, n));
        ScenarioNode::remove(self, n);
        proof {
            assert(self@.nodes =~= detached(old(self)@, n).nodes);
            lemma_resequenced(self@, detached(old(self)@, n));
        }
        true
    }

    /// Makes `b` the first child of `a` and puts positions right: `b` gets
    /// position 0, the former children of `a` move down by one, and the
    /// siblings that `b` leaves behind move up by one. Nothing happens, and
    /// the answer is `false`, where the move is refused.
    pub fn move_to_child(&mut self, a: NodeId, b: NodeId) -> (done: bool)
        requires
            old(self)@.wf(),
            sequenced(old(self)@),
        ensures
            final(self)@.wf(),
            sequenced(final(self)@),
            done == can_move(old(self)@, a, b),
            final(self)@ == resequenced(moved_to_child(old(self)@, a, b)),
    {
        if !self.can_move(a, b) {
            proof {
                lemma_resequenced(self@, self@);
            }
            return false;
        }
        proof {
            lemma_slots_open(self@, a, b);
        }
        self.remove_node(b);
        let next = self.node(a).child;
        self.place(Slot { owner: Some(a), link: BranchType::Child, next: next, root: false }, b);
        proof {
            let m = moved_to_child(old(self)@, a, b);
            assert(self@.nodes =~= m.nodes);
            lemma_resequenced(self@, m);
        }
        true
    }

    /// Makes `b` the next sibling of `a` and puts positions right: `b` gets
    /// the position behind `a`, the siblings behind it move down by one, and
    /// the siblings that `b` leaves behind move up by one. Nothing happens,
    /// and the answer is `false`, where the move is refused.
    pub fn move_to_neighbor(&mut self, a: NodeId, b: NodeId) -> (done: bool)
        requires
            old(self)@.wf(),
            sequenced(old(self)@),
        ensures
            final(self)@.wf(),
            sequenced(final(self)@),
            done == can_move(old(self)@, a, b),
            final(self)@ == resequenced(moved_to_neighbor(old(self)@, a, b)),
    {
        if !self.can_move(a, b) {
            proof {
                lemma_resequenced(self@, self@);
            }
            return false;
        }
        proof {
            lemma_slots_open(self@, a, b);
        }
        self.remove_node(b);
        let next = self.node(a).neighbor;
        self.place(
            Slot { owner: Some(a), link: BranchType::Neighbor, next: next, root: false },
            b,
        );
        proof {
            let m = moved_to_neighbor(old(self)@, a, b);
            assert(self@.nodes =~= m.nodes);
            lemma_resequenced(self@, m);
        }
        true
    }

    /// Puts `b` into the place of `a` and puts positions right: `b` gets the
    /// position that `a` had, `a` and the siblings behind it move down by
    /// one, and the siblings that `b` leaves behind move up by one. Nothing
    /// happens, and the answer is `false`, where the move is refused.
    pub fn move_to_parent(&mut self, a: NodeId, b: NodeId) -> (done: bool)
        requires
            old(self)@.wf(),
            sequenced(old(self)@),
        ensures
            final(self)@.wf(),
            sequenced(final(self)@),
            done == can_move(old(self)@, a, b),
            final(self)@ == resequenced(moved_to_parent(old(self)@, a, b)),
    {
        if !self.can_move(a, b) {
            proof {
                lemma_resequenced(self@, self@);
            }
            return false;
        }
        proof {
            lemma_slots_open(self@, a, b);
        }
        self.remove_node(b);
        let owner = self.node(a).parent;
        let link = self.node(a).bt;
        let root = match self.root() {
            Some(r) => r == a,
            None => false,
        };
        self.place(Slot { owner: owner, link: link, next: Some(a), root: root }, b);
        proof {
            let m = moved_to_parent(old(self)@, a, b);
            assert(self@.nodes =~= m.nodes);
            lemma_resequenced(self@, m);
        }
        true
    }

    /// Puts `b` back into the place `s` that it held before an edit, and
    /// puts positions right. Nothing happens, and the answer is `false`,
    /// where the move that the place calls for is refused.
    pub fn put_back_node(&mut self, s: Slot, b: NodeId) -> (done: bool)
        requires
            old(self)@.wf(),
            sequenced(old(self)@),
        ensures
            final(self)@.wf(),
            sequenced(final(self)@),
            done == can_put_back(old(self)@, s, b),
            final(self)@ == resequenced(put_back(old(self)@, s, b)),
    {
        match s.owner {
            Some(p) => {
                if s.link == BranchType::Child {
                    self.move_to_child(p, b)
                } else {
                    self.move_to_neighbor(p, b)
                }
            },
            None => match s.next {
                Some(n) => self.move_to_parent(n, b),
                None => {
                    if b >= self.len() {
                        proof {
                            lemma_resequenced(self@, self@);
                        }
                        return false;
                    }
                    self.remove_node(b);
                    if s.root {
                        self.put_root(Some(b));
                    }
                    proof {
                        lemma_apart(old(self)@.nodes, b as int);
                        assert(forall|i: int|
                            0 <= i < self@.nodes.len() ==> (#[trigger] seq_ok(self@, i)
                                <==> seq_ok(resequenced(detached(old(self)@, b)), i)));
                        lemma_resequenced(self@, put_back(old(self)@, s, b));
                    }
                    true
                },
            },
        }
    }

    /// Lets `m` take the place of `s`: `m` gets the owner, the link, the next
    /// sibling, the children and the position of `s`, and `s` is left
    /// standing alone. Nothing happens, and the answer is `false`, unless `m`
    /// stands alone and childless and is another node than `s`.
    pub fn substitute(&mut self, s: NodeId, m: NodeId) -> (done: bool)
        requires
            old(self)@.wf(),
        ensures
            final(self)@.wf(),
            sequenced(old(self)@) ==> sequenced(final(self)@),
            done == can_stand_in(old(self)@, s, m),
            final(self)@ == substituted(old(self)@, s, m),
    {
        if s >= self.len() || m >= self.len() || s == m {
            return false;
        }
        let is_root_m = match self.root() {
            Some(r) => r == m,
            None => false,
        };
        let nm = self.node(m);
        if nm.parent.is_some() || nm.neighbor.is_some() || nm.child.is_some() || is_root_m {
            return false;
        }
        proof {
            lemma_substituted(self@, s, m);
            lemma_apart(self@.nodes, s as int);
            lemma_apart(self@.nodes, m as int);
        }
        let ns = self.node(s);
        let bt = ns.bt;
        let parent = ns.parent;
        let child = ns.child;
        let neighbor = ns.neighbor;
        let is_root_s = match self.root() {
            Some(r) => r == s,
            None => false,
        };
        let seq = self.seqs_at(s);
        proof {
            if parent is Some {
                lemma_apart(self@.nodes, parent->0 as int);
            }
            if child is Some {
                lemma_apart(self@.nodes, child->0 as int);
            }
            if neighbor is Some {
                lemma_apart(self@.nodes, neighbor->0 as int);
            }
        }
        self.put_owner(m, bt, parent);
        self.put_child(m, child);
        self.put_neighbor(m, neighbor);
        self.put_owner(s, BranchType::Child, None);
        self.put_child(s, None);
        self.put_neighbor(s, None);
        match parent {
            Some(p) => {
                if bt == BranchType::Child {
                    self.put_child(p, Some(m));
                } else {
                    self.put_neighbor(p, Some(m));
                }
            },
            None => {},
        }
        match child {
            Some(c) => {
                self.put_owner(c, BranchType::Child, Some(m));
            },
            None => {},
        }
        match neighbor {
            Some(n) => {
                self.put_owner(n, BranchType::Neighbor, Some(m));
            },
            None => {},
        }
        self.put_seq(m, seq);
        self.put_seq(s, 0);
        if is_root_s {
            self.put_root(Some(m));
        }
        assert(self@.nodes =~= substituted(old(self)@, s, m).nodes);
        true
    }

    /// Creates a node with the payload of `node` as the first child of
    /// `target`; the former children of `target` move down by one position.
    /// Gives the new node, or `None`, with nothing changed, where `target`
    /// is no node of the tree or the arena is full.
    pub fn add_child(&mut self, target: NodeId, node: ScenarioNode) -> (r: Option<NodeId>)
        requires
            old(self)@.wf(),
            sequenced(old(self)@),
        ensures
            final(self)@.wf(),
            sequenced(final(self)@),
            r is Some <==> old(self)@.has(target) && has_room(old(self)@),
            r matches Some(n) ==> n == old(self)@.nodes.len() && final(self)@ == resequenced(
                moved_to_child(planted(old(self)@, node.value), target, n),
            ),
            r is None ==> final(self)@ == old(self)@,
    {
        if target >= self.len() {
            return None;
        }
        let ghost value = node.value;
        match self.plant(node) {
            None => None,
            Some(n) => {
                proof {
                    lemma_planted_sequenced(old(self)@, value);
                    lemma_apart(self@.nodes, target as int);
                    lemma_detached_loose(self@, n);
                }
                let next = self.node(target).child;
                self.place(
                    Slot { owner: Some(target), link: BranchType::Child, next: next, root: false },
                    n,
                );
                Some(n)
            },
        }
    }

    /// Creates a node with the payload of `node` as the next sibling of
    /// `target`; the siblings behind `target` move down by one position.
    /// Gives the new node, or `None`, with nothing changed, where `target`
    /// is no node of the tree or the arena is full.
    pub fn add_neighbor(&mut self, target: NodeId, node: ScenarioNode) -> (r: Option<NodeId>)
        requires
            old(self)@.wf(),
            sequenced(old(self)@),
        ensures
            final(self)@.wf(),
            sequenced(final(self)@),
            r is Some <==> old(self)@.has(target) && has_room(old(self)@),
            r matches Some(n) ==> n == old(self)@.nodes.len() && final(self)@ == resequenced(
                moved_to_neighbor(planted(old(self)@, node.value), target, n),
            ),
            r is None ==> final(self)@ == old(self)@,
    {
        if target >= self.len() {
            return None;
        }
        let ghost value = node.value;
        match self.plant(node) {
            None => None,
            Some(n) => {
                proof {
                    lemma_planted_sequenced(old(self)@, value);
                    lemma_apart(self@.nodes, target as int);
                    lemma_detached_loose(self@, n);
                }
                let next = self.node(target).neighbor;
                self.place(
                    Slot {
                        owner: Some(target),
                        link: BranchType::Neighbor,
                        next: next,
                        root: false,
                    },
                    n,
                );
                Some(n)
            },
        }
    }

    /// Creates a node with the payload of `node` as the root: the head of the
    /// top-level scope. The former root, if there was one, becomes its next
    /// sibling, and the top-level scope moves down by one position. Gives the
    /// new node, or `None`, with nothing changed, where the arena is full.
    pub fn add_root(&mut self, node: ScenarioNode) -> (r: Option<NodeId>)
        requires
            old(self)@.wf(),
            sequenced(old(self)@),
        ensures
            final(self)@.wf(),
            sequenced(final(self)@),
            r is Some <==> has_room(old(self)@),
            r matches Some(n) ==> n == old(self)@.nodes.len() && final(self)@ == resequenced(
                put_back(planted(old(self)@, node.value), root_slot(old(self)@), n),
            ),
            r is None ==> final(self)@ == old(self)@,
    {
        let ghost value = node.value;
        match self.plant(node) {
            None => None,
            Some(n) => {
                proof {
                    lemma_planted_sequenced(old(self)@, value);
                    lemma_detached_loose(self@, n);
                    if self@.root is Some {
                        lemma_apart(self@.nodes, self@.root->0 as int);
                    }
                }
                let next = self.root();
                let ghost before = self@;
                let s = Slot { owner: None, link: BranchType::Child, next: next, root: true };
                self.place(s, n);
                proof {
                    let m = put_back(before, root_slot(old(self)@), n);
                    assert(inserted(before, s, n).nodes =~= m.nodes);
                    lemma_resequenced(self@, m);
                }
                Some(n)
            },
        }
    }
}

} // verus!
