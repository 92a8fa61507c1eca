//! How the structural edits show in the chains that are read off the tree:
//! taking a node out of its scope takes it out of every chain that it stood
//! in, and putting a node into a place puts it into every chain that passes
//! the place.

use vstd::prelude::*;
use crate::engine::{
    can_move, child_slot, detached, inserted, lemma_detached_wf, lemma_inserted_wf,
    lemma_slots_open, moved_to_child, moved_to_neighbor, moved_to_parent, neighbor_slot,
    parent_slot, slot_open, Slot,
};
use crate::scenario_node::{BranchType, NodeId, ScenarioNode};
use crate::sequencer::{lemma_chain_gap, lemma_chain_unfold};
use crate::tree::{chain, lemma_apart, ranking_of, TreeView};

verus! {

/// The list `c` without `b`.
pub open spec fn without(c: Seq<NodeId>, b: NodeId) -> Seq<NodeId>
    decreases c.len(),
{
    if c.len() == 0 {
        c
    } else if c[0] == b {
        without(c.drop_first(), b)
    } else {
        seq![c[0]] + without(c.drop_first(), b)
    }
}

/// The list `c` with `b` put in behind `p`, where `p` is a member of `c`.
pub open spec fn with_behind(c: Seq<NodeId>, p: NodeId, b: NodeId) -> Seq<NodeId>
    decreases c.len(),
{
    if c.len() == 0 {
        c
    } else if c[0] == p {
        seq![p, b] + c.drop_first()
    } else {
        seq![c[0]] + with_behind(c.drop_first(), p, b)
    }
}

/// A list that does not hold `b` is itself without `b`, and is itself with
/// something put in behind `b`.
proof fn lemma_absent(c: Seq<NodeId>, b: NodeId, x: NodeId)
    requires
        !c.contains(b),
    ensures
        without(c, b) == c,
        with_behind(c, b, x) == c,
    decreases c.len(),
{
    if c.len() > 0 {
        assert(c[0] != b);
        assert forall|j: int| 0 <= j < c.drop_first().len() implies c.drop_first()[j] != b by {
            assert(c.drop_first()[j] == c[j + 1]);
        }
        lemma_absent(c.drop_first(), b, x);
        assert(c =~= seq![c[0]] + c.drop_first());
    }
}

/// A node that a chain passes after its start is ranked above the start.
proof fn lemma_behind(nodes: Seq<ScenarioNode>, start: NodeId, x: NodeId)
    requires
        crate::tree::shaped(nodes),
        start < nodes.len(),
        x < nodes.len(),
        ranking_of(nodes).rank[x as int] <= ranking_of(nodes).rank[start as int],
        x != start,
    ensures
        !chain(nodes, Some(start)).contains(x),
{
    let c = chain(nodes, Some(start));
    lemma_chain_unfold(nodes, start);
    if c.contains(x) {
        let j = choose|j: int| 0 <= j < c.len() && c[j] == x;
        lemma_chain_gap(nodes, ranking_of(nodes), start, 0, j);
    }
}

/// Taking `b` out of its scope takes it out of the chain from any other
/// node, and leaves that chain as it is otherwise.
pub proof fn law_chain_after_remove(v: TreeView, b: NodeId, s: NodeId)
    requires
        v.wf(),
        v.has(b),
        v.has(s),
        s != b,
    ensures
        chain(detached(v, b).nodes, Some(s)) == without(chain(v.nodes, Some(s)), b),
        chain(detached(v, b).nodes, Some(b)) == seq![b],
    decreases ranking_of(v.nodes).bound - ranking_of(v.nodes).rank[s as int],
{
    let d = detached(v, b);
    let r = ranking_of(v.nodes);
    lemma_detached_wf(v, b);
    assert(r.fits(v.nodes));
    assert(r.rises(v.nodes, s as int));
    assert(r.rises(v.nodes, b as int));
    lemma_apart(v.nodes, s as int);
    lemma_apart(v.nodes, b as int);
    lemma_chain_unfold(v.nodes, s);
    lemma_chain_unfold(d.nodes, s);
    lemma_chain_unfold(d.nodes, b);
    assert(chain(d.nodes, Some(b)) =~= seq![b]);
    let cv = chain(v.nodes, Some(s));
    assert(cv.drop_first() =~= chain(v.nodes, v.nodes[s as int].neighbor));
    match v.nodes[s as int].neighbor {
        None => {
            assert(without(cv.drop_first(), b) =~= Seq::<NodeId>::empty());
            assert(chain(d.nodes, Some(s)) =~= without(cv, b));
        },
        Some(m) => {
            assert(r.rises(v.nodes, m as int));
            if m == b {
                lemma_chain_unfold(v.nodes, b);
                let rest = chain(v.nodes, v.nodes[b as int].neighbor);
                assert(cv.drop_first().drop_first() =~= rest);
                match v.nodes[b as int].neighbor {
                    None => {
                        assert(without(rest, b) =~= rest);
                    },
                    Some(n) => {
                        assert(r.rises(v.nodes, n as int));
                        lemma_behind(v.nodes, n, b);
                        lemma_absent(rest, b, b);
                        law_chain_after_remove(v, b, n);
                    },
                }
                assert(without(cv.drop_first(), b) == without(rest, b));
                assert(d.nodes[s as int].neighbor == v.nodes[b as int].neighbor);
                assert(chain(d.nodes, Some(s)) =~= without(cv, b));
            } else {
                law_chain_after_remove(v, b, m);
                assert(chain(d.nodes, Some(s)) =~= without(cv, b));
            }
        },
    }
}

/// Putting the loose node `b` into a place behind a sibling puts it into the
/// chain from any other node that passes that sibling, right behind it; any
/// other chain from another node stays as it is. The chain from `b` goes on
/// with the chain from the node that held the place.
pub proof fn law_chain_after_insert(d: TreeView, sl: Slot, b: NodeId, s: NodeId)
    requires
        d.wf(),
        slot_open(d, sl, b),
        d.has(s),
        s != b,
    ensures
        chain(inserted(d, sl, b).nodes, Some(s)) == (if sl.link == BranchType::Neighbor
            && sl.owner is Some {
            with_behind(chain(d.nodes, Some(s)), sl.owner->0, b)
        } else {
            chain(d.nodes, Some(s))
        }),
        chain(inserted(d, sl, b).nodes, Some(b)) == seq![b] + chain(d.nodes, sl.next),
    decreases ranking_of(d.nodes).bound - ranking_of(d.nodes).rank[s as int],
{
    let w = inserted(d, sl, b);
    let r = ranking_of(d.nodes);
    lemma_inserted_wf(d, sl, b);
    assert(r.fits(d.nodes));
    assert(r.rises(d.nodes, s as int));
    lemma_apart(d.nodes, s as int);
    lemma_apart(d.nodes, b as int);
    lemma_chain_unfold(d.nodes, s);
    lemma_chain_unfold(w.nodes, s);
    lemma_chain_unfold(w.nodes, b);
    let behind = sl.link == BranchType::Neighbor && sl.owner is Some;
    let cd = chain(d.nodes, Some(s));
    assert(cd.drop_first() =~= chain(d.nodes, d.nodes[s as int].neighbor));
    // the chain from `b`
    match sl.next {
        None => {
            assert(chain(w.nodes, Some(b)) =~= seq![b] + chain(d.nodes, sl.next));
        },
        Some(c) => {
            lemma_apart(d.nodes, c as int);
            assert(r.rises(d.nodes, c as int));
            lemma_after_place(d, sl, b);
        },
    }
    // the chain from `s`
    match d.nodes[s as int].neighbor {
        None => {
            if behind && sl.owner == Some(s) {
                assert(chain(w.nodes, Some(s)) =~= with_behind(cd, s, b));
            } else {
                assert(with_behind(cd.drop_first(), sl.owner->0, b) =~= Seq::<NodeId>::empty());
                assert(chain(w.nodes, Some(s)) =~= cd);
                if behind {
                    assert(chain(w.nodes, Some(s)) =~= with_behind(cd, sl.owner->0, b));
                }
            }
        },
        Some(m) => {
            assert(r.rises(d.nodes, m as int));
            assert(crate::tree::linked(d.nodes, s as int));
            if behind && sl.owner == Some(s) {
                assert(chain(w.nodes, Some(s)) =~= with_behind(cd, s, b));
            } else {
                law_chain_after_insert(d, sl, b, m);
                if behind {
                    assert(chain(w.nodes, Some(s)) =~= with_behind(cd, sl.owner->0, b));
                } else {
                    assert(chain(w.nodes, Some(s)) =~= cd);
                }
            }
        },
    }
}

/// After `b` has been put into a place, the chain from the node that held the
/// place is as it was, and the chain from `b` goes on with it.
proof fn lemma_after_place(d: TreeView, sl: Slot, b: NodeId)
    requires
        d.wf(),
        slot_open(d, sl, b),
        sl.next is Some,
    ensures
        chain(inserted(d, sl, b).nodes, sl.next) == chain(d.nodes, sl.next),
        chain(inserted(d, sl, b).nodes, Some(b)) == seq![b] + chain(d.nodes, sl.next),
{
    let w = inserted(d, sl, b);
    let c = sl.next->0;
    let r = ranking_of(d.nodes);
    lemma_inserted_wf(d, sl, b);
    assert(r.fits(d.nodes));
    lemma_apart(d.nodes, c as int);
    assert(r.rises(d.nodes, c as int));
    lemma_chain_unfold(w.nodes, b);
    lemma_chain_same(d, sl, b, c);
}

/// After `b` has been put into a place, the chain from a node that is ranked
/// above the owner of the place is as it was.
proof fn lemma_chain_same(d: TreeView, sl: Slot, b: NodeId, s: NodeId)
    requires
        d.wf(),
        slot_open(d, sl, b),
        d.has(s),
        s != b,
        sl.owner matches Some(p) ==> ranking_of(d.nodes).rank[p as int] < ranking_of(
            d.nodes,
        ).rank[s as int],
    ensures
        chain(inserted(d, sl, b).nodes, Some(s)) == chain(d.nodes, Some(s)),
    decreases ranking_of(d.nodes).bound - ranking_of(d.nodes).rank[s as int],
{
    let w = inserted(d, sl, b);
    let r = ranking_of(d.nodes);
    lemma_inserted_wf(d, sl, b);
    assert(r.fits(d.nodes));
    assert(r.rises(d.nodes, s as int));
    lemma_apart(d.nodes, s as int);
    lemma_apart(d.nodes, b as int);
    lemma_chain_unfold(d.nodes, s);
    lemma_chain_unfold(w.nodes, s);
    match d.nodes[s as int].neighbor {
        None => {},
        Some(m) => {
            assert(r.rises(d.nodes, m as int));
            assert(crate::tree::linked(d.nodes, s as int));
            lemma_chain_same(d, sl, b, m);
        },
    }
}

/// The chain from a link of a node, after `b` has left its scope, is the
/// chain from that link before, without `b`.
proof fn lemma_link_after_remove(v: TreeView, b: NodeId, before: Option<NodeId>, after: Option<NodeId>)
    requires
        v.wf(),
        v.has(b),
        before matches Some(x) ==> v.has(x),
        after == (if before == Some(b) {
            v.nodes[b as int].neighbor
        } else {
            before
        }),
    ensures
        chain(detached(v, b).nodes, after) == without(chain(v.nodes, before), b),
{
    let d = detached(v, b);
    let r = ranking_of(v.nodes);
    lemma_detached_wf(v, b);
    lemma_apart(v.nodes, b as int);
    assert(r.fits(v.nodes));
    match before {
        None => {
            assert(without(chain(v.nodes, before), b) =~= Seq::<NodeId>::empty());
        },
        Some(x) => {
            if x == b {
                lemma_chain_unfold(v.nodes, b);
                let rest = chain(v.nodes, v.nodes[b as int].neighbor);
                assert(chain(v.nodes, before).drop_first() =~= rest);
                match v.nodes[b as int].neighbor {
                    None => {
                        assert(without(rest, b) =~= rest);
                    },
                    Some(n) => {
                        assert(r.rises(v.nodes, n as int));
                        lemma_behind(v.nodes, n, b);
                        lemma_absent(rest, b, b);
                        law_chain_after_remove(v, b, n);
                    },
                }
            } else {
                law_chain_after_remove(v, b, x);
            }
        },
    }
}

/// After `b` has become the first child of `a`, the chain from `b` is `b` and
/// then the former children of `a` without `b`; the chain from any other
/// node is as before, without `b`.
pub proof fn law_chains_after_mv_to_child(v: TreeView, a: NodeId, b: NodeId, s: NodeId)
    requires
        v.wf(),
        can_move(v, a, b),
        v.has(s),
    ensures
        chain(moved_to_child(v, a, b).nodes, Some(b)) == seq![b] + without(
            chain(v.nodes, v.nodes[a as int].child),
            b,
        ),
        s != b ==> chain(moved_to_child(v, a, b).nodes, Some(s)) == without(
            chain(v.nodes, Some(s)),
            b,
        ),
{
    let d = detached(v, b);
    lemma_slots_open(v, a, b);
    lemma_apart(v.nodes, a as int);
    lemma_apart(v.nodes, b as int);
    lemma_link_after_remove(v, b, v.nodes[a as int].child, d.nodes[a as int].child);
    if s != b {
        law_chain_after_remove(v, b, s);
        law_chain_after_insert(d, child_slot(d, a), b, s);
    } else {
        law_chain_after_insert(d, child_slot(d, a), b, a);
    }
}

/// After `b` has become the next sibling of `a`, the chain from `b` is `b`
/// and then the former chain behind `a` without `b`; the chain from any other
/// node is as before, without `b` where it was and with `b` behind `a`.
pub proof fn law_chains_after_mv_to_neighbor(v: TreeView, a: NodeId, b: NodeId, s: NodeId)
    requires
        v.wf(),
        can_move(v, a, b),
        v.has(s),
    ensures
        chain(moved_to_neighbor(v, a, b).nodes, Some(b)) == seq![b] + without(
            chain(v.nodes, v.nodes[a as int].neighbor),
            b,
        ),
        s != b ==> chain(moved_to_neighbor(v, a, b).nodes, Some(s)) == with_behind(
            without(chain(v.nodes, Some(s)), b),
            a,
            b,
        ),
{
    let d = detached(v, b);
    lemma_slots_open(v, a, b);
    lemma_apart(v.nodes, a as int);
    lemma_apart(v.nodes, b as int);
    lemma_link_after_remove(v, b, v.nodes[a as int].neighbor, d.nodes[a as int].neighbor);
    if s != b {
        law_chain_after_remove(v, b, s);
        law_chain_after_insert(d, neighbor_slot(d, a), b, s);
    } else {
        law_chain_after_insert(d, neighbor_slot(d, a), b, a);
    }
}

/// After `b` has taken the place of `a`, the chain from `b` is `b` and then
/// the former chain from `a` without `b`; the chain from any other node is as
/// before, without `b` where it was and with `b` behind the sibling before
/// `a`, if `a` has one then.
pub proof fn law_chains_after_mv_to_parent(v: TreeView, a: NodeId, b: NodeId, s: NodeId)
    requires
        v.wf(),
        can_move(v, a, b),
        v.has(s),
    ensures
        chain(moved_to_parent(v, a, b).nodes, Some(b)) == seq![b] + without(
            chain(v.nodes, Some(a)),
            b,
        ),
        s != b ==> chain(moved_to_parent(v, a, b).nodes, Some(s)) == ({
            let before = detached(v, b).nodes[a as int];
            if before.bt == BranchType::Neighbor && before.parent is Some {
                with_behind(without(chain(v.nodes, Some(s)), b), before.parent->0, b)
            } else {
                without(chain(v.nodes, Some(s)), b)
            }
        }),
{
    let d = detached(v, b);
    lemma_slots_open(v, a, b);
    law_chain_after_remove(v, b, a);
    if s != b {
        law_chain_after_remove(v, b, s);
        law_chain_after_insert(d, parent_slot(d, a), b, s);
    } else {
        law_chain_after_insert(d, parent_slot(d, a), b, a);
    }
}

} // verus!
