//! Building a tree from nodes that were linked by hand: the links are
//! checked, and only a forest is taken.

use vstd::prelude::*;
use crate::resolver::{lemma_owners, owners};
use crate::scenario_node::{BranchType, NodeId, ScenarioNode};
use crate::sequencer::{lemma_short, resequenced, sequenced};
use crate::tree::{
    all_linked, linked, numbered, ranking_of, shaped, MAX_NODES, Ranking, ScenarioTree, TreeView,
};

verus! {

/// The number of owner links from `x` up to a node without an owner, where
/// there are no more than `k` of them.
pub open spec fn climb(nodes: Seq<ScenarioNode>, x: int, k: nat) -> Option<nat>
    decreases k,
{
    match nodes[x].parent {
        None => Some(0),
        Some(p) => if k == 0 || p >= nodes.len() {
            None
        } else {
            match climb(nodes, p as int, (k - 1) as nat) {
                Some(d) => Some(d + 1),
                None => None,
            }
        },
    }
}

/// A climb that ends within `k` links ends within `k + 1`, at the same
/// height, and that height is not above `k`.
proof fn lemma_climb_more(nodes: Seq<ScenarioNode>, x: int, k: nat)
    requires
        climb(nodes, x, k) is Some,
    ensures
        climb(nodes, x, k + 1) == climb(nodes, x, k),
        climb(nodes, x, k)->0 <= k,
    decreases k,
{
    match nodes[x].parent {
        None => {},
        Some(p) => {
            lemma_climb_more(nodes, p as int, (k - 1) as nat);
        },
    }
}

/// In a forest every climb ends, within fewer links than the node has owners.
proof fn lemma_climb_ends(nodes: Seq<ScenarioNode>, x: int, k: nat)
    requires
        shaped(nodes),
        0 <= x < nodes.len(),
        owners(nodes, x).len() <= k + 1,
    ensures
        climb(nodes, x, k) is Some,
    decreases k,
{
    let r = ranking_of(nodes);
    assert(r.fits(nodes));
    assert(r.rises(nodes, x));
    match nodes[x].parent {
        None => {},
        Some(p) => {
            lemma_owners(nodes, p as int);
            assert(owners(nodes, x) == seq![x as usize] + owners(nodes, p as int));
            lemma_climb_ends(nodes, p as int, (k - 1) as nat);
        },
    }
}

/// The nodes can be taken as a tree with the root `root`: their links form a
/// forest, `root` names a node without an owner or nothing, and an arena has
/// room for them.
pub open spec fn buildable(nodes: Seq<ScenarioNode>, root: Option<NodeId>) -> bool {
    &&& shaped(nodes)
    &&& nodes.len() <= MAX_NODES
    &&& root matches Some(r) ==> r < nodes.len() && nodes[r as int].parent is None
}

/// The nodes as they are given, each with its ordinal as identity and with
/// position 0, in an arena with room for as many nodes as an arena can hold.
pub open spec fn taken(nodes: Seq<ScenarioNode>, root: Option<NodeId>) -> TreeView {
    TreeView {
        nodes: Seq::new(nodes.len(), |i: int| ScenarioNode { id: (i + 1) as i32, ..nodes[i] }),
        seqs: Seq::new(nodes.len(), |i: int| 0usize),
        root: root,
        limit: MAX_NODES as nat,
    }
}

/// The tree built from `nodes`: the nodes with their links and payloads, each
/// with its ordinal as identity and with the position that the links give it.
pub open spec fn built(nodes: Seq<ScenarioNode>, root: Option<NodeId>) -> TreeView {
    resequenced(taken(nodes, root))
}

/// Whether the links of node `i` agree with those of the nodes they lead to.
fn check_linked(nodes: &Vec<ScenarioNode>, i: usize) -> (ok: bool)
    requires
        i < nodes@.len(),
    ensures
        ok == linked(nodes@, i as int),
{
    let n = &nodes[i];
    let up = match n.parent {
        Some(p) => p < nodes.len() && (if n.bt == BranchType::Child {
            match nodes[p].child {
                Some(c) => c == i,
                None => false,
            }
        } else {
            match nodes[p].neighbor {
                Some(c) => c == i,
                None => false,
            }
        }),
        None => n.bt == BranchType::Child,
    };
    let down = match n.child {
        Some(c) => c < nodes.len() && nodes[c].bt == BranchType::Child && (match nodes[c].parent {
            Some(q) => q == i,
            None => false,
        }),
        None => true,
    };
    let along = match n.neighbor {
        Some(m) => m < nodes.len() && nodes[m].bt == BranchType::Neighbor && (match nodes[
            m
        ].parent {
            Some(q) => q == i,
            None => false,
        }),
        None => true,
    };
    up && down && along
}

/// Whether the climb from node `i` ends within as many links as there are
/// nodes.
fn check_climb(nodes: &Vec<ScenarioNode>, i: usize) -> (ok: bool)
    requires
        i < nodes@.len(),
    ensures
        ok == climb(nodes@, i as int, nodes@.len()) is Some,
{
    let n = nodes.len();
    let mut cur: usize = i;
    let mut steps: usize = 0;
    loop
        invariant
            n == nodes@.len(),
            cur < n,
            steps <= n,
            climb(nodes@, i as int, n as nat) == (match climb(
                nodes@,
                cur as int,
                (n - steps) as nat,
            ) {
                Some(d) => Some((d + steps) as nat),
                None => None,
            }),
        decreases n - steps,
    {
        match nodes[cur].parent {
            None => {
                return true;
            },
            Some(p) => {
                if steps == n || p >= n {
                    return false;
                }
                steps = steps + 1;
                cur = p;
            },
        }
    }
}

/// Nodes whose links agree and whose climbs all end form a forest.
proof fn lemma_climbs_shape(nodes: Seq<ScenarioNode>)
    requires
        all_linked(nodes),
        forall|i: int| 0 <= i < nodes.len() ==> (#[trigger] climb(nodes, i, nodes.len())) is Some,
    ensures
        shaped(nodes),
{
    let n = nodes.len();
    let r = Ranking { rank: Seq::new(n, |i: int| climb(nodes, i, n)->0), bound: n + 1 };
    assert forall|i: int| 0 <= i < n implies #[trigger] r.rises(nodes, i) by {
        assert(climb(nodes, i, n) is Some);
        lemma_climb_more(nodes, i, n);
        match nodes[i].parent {
            None => {},
            Some(p) => {
                assert(linked(nodes, i));
                assert(climb(nodes, p as int, n) is Some);
                lemma_climb_more(nodes, p as int, (n - 1) as nat);
            },
        }
    }
    assert(r.fits(nodes));
}

/// In a forest with `n` nodes every climb ends within `n` links.
proof fn lemma_shape_climbs(nodes: Seq<ScenarioNode>, i: int)
    requires
        shaped(nodes),
        0 <= i < nodes.len(),
    ensures
        climb(nodes, i, nodes.len()) is Some,
{
    lemma_owners(nodes, i);
    lemma_short(owners(nodes, i), nodes.len());
    lemma_climb_ends(nodes, i, nodes.len());
}

/// Giving every node its ordinal as identity leaves the links as they are.
proof fn lemma_renumbered(nodes: Seq<ScenarioNode>, root: Option<NodeId>)
    requires
        buildable(nodes, root),
    ensures
        taken(nodes, root).wf(),
{
    let v = taken(nodes, root);
    let fresh = v.nodes;
    let r = ranking_of(nodes);
    assert(r.fits(nodes));
    assert forall|i: int| 0 <= i < fresh.len() implies #[trigger] linked(fresh, i) by {
        assert(linked(nodes, i));
    }
    assert forall|i: int| 0 <= i < fresh.len() implies #[trigger] r.rises(fresh, i) by {
        assert(r.rises(nodes, i));
    }
    assert(r.fits(fresh));
    assert(numbered(fresh));
}

impl ScenarioTree {
    /// Takes `nodes` as the nodes of a tree with the root `root`, where their
    /// links form a forest and `root` names a node without an owner or
    /// nothing. Every node keeps its links and its payload; its identity
    /// becomes its ordinal, and it gets the position that the links give it.
    pub fn from_nodes(nodes: Vec<ScenarioNode>, root: Option<NodeId>) -> (r: Option<ScenarioTree>)
        ensures
            r is Some <==> buildable(nodes@, root),
            r matches Some(t) ==> t@ == built(nodes@, root) && t@.wf() && sequenced(t@),
    {
        let n = nodes.len();
        if n > MAX_NODES {
            return None;
        }
        match root {
            Some(x) => {
                if x >= n || nodes[x].parent.is_some() {
                    return None;
                }
            },
            None => {},
        }
        let mut i: usize = 0;
        while i < n
            invariant
                i <= n,
                n == nodes@.len(),
                forall|j: int| 0 <= j < i ==> #[trigger] linked(nodes@, j),
                forall|j: int| 0 <= j < i ==> (#[trigger] climb(nodes@, j, n as nat)) is Some,
            decreases n - i,
        {
            if !check_linked(&nodes, i) {
                return None;
            }
            if !check_climb(&nodes, i) {
                proof {
                    if shaped(nodes@) {
                        lemma_shape_climbs(nodes@, i as int);
                    }
                }
                return None;
            }
            i = i + 1;
        }
        proof {
            lemma_climbs_shape(nodes@);
            lemma_renumbered(nodes@, root);
        }
        let mut tree = ScenarioTree::assemble(nodes, root);
        tree.renumber();
        Some(tree)
    }
}

} // verus!
