//! Readings of where a node stands: its scope, its depth, its position and
//! the item it hangs from. A reading is taken before an edit and kept; it says
//! where the node stood then, whatever happens to the tree later.

use vstd::prelude::*;
use crate::engine::{slot_of, Slot};
use crate::scenario_node::{BranchType, NodeId, ScenarioNode};
use crate::sequencer::{
    head_of, lemma_member, lemma_scope_facts, lemma_short, scope_of, seq_ok, sequenced,
};
use crate::tree::{lemma_apart, ranking_of, shaped, ScenarioTree, TreeView};

verus! {

/// The number of scopes above node `x`: 0 for a member of a top-level scope.
pub open spec fn depth_of(nodes: Seq<ScenarioNode>, x: int) -> nat
    decreases ranking_of(nodes).rank[x],
    when shaped(nodes) && 0 <= x < nodes.len()
{
    proof {
        assert(ranking_of(nodes).rises(nodes, x));
    }
    match nodes[x].parent {
        None => 0,
        Some(p) => if nodes[x].bt == BranchType::Child {
            depth_of(nodes, p as int) + 1
        } else {
            depth_of(nodes, p as int)
        },
    }
}

/// The nodes met from `x` along owner links, `x` first.
pub open spec fn owners(nodes: Seq<ScenarioNode>, x: int) -> Seq<NodeId>
    decreases ranking_of(nodes).rank[x],
    when shaped(nodes) && 0 <= x < nodes.len()
{
    proof {
        assert(ranking_of(nodes).rises(nodes, x));
    }
    match nodes[x].parent {
        None => seq![x as usize],
        Some(p) => seq![x as usize] + owners(nodes, p as int),
    }
}

/// The owners of a node are distinct nodes of the tree, none ranked above the
/// node itself, and there are more of them than the node is deep.
pub proof fn lemma_owners(nodes: Seq<ScenarioNode>, x: int)
    requires
        shaped(nodes),
        0 <= x < nodes.len(),
    ensures
        owners(nodes, x).no_duplicates(),
        forall|j: int|
            0 <= j < owners(nodes, x).len() ==> (#[trigger] owners(nodes, x)[j]) < nodes.len()
                && ranking_of(nodes).rank[owners(nodes, x)[j] as int] <= ranking_of(
                nodes,
            ).rank[x],
        depth_of(nodes, x) < owners(nodes, x).len(),
    decreases ranking_of(nodes).rank[x],
{
    let r = ranking_of(nodes);
    assert(r.fits(nodes));
    assert(r.rises(nodes, x));
    lemma_apart(nodes, x);
    match nodes[x].parent {
        None => {},
        Some(p) => {
            lemma_owners(nodes, p as int);
            let rest = owners(nodes, p as int);
            let all = owners(nodes, x);
            assert(all == seq![x as usize] + rest);
            assert forall|i: int, j: int| 0 <= i < all.len() && 0 <= j < all.len() && i
                != j implies all[i] != all[j] by {
                if i > 0 {
                    assert(all[i] == rest[i - 1]);
                }
                if j > 0 {
                    assert(all[j] == rest[j - 1]);
                }
            }
            assert forall|j: int| 0 <= j < all.len() implies (#[trigger] all[j]) < nodes.len()
                && r.rank[all[j] as int] <= r.rank[x] by {
                if j > 0 {
                    assert(all[j] == rest[j - 1]);
                }
            }
        },
    }
}

/// No node is as deep as the tree has nodes.
pub proof fn lemma_depth_bound(nodes: Seq<ScenarioNode>, x: int)
    requires
        shaped(nodes),
        0 <= x < nodes.len(),
    ensures
        depth_of(nodes, x) < nodes.len(),
{
    lemma_owners(nodes, x);
    lemma_short(owners(nodes, x), nodes.len());
}

/// Where one node stands.
#[derive(Debug)]
pub struct ItemPlace {
    pub node: NodeId,
    pub bt: BranchType,
    /// The scope of the node, head first.
    pub scope: Vec<NodeId>,
    pub depth: usize,
    /// The position of the node in its scope.
    pub seq: usize,
    /// The item that the node hangs from: the node above for the head of a
    /// scope, the sibling before for any other member.
    pub parent: Option<NodeId>,
    /// Whether the scope is the top-level scope of the tree.
    pub top: bool,
}

/// Where a node stands, and where the item stands that it hangs from.
#[derive(Debug)]
pub struct TreeManipulationHandle {
    pub item: ItemPlace,
    pub parent: Option<ItemPlace>,
}

impl ItemPlace {
    /// The reading says where `x` stands in `v`.
    pub open spec fn reads(self, v: TreeView, x: NodeId) -> bool {
        &&& v.has(x)
        &&& self.node == x
        &&& self.bt == v.nodes[x as int].bt
        &&& self.scope@ == scope_of(v.nodes, x as int)
        &&& self.depth == depth_of(v.nodes, x as int)
        &&& self.seq == v.seqs[x as int]
        &&& self.parent == v.nodes[x as int].parent
        &&& self.top == (v.root == Some(head_of(v.nodes, x as int) as usize))
    }

    /// The place that the reading describes.
    pub open spec fn slot(self) -> Slot {
        Slot {
            owner: self.parent,
            link: self.bt,
            next: if self.seq + 1 < self.scope@.len() {
                Some(self.scope@[self.seq + 1])
            } else {
                None
            },
            root: self.top && self.seq == 0,
        }
    }

    /// The place that the reading describes.
    pub fn to_slot(&self) -> (s: Slot)
        ensures
            s == self.slot(),
    {
        let next = if self.seq < self.scope.len() && self.seq + 1 < self.scope.len() {
            Some(self.scope[self.seq + 1])
        } else {
            None
        };
        Slot { owner: self.parent, link: self.bt, next: next, root: self.top && self.seq == 0 }
    }
}

impl TreeManipulationHandle {
    /// The handle says where `x` stands in `v`, and where the item stands
    /// that `x` hangs from.
    pub open spec fn reads(self, v: TreeView, x: NodeId) -> bool {
        &&& self.item.reads(v, x)
        &&& self.parent is Some <==> v.nodes[x as int].parent is Some
        &&& self.parent matches Some(p) ==> p.reads(v, v.nodes[x as int].parent->0)
    }
}

/// The place that a reading describes is the place that the node held when the
/// reading was taken.
pub proof fn lemma_slot_read(item: ItemPlace, v: TreeView, x: NodeId)
    requires
        v.wf(),
        sequenced(v),
        item.reads(v, x),
    ensures
        item.slot() == slot_of(v, x),
{
    lemma_scope_facts(v, x as int);
    lemma_member(v, x as int);
    lemma_apart(v.nodes, x as int);
    assert(seq_ok(v, x as int));
    let c = scope_of(v.nodes, x as int);
    assert(c[v.seqs[x as int] as int] == x);
    let h = head_of(v.nodes, x as int);
    assert(c[0] == h) by {
        crate::sequencer::lemma_chain_unfold(v.nodes, h as usize);
    }
}

impl ScenarioTree {
    /// The number of scopes above `x`.
    pub fn depth(&self, x: NodeId) -> (d: Option<usize>)
        requires
            self@.wf(),
        ensures
            d == (if self@.has(x) {
                Some(depth_of(self@.nodes, x as int) as usize)
            } else {
                None
            }),
    {
        if x >= self.len() {
            return None;
        }
        let mut cur: NodeId = x;
        let mut d: usize = 0;
        proof {
            lemma_depth_bound(self@.nodes, x as int);
        }
        loop
            invariant
                self@.wf(),
                x < self@.nodes.len(),
                cur < self@.nodes.len(),
                depth_of(self@.nodes, x as int) < self@.nodes.len(),
                d + depth_of(self@.nodes, cur as int) == depth_of(self@.nodes, x as int),
            decreases ranking_of(self@.nodes).rank[cur as int],
        {
            proof {
                assert(ranking_of(self@.nodes).rises(self@.nodes, cur as int));
            }
            let node = self.node(cur);
            match node.parent {
                None => {
                    return Some(d);
                },
                Some(p) => {
                    if node.bt == BranchType::Child {
                        d = d + 1;
                    }
                    cur = p;
                },
            }
        }
    }

    /// Reads where `x` stands. `None` where `x` is no node of the tree.
    pub fn read_place(&self, x: NodeId) -> (r: Option<ItemPlace>)
        requires
            self@.wf(),
            sequenced(self@),
        ensures
            r is Some <==> self@.has(x),
            r matches Some(item) ==> item.reads(self@, x),
    {
        if x >= self.len() {
            return None;
        }
        proof {
            lemma_scope_facts(self@, x as int);
            lemma_apart(self@.nodes, x as int);
            assert(seq_ok(self@, x as int));
            let c = scope_of(self@.nodes, x as int);
            assert(c[self@.seqs[x as int] as int] == x);
        }
        let node = self.node(x);
        let bt = node.bt;
        let seq = self.seqs_at(x);
        let scope = self.scope(x);
        let parent = if bt == BranchType::Child {
            node.parent
        } else {
            Some(scope[seq - 1])
        };
        let head = self.scope_head(x);
        let top = match self.root() {
            Some(r) => match head {
                Some(h) => r == h,
                None => false,
            },
            None => false,
        };
        let depth = match self.depth(x) {
            Some(d) => d,
            None => 0,
        };
        proof {
            lemma_depth_bound(self@.nodes, x as int);
        }
        Some(
            ItemPlace {
                node: x,
                bt: bt,
                scope: scope,
                depth: depth,
                seq: seq,
                parent: parent,
                top: top,
            },
        )
    }

    /// Reads where `x` stands and where the item stands that it hangs from.
    /// `None` where `x` is no node of the tree.
    pub fn read_handle(&self, x: NodeId) -> (r: Option<TreeManipulationHandle>)
        requires
            self@.wf(),
            sequenced(self@),
        ensures
            r is Some <==> self@.has(x),
            r matches Some(h) ==> h.reads(self@, x),
    {
        match self.read_place(x) {
            None => None,
            Some(item) => {
                proof {
                    lemma_apart(self@.nodes, x as int);
                }
                let parent = match item.parent {
                    Some(p) => self.read_place(p),
                    None => None,
                };
                Some(TreeManipulationHandle { item: item, parent: parent })
            },
        }
    }
}

} // verus!
