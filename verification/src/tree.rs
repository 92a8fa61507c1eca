//! The arena that holds the nodes of a scenario, and what it means for the
//! links between them to form a forest.
//!
//! Every node has at most one owner: the node whose `child` or `neighbor` link
//! leads to it. `parent` names that owner and `bt` names the link. A node
//! without an owner is the head of a top-level chain; the tree remembers one of
//! them as its root, the others are detached. Following `parent` from any node
//! ends at a node without an owner: that is what rules out cycles.

use vstd::prelude::*;
use crate::item::Item;
use crate::scenario_node::{BranchType, NodeId, ScenarioNode};

verus! {

/// The abstract state of a tree.
#[verifier::ext_equal]
pub struct TreeView {
    pub nodes: Seq<ScenarioNode>,
    /// The position of each node within its scope.
    pub seqs: Seq<usize>,
    pub root: Option<NodeId>,
    /// The number of nodes that the arena can hold.
    pub limit: nat,
}

/// A height for every node that grows along each owner link, witness that the
/// links hold no cycle.
pub struct Ranking {
    pub rank: Seq<nat>,
    pub bound: nat,
}

impl Ranking {
    /// Node `i` stands below the bound and above its owner.
    pub open spec fn rises(self, nodes: Seq<ScenarioNode>, i: int) -> bool {
        &&& self.rank[i] < self.bound
        &&& nodes[i].parent matches Some(p) ==> p < nodes.len() && self.rank[p as int]
            < self.rank[i]
    }

    /// Every node stands below the bound and above its owner.
    pub open spec fn fits(self, nodes: Seq<ScenarioNode>) -> bool {
        &&& self.rank.len() == nodes.len()
        &&& forall|i: int| 0 <= i < nodes.len() ==> #[trigger] self.rises(nodes, i)
    }
}

/// The links of node `i` agree with those of the nodes they lead to.
pub open spec fn linked(nodes: Seq<ScenarioNode>, i: int) -> bool {
    let n = nodes[i];
    &&& n.parent matches Some(p) ==> p < nodes.len() && if n.bt == BranchType::Child {
        nodes[p as int].child == Some(i as usize)
    } else {
        nodes[p as int].neighbor == Some(i as usize)
    }
    &&& n.parent is None ==> n.bt == BranchType::Child
    &&& n.child matches Some(c) ==> c < nodes.len() && nodes[c as int].parent == Some(i as usize)
        && nodes[c as int].bt == BranchType::Child
    &&& n.neighbor matches Some(m) ==> m < nodes.len() && nodes[m as int].parent == Some(
        i as usize,
    ) && nodes[m as int].bt == BranchType::Neighbor
}

/// Every node has exactly the owner that its `parent` and `bt` name.
pub open spec fn all_linked(nodes: Seq<ScenarioNode>) -> bool {
    &&& nodes.len() <= usize::MAX
    &&& forall|i: int| 0 <= i < nodes.len() ==> #[trigger] linked(nodes, i)
}

/// Identities are handed out in the order of creation, from 1 on.
pub open spec fn numbered(nodes: Seq<ScenarioNode>) -> bool {
    &&& nodes.len() < i32::MAX
    &&& forall|i: int| 0 <= i < nodes.len() ==> (#[trigger] nodes[i].id) == i + 1
}

/// No chain of owner links comes back to where it started.
pub open spec fn acyclic(nodes: Seq<ScenarioNode>) -> bool {
    exists|r: Ranking| r.fits(nodes)
}

/// The links form a forest.
pub open spec fn shaped(nodes: Seq<ScenarioNode>) -> bool {
    all_linked(nodes) && acyclic(nodes)
}

/// Some ranking of a forest.
pub open spec fn ranking_of(nodes: Seq<ScenarioNode>) -> Ranking {
    choose|r: Ranking| r.fits(nodes)
}

/// `x` is `y` or is reached from `y` by owner links.
pub open spec fn is_under(nodes: Seq<ScenarioNode>, x: int, y: int) -> bool
    decreases ranking_of(nodes).rank[x],
    when shaped(nodes) && 0 <= x < nodes.len()
{
    proof {
        assert(ranking_of(nodes).rises(nodes, x));
    }
    x == y || (nodes[x].parent matches Some(p) && is_under(nodes, p as int, y))
}

/// `x` is `top` or one of its descendants: a member of the first scope below
/// `top`, or a descendant of one.
pub open spec fn in_subtree(nodes: Seq<ScenarioNode>, top: int, x: int) -> bool {
    x == top || (nodes[top].child matches Some(c) && is_under(nodes, x, c as int))
}

/// The nodes met from `start` along `neighbor` links, in order.
pub open spec fn chain(nodes: Seq<ScenarioNode>, start: Option<NodeId>) -> Seq<NodeId>
    decreases
        (match start {
            Some(x) => ranking_of(nodes).bound - ranking_of(nodes).rank[x as int],
            None => 0,
        }),
    when shaped(nodes) && (start matches Some(x) ==> x < nodes.len())
{
    match start {
        None => Seq::empty(),
        Some(x) => {
            proof {
                assert(linked(nodes, x as int));
                assert(ranking_of(nodes).rises(nodes, x as int));
                if nodes[x as int].neighbor is Some {
                    assert(ranking_of(nodes).rises(nodes, nodes[x as int].neighbor->0 as int));
                }
            }
            seq![x] + chain(nodes, nodes[x as int].neighbor)
        },
    }
}

/// The state after a node with the payload `value` has been created: it is
/// the last node of the arena, it has no links and position 0, and its
/// identity is its ordinal.
pub open spec fn planted(v: TreeView, value: Item) -> TreeView {
    TreeView {
        nodes: v.nodes.push(
            ScenarioNode {
                value: value,
                bt: BranchType::Child,
                parent: None,
                child: None,
                neighbor: None,
                id: (v.nodes.len() + 1) as i32,
            },
        ),
        seqs: v.seqs.push(0),
        root: v.root,
        limit: v.limit,
    }
}

/// There is room for one more node.
pub open spec fn has_room(v: TreeView) -> bool {
    v.nodes.len() < v.limit
}

/// The largest number of nodes that an arena can hold: every node has an
/// identity of its own.
pub const MAX_NODES: usize = 2147483646;

/// Creating a node keeps the tree well formed.
pub proof fn lemma_planted_wf(v: TreeView, value: Item)
    requires
        v.wf(),
        has_room(v),
    ensures
        planted(v, value).wf(),
{
    let w = planted(v, value);
    let r = ranking_of(v.nodes);
    let l = Ranking { rank: r.rank.push(0), bound: r.bound + 1 };
    assert(r.fits(v.nodes));
    assert forall|i: int| 0 <= i < w.nodes.len() implies #[trigger] linked(w.nodes, i) by {
        if i < v.nodes.len() {
            assert(linked(v.nodes, i));
        }
    }
    assert forall|i: int| 0 <= i < w.nodes.len() implies #[trigger] l.rises(w.nodes, i) by {
        if i < v.nodes.len() {
            assert(r.rises(v.nodes, i));
        }
    }
    assert(l.fits(w.nodes));
}

/// A ranking of a forest ranks a node at least as high as any node it is under.
pub proof fn lemma_under_rank(nodes: Seq<ScenarioNode>, r: Ranking, x: int, y: int)
    requires
        shaped(nodes),
        r.fits(nodes),
        0 <= x < nodes.len(),
        is_under(nodes, x, y),
    ensures
        r.rank[y] <= r.rank[x],
        0 <= y < nodes.len(),
    decreases r.rank[x],
{
    assert(r.rises(nodes, x));
    if x != y {
        let p = nodes[x].parent->0;
        lemma_under_rank(nodes, r, p as int, y);
    }
}

/// In a forest, a node, its owner, its first child and its next sibling are
/// four different nodes, and each link stays inside the arena.
pub proof fn lemma_apart(nodes: Seq<ScenarioNode>, b: int)
    requires
        shaped(nodes),
        0 <= b < nodes.len(),
    ensures
        linked(nodes, b),
        nodes[b].parent matches Some(p) ==> p < nodes.len() && p != b && nodes[b].child != Some(p)
            && nodes[b].neighbor != Some(p),
        nodes[b].child matches Some(c) ==> c < nodes.len() && c != b && nodes[b].neighbor
            != Some(c),
        nodes[b].neighbor matches Some(n) ==> n < nodes.len() && n != b,
{
    let r = ranking_of(nodes);
    assert(r.fits(nodes));
    assert(linked(nodes, b));
    assert(r.rises(nodes, b));
    if nodes[b].child is Some {
        assert(r.rises(nodes, nodes[b].child->0 as int));
    }
    if nodes[b].neighbor is Some {
        assert(r.rises(nodes, nodes[b].neighbor->0 as int));
    }
}

impl TreeView {
    /// The tree is well formed: its links form a forest, every node has a
    /// position, the arena holds no more nodes than it can, its root has no
    /// owner, and the identity of a node is its ordinal in the order of
    /// creation, counted from 1.
    pub open spec fn wf(self) -> bool {
        &&& shaped(self.nodes)
        &&& self.seqs.len() == self.nodes.len()
        &&& self.nodes.len() <= self.limit <= MAX_NODES
        &&& self.root matches Some(r) ==> r < self.nodes.len() && self.nodes[r as int].parent
            is None
        &&& numbered(self.nodes)
    }

    /// `n` is a node of the tree.
    pub open spec fn has(self, n: NodeId) -> bool {
        n < self.nodes.len()
    }
}

/// An arena of scenario nodes.
pub struct ScenarioTree {
    nodes: Vec<ScenarioNode>,
    seqs: Vec<usize>,
    root: Option<NodeId>,
    limit: usize,
}

impl View for ScenarioTree {
    type V = TreeView;

    closed spec fn view(&self) -> TreeView {
        TreeView {
            nodes: self.nodes@,
            seqs: self.seqs@,
            root: self.root,
            limit: self.limit as nat,
        }
    }
}

impl ScenarioTree {
    /// An empty tree with room for as many nodes as an arena can hold.
    pub fn new() -> (t: ScenarioTree)
        ensures
            t@.wf(),
            t@.nodes.len() == 0,
            t@.seqs.len() == 0,
            t@.root is None,
            t@.limit == MAX_NODES,
    {
        ScenarioTree::with_limit(MAX_NODES)
    }

    /// An empty tree with room for `limit` nodes, or for as many as an arena
    /// can hold where `limit` is more than that.
    pub fn with_limit(limit: usize) -> (t: ScenarioTree)
        ensures
            t@.wf(),
            t@.nodes.len() == 0,
            t@.seqs.len() == 0,
            t@.root is None,
            t@.limit == (if limit <= MAX_NODES {
                limit
            } else {
                MAX_NODES
            }),
    {
        let limit = if limit <= MAX_NODES {
            limit
        } else {
            MAX_NODES
        };
        let t = ScenarioTree { nodes: Vec::new(), seqs: Vec::new(), root: None, limit: limit };
        proof {
            let r = Ranking { rank: Seq::empty(), bound: 0 };
            assert(r.fits(t@.nodes));
        }
        t
    }

    /// The number of nodes that the arena can hold.
    pub fn limit(&self) -> (n: usize)
        ensures
            n == self@.limit,
    {
        self.limit
    }

    /// The number of nodes ever created in the tree.
    pub fn len(&self) -> (n: usize)
        ensures
            n == self@.nodes.len(),
    {
        self.nodes.len()
    }

    /// The head of the top-level scope, if the tree is not empty.
    pub fn root(&self) -> (r: Option<NodeId>)
        ensures
            r == self@.root,
    {
        self.root
    }

    /// The node stored under `i`, if there is one.
    pub fn get(&self, i: NodeId) -> (r: Option<&ScenarioNode>)
        ensures
            r == (if i < self@.nodes.len() {
                Some(&self@.nodes[i as int])
            } else {
                None
            }),
    {
        if i < self.nodes.len() {
            Some(&self.nodes[i])
        } else {
            None
        }
    }

    /// Whether one more node can be created.
    pub fn has_room(&self) -> (r: bool)
        ensures
            r == has_room(self@),
    {
        self.nodes.len() < self.limit
    }

    /// Stores `node` as a new node of the tree and gives its index. Only the
    /// payload of `node` is kept: the new node has no links, position 0, and
    /// the next identity. Nothing is stored where the arena is full.
    pub fn plant(&mut self, node: ScenarioNode) -> (r: Option<NodeId>)
        requires
            old(self)@.wf(),
        ensures
            final(self)@.wf(),
            r is Some <==> has_room(old(self)@),
            r matches Some(i) ==> i == old(self)@.nodes.len() && final(self)@ == planted(
                old(self)@,
                node.value,
            ),
            r is None ==> final(self)@ == old(self)@,
    {
        let n = self.nodes.len();
        if n >= self.limit {
            return None;
        }
        proof {
            lemma_planted_wf(self@, node.value);
        }
        let fresh = ScenarioNode {
            value: node.value,
            bt: BranchType::Child,
            parent: None,
            child: None,
            neighbor: None,
            id: (n + 1) as i32,
        };
        self.nodes.push(fresh);
        self.seqs.push(0);
        Some(n)
    }

    /// Takes `nodes` as they are, gives every node its ordinal as identity
    /// and position 0, and remembers `root`.
    pub(crate) fn assemble(nodes: Vec<ScenarioNode>, root: Option<NodeId>) -> (t: ScenarioTree)
        requires
            nodes@.len() <= MAX_NODES,
        ensures
            t@.limit == MAX_NODES,
            t@.nodes == Seq::new(
                nodes@.len(),
                |i: int| ScenarioNode { id: (i + 1) as i32, ..nodes@[i] },
            ),
            t@.seqs == Seq::new(nodes@.len(), |i: int| 0usize),
            t@.root == root,
    {
        let ghost given = nodes@;
        let mut nodes = nodes;
        let n = nodes.len();
        let mut seqs: Vec<usize> = Vec::new();
        let mut i: usize = 0;
        while i < n
            invariant
                i <= n,
                n == nodes@.len(),
                n == given.len(),
                n <= MAX_NODES,
                seqs@ == Seq::new(i as nat, |j: int| 0usize),
                forall|j: int|
                    0 <= j < n ==> #[trigger] nodes@[j] == (if j < i {
                        ScenarioNode { id: (j + 1) as i32, ..given[j] }
                    } else {
                        given[j]
                    }),
            decreases n - i,
        {
            nodes[i].id = (i + 1) as i32;
            seqs.push(0);
            i = i + 1;
            assert(seqs@ =~= Seq::new(i as nat, |j: int| 0usize));
        }
        let t = ScenarioTree { nodes: nodes, seqs: seqs, root: root, limit: MAX_NODES };
        assert(t@.nodes =~= Seq::new(
            given.len(),
            |i: int| ScenarioNode { id: (i + 1) as i32, ..given[i] },
        ));
        t
    }

    /// The node stored under `i`.
    pub(crate) fn node(&self, i: NodeId) -> (r: &ScenarioNode)
        requires
            i < self@.nodes.len(),
        ensures
            *r == self@.nodes[i as int],
    {
        &self.nodes[i]
    }

    /// Writes the branch type and the owner of node `i`, and nothing else.
    pub(crate) fn put_owner(&mut self, i: NodeId, bt: BranchType, p: Option<NodeId>)
        requires
            i < old(self)@.nodes.len(),
        ensures
            final(self)@ == (TreeView {
                nodes: old(self)@.nodes.update(
                    i as int,
                    ScenarioNode { bt: bt, parent: p, ..old(self)@.nodes[i as int] },
                ),
                ..old(self)@
            }),
    {
        self.nodes[i].bt = bt;
        self.nodes[i].parent = p;
    }

    /// Writes the `child` link of node `i`, and nothing else.
    pub(crate) fn put_child(&mut self, i: NodeId, c: Option<NodeId>)
        requires
            i < old(self)@.nodes.len(),
        ensures
            final(self)@ == (TreeView {
                nodes: old(self)@.nodes.update(
                    i as int,
                    ScenarioNode { child: c, ..old(self)@.nodes[i as int] },
                ),
                ..old(self)@
            }),
    {
        self.nodes[i].child = c;
    }

    /// Writes the `neighbor` link of node `i`, and nothing else.
    pub(crate) fn put_neighbor(&mut self, i: NodeId, n: Option<NodeId>)
        requires
            i < old(self)@.nodes.len(),
        ensures
            final(self)@ == (TreeView {
                nodes: old(self)@.nodes.update(
                    i as int,
                    ScenarioNode { neighbor: n, ..old(self)@.nodes[i as int] },
                ),
                ..old(self)@
            }),
    {
        self.nodes[i].neighbor = n;
    }

    /// The position of node `i`.
    pub(crate) fn seqs_at(&self, i: NodeId) -> (r: usize)
        requires
            i < self@.seqs.len(),
        ensures
            r == self@.seqs[i as int],
    {
        self.seqs[i]
    }

    /// Writes the position of node `i`, and nothing else.
    pub(crate) fn put_seq(&mut self, i: NodeId, s: usize)
        requires
            i < old(self)@.seqs.len(),
        ensures
            final(self)@ == (TreeView {
                seqs: old(self)@.seqs.update(i as int, s),
                ..old(self)@
            }),
    {
        self.seqs[i] = s;
    }

    /// The position of node `i` within its scope, if there is such a node.
    pub fn sequence(&self, i: NodeId) -> (r: Option<usize>)
        ensures
            r == (if i < self@.seqs.len() {
                Some(self@.seqs[i as int])
            } else {
                None
            }),
    {
        if i < self.seqs.len() {
            Some(self.seqs[i])
        } else {
            None
        }
    }

    /// Writes the root, and nothing else.
    pub(crate) fn put_root(&mut self, r: Option<NodeId>)
        ensures
            final(self)@ == (TreeView { root: r, ..old(self)@ }),
    {
        self.root = r;
    }
}

} // verus!
