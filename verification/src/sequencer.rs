//! Scopes and the positions of their members.
//!
//! A scope is the list of nodes met from a head along `neighbor` links: the
//! top-level chain, or the children of one node. Every node carries its
//! position in its scope, counted from 0. Structural edits leave positions
//! alone; the functions here read a scope off the tree and put positions
//! right again, for a whole scope or from one index on.

use vstd::prelude::*;
use vstd::set_lib::{lemma_int_range, lemma_len_subset, set_int_range};
use crate::scenario_node::{BranchType, NodeId, ScenarioNode};
use crate::tree::{chain, lemma_apart, ranking_of, shaped, Ranking, ScenarioTree, TreeView};

verus! {

/// The position of node `i` is one more than that of the sibling before it,
/// or 0 where it is the head of its scope.
pub open spec fn seq_ok(v: TreeView, i: int) -> bool {
    v.seqs[i] == (if v.nodes[i].bt == BranchType::Neighbor && v.nodes[i].parent is Some {
        v.seqs[v.nodes[i].parent->0 as int] + 1
    } else {
        0
    })
}

/// Every node carries its position in its scope.
pub open spec fn sequenced(v: TreeView) -> bool {
    forall|i: int| 0 <= i < v.nodes.len() ==> #[trigger] seq_ok(v, i)
}

/// The head of the scope of `x`: the first node met from `x` against
/// `neighbor` links.
pub open spec fn head_of(nodes: Seq<ScenarioNode>, x: int) -> int
    decreases ranking_of(nodes).rank[x],
    when shaped(nodes) && 0 <= x < nodes.len()
{
    proof {
        assert(ranking_of(nodes).rises(nodes, x));
    }
    if nodes[x].bt == BranchType::Neighbor && nodes[x].parent is Some {
        head_of(nodes, nodes[x].parent->0 as int)
    } else {
        x
    }
}

/// The scope that `x` is a member of.
pub open spec fn scope_of(nodes: Seq<ScenarioNode>, x: int) -> Seq<NodeId> {
    chain(nodes, Some(head_of(nodes, x) as usize))
}

/// A chain starts with its head and goes on with the chain of the next
/// sibling of the head.
pub proof fn lemma_chain_unfold(nodes: Seq<ScenarioNode>, x: NodeId)
    requires
        shaped(nodes),
        x < nodes.len(),
    ensures
        chain(nodes, Some(x)) == seq![x] + chain(nodes, nodes[x as int].neighbor),
        chain(nodes, Some(x)).len() == 1 + chain(nodes, nodes[x as int].neighbor).len(),
        chain(nodes, Some(x))[0] == x,
        nodes[x as int].neighbor matches Some(m) ==> m < nodes.len(),
{
    lemma_apart(nodes, x as int);
}

/// The members of a chain are nodes of the tree, and each is followed by its
/// next sibling; the last one has none.
pub proof fn lemma_chain_step(nodes: Seq<ScenarioNode>, start: NodeId, j: int)
    requires
        shaped(nodes),
        start < nodes.len(),
        0 <= j < chain(nodes, Some(start)).len(),
    ensures
        chain(nodes, Some(start))[j] < nodes.len(),
        j + 1 < chain(nodes, Some(start)).len() ==> nodes[chain(nodes, Some(start))[j] as int].neighbor
            == Some(chain(nodes, Some(start))[j + 1]),
        j + 1 == chain(nodes, Some(start)).len() ==> nodes[chain(
            nodes,
            Some(start),
        )[j] as int].neighbor is None,
    decreases j,
{
    lemma_chain_unfold(nodes, start);
    let rest = nodes[start as int].neighbor;
    if j == 0 {
        if rest is Some {
            lemma_chain_unfold(nodes, rest->0);
        }
    } else {
        lemma_chain_step(nodes, rest->0, j - 1);
    }
}

/// In a tree whose positions are right, the positions along a chain grow by
/// one from member to member.
pub proof fn lemma_chain_seq(v: TreeView, start: NodeId, j: int)
    requires
        v.wf(),
        sequenced(v),
        start < v.nodes.len(),
        0 <= j < chain(v.nodes, Some(start)).len(),
    ensures
        chain(v.nodes, Some(start))[j] < v.nodes.len(),
        v.seqs[chain(v.nodes, Some(start))[j] as int] == v.seqs[start as int] + j,
    decreases j,
{
    let nodes = v.nodes;
    let c = chain(nodes, Some(start));
    lemma_chain_unfold(nodes, start);
    if j > 0 {
        lemma_chain_seq(v, start, j - 1);
        lemma_chain_step(nodes, start, j - 1);
        lemma_chain_step(nodes, start, j);
        lemma_apart(nodes, c[j - 1] as int);
        assert(seq_ok(v, c[j] as int));
    }
}

/// No node occurs twice in a chain.
pub proof fn lemma_chain_distinct(nodes: Seq<ScenarioNode>, start: NodeId)
    requires
        shaped(nodes),
        start < nodes.len(),
    ensures
        chain(nodes, Some(start)).no_duplicates(),
        forall|j: int|
            0 <= j < chain(nodes, Some(start)).len() ==> #[trigger] chain(nodes, Some(start))[j]
                < nodes.len(),
{
    let c = chain(nodes, Some(start));
    let r = ranking_of(nodes);
    assert forall|j: int| 0 <= j < c.len() implies #[trigger] c[j] < nodes.len() by {
        lemma_chain_step(nodes, start, j);
    }
    assert forall|i: int, j: int| 0 <= i < c.len() && 0 <= j < c.len() && i != j implies c[i]
        != c[j] by {
        lemma_chain_gap(nodes, r, start, i, j);
        lemma_chain_gap(nodes, r, start, j, i);
    }
}

/// A ranking separates two members of a chain by at least their distance.
pub proof fn lemma_chain_gap(nodes: Seq<ScenarioNode>, r: Ranking, start: NodeId, i: int, j: int)
    requires
        shaped(nodes),
        r == ranking_of(nodes),
        start < nodes.len(),
        0 <= i < chain(nodes, Some(start)).len(),
        0 <= j < chain(nodes, Some(start)).len(),
    ensures
        i < j ==> r.rank[chain(nodes, Some(start))[i] as int] < r.rank[chain(
            nodes,
            Some(start),
        )[j] as int],
    decreases j,
{
    let c = chain(nodes, Some(start));
    if i < j {
        lemma_chain_step(nodes, start, j - 1);
        lemma_chain_step(nodes, start, j);
        lemma_apart(nodes, c[j - 1] as int);
        assert(r.fits(nodes));
        assert(r.rises(nodes, c[j] as int));
        if i < j - 1 {
            lemma_chain_gap(nodes, r, start, i, j - 1);
        }
    }
}

/// A list of distinct numbers below `n` has at most `n` members.
pub proof fn lemma_short(c: Seq<NodeId>, n: nat)
    requires
        c.no_duplicates(),
        forall|j: int| 0 <= j < c.len() ==> #[trigger] c[j] < n,
    ensures
        c.len() <= n,
{
    let m = c.map_values(|x: NodeId| x as int);
    assert(m.no_duplicates());
    m.unique_seq_to_set();
    lemma_int_range(0, n as int);
    assert forall|x: int| m.to_set().contains(x) implies set_int_range(0, n as int).contains(
        x,
    ) by {
        let j = choose|j: int| 0 <= j < m.len() && m[j] == x;
        assert(c[j] < n);
    }
    lemma_len_subset(m.to_set(), set_int_range(0, n as int));
}

/// The position that the links give to node `i`: the number of siblings
/// before it in its scope.
pub open spec fn position(nodes: Seq<ScenarioNode>, i: int) -> nat
    decreases ranking_of(nodes).rank[i],
    when shaped(nodes) && 0 <= i < nodes.len()
{
    proof {
        assert(ranking_of(nodes).rises(nodes, i));
    }
    if nodes[i].bt == BranchType::Neighbor && nodes[i].parent is Some {
        position(nodes, nodes[i].parent->0 as int) + 1
    } else {
        0
    }
}

/// The state with every node at the position that the links give it.
pub open spec fn resequenced(v: TreeView) -> TreeView {
    TreeView { seqs: Seq::new(v.nodes.len(), |i: int| position(v.nodes, i) as usize), ..v }
}

/// Where positions are right, each is the position that the links give.
pub proof fn lemma_position(v: TreeView, i: int)
    requires
        v.wf(),
        sequenced(v),
        0 <= i < v.nodes.len(),
    ensures
        v.seqs[i] == position(v.nodes, i),
    decreases ranking_of(v.nodes).rank[i],
{
    let r = ranking_of(v.nodes);
    assert(r.fits(v.nodes));
    assert(r.rises(v.nodes, i));
    assert(seq_ok(v, i));
    if v.nodes[i].bt == BranchType::Neighbor && v.nodes[i].parent is Some {
        lemma_position(v, v.nodes[i].parent->0 as int);
    }
}

/// A well-formed tree whose positions are right is the tree that its links
/// and its root determine.
pub proof fn lemma_resequenced(v: TreeView, w: TreeView)
    requires
        v.wf(),
        sequenced(v),
        v.nodes == w.nodes,
        v.root == w.root,
        v.limit == w.limit,
    ensures
        v == resequenced(w),
{
    assert forall|i: int| 0 <= i < v.nodes.len() implies v.seqs[i] == resequenced(w).seqs[i] by {
        lemma_position(v, i);
    }
    assert(v.seqs =~= resequenced(w).seqs);
}

/// Every node stands in its scope at the position that the links give it;
/// the head of the scope is a node that no `neighbor` link leads to.
pub proof fn lemma_position_member(nodes: Seq<ScenarioNode>, x: int)
    requires
        shaped(nodes),
        0 <= x < nodes.len(),
    ensures
        0 <= head_of(nodes, x) < nodes.len(),
        nodes[head_of(nodes, x)].bt == BranchType::Child,
        position(nodes, x) < scope_of(nodes, x).len(),
        scope_of(nodes, x)[position(nodes, x) as int] == x,
        position(nodes, x) < nodes.len(),
    decreases ranking_of(nodes).rank[x],
{
    let r = ranking_of(nodes);
    assert(r.fits(nodes));
    assert(r.rises(nodes, x));
    lemma_apart(nodes, x);
    if nodes[x].bt == BranchType::Neighbor && nodes[x].parent is Some {
        let p = nodes[x].parent->0 as int;
        lemma_position_member(nodes, p);
        let h = head_of(nodes, x) as usize;
        assert(head_of(nodes, p) == h);
        lemma_chain_step(nodes, h, position(nodes, p) as int);
    } else {
        lemma_chain_unfold(nodes, x as usize);
    }
    lemma_chain_distinct(nodes, head_of(nodes, x) as usize);
    lemma_short(scope_of(nodes, x), nodes.len());
}

/// Numbering a well-formed tree by its links gives a well-formed tree whose
/// positions are right.
pub proof fn lemma_resequenced_ok(v: TreeView)
    requires
        v.wf(),
    ensures
        resequenced(v).wf(),
        sequenced(resequenced(v)),
{
    let w = resequenced(v);
    assert forall|i: int| 0 <= i < w.nodes.len() implies #[trigger] seq_ok(w, i) by {
        lemma_apart(v.nodes, i);
        lemma_position_member(v.nodes, i);
        if v.nodes[i].bt == BranchType::Neighbor && v.nodes[i].parent is Some {
            lemma_position_member(v.nodes, v.nodes[i].parent->0 as int);
        }
    }
}

/// Every node is a member of its scope; where positions are right, it stands
/// in its scope at its position.
pub proof fn lemma_member(v: TreeView, x: int)
    requires
        v.wf(),
        0 <= x < v.nodes.len(),
    ensures
        0 <= head_of(v.nodes, x) < v.nodes.len(),
        v.nodes[head_of(v.nodes, x)].bt == BranchType::Child,
        scope_of(v.nodes, x).contains(x as usize),
        sequenced(v) ==> v.seqs[x] < scope_of(v.nodes, x).len() && scope_of(
            v.nodes,
            x,
        )[v.seqs[x] as int] == x,
{
    lemma_position_member(v.nodes, x);
    if sequenced(v) {
        lemma_position(v, x);
    }
}

/// A scope has no more members than the tree has nodes, and where positions
/// are right, the position of a node is smaller than the length of its scope.
pub proof fn lemma_seq_bound(v: TreeView, x: int)
    requires
        v.wf(),
        0 <= x < v.nodes.len(),
    ensures
        scope_of(v.nodes, x).len() <= v.nodes.len(),
        sequenced(v) ==> v.seqs[x] < v.nodes.len(),
{
    lemma_member(v, x);
    lemma_chain_distinct(v.nodes, head_of(v.nodes, x) as usize);
    lemma_short(scope_of(v.nodes, x), v.nodes.len());
}

/// What holds of the scope of a node where positions are right: its members
/// are distinct nodes of the tree, each stands at its position and is
/// followed by its next sibling, and the last one has no next sibling.
pub proof fn lemma_scope_facts(v: TreeView, x: int)
    requires
        v.wf(),
        sequenced(v),
        0 <= x < v.nodes.len(),
    ensures
        scope_of(v.nodes, x).no_duplicates(),
        v.seqs[x] < scope_of(v.nodes, x).len(),
        scope_of(v.nodes, x)[v.seqs[x] as int] == x,
        scope_of(v.nodes, x).len() <= v.nodes.len(),
        forall|j: int|
            #![trigger scope_of(v.nodes, x)[j]]
            0 <= j < scope_of(v.nodes, x).len() ==> {
                let c = scope_of(v.nodes, x);
                &&& c[j] < v.nodes.len()
                &&& v.seqs[c[j] as int] == j
                &&& j + 1 < c.len() ==> v.nodes[c[j] as int].neighbor == Some(c[j + 1])
                &&& j + 1 == c.len() ==> v.nodes[c[j] as int].neighbor is None
                &&& j > 0 ==> v.nodes[c[j] as int].parent == Some(c[j - 1]) && v.nodes[c[j] as int].bt
                    == BranchType::Neighbor
            },
{
    let c = scope_of(v.nodes, x);
    let h = head_of(v.nodes, x) as usize;
    lemma_member(v, x);
    lemma_seq_bound(v, x);
    lemma_chain_distinct(v.nodes, h);
    assert(seq_ok(v, h as int));
    assert forall|j: int| #![trigger c[j]] 0 <= j < c.len() implies {
        &&& c[j] < v.nodes.len()
        &&& v.seqs[c[j] as int] == j
        &&& j + 1 < c.len() ==> v.nodes[c[j] as int].neighbor == Some(c[j + 1])
        &&& j + 1 == c.len() ==> v.nodes[c[j] as int].neighbor is None
        &&& j > 0 ==> v.nodes[c[j] as int].parent == Some(c[j - 1]) && v.nodes[c[j] as int].bt
            == BranchType::Neighbor
    } by {
        lemma_chain_seq(v, h, j);
        lemma_chain_step(v.nodes, h, j);
        if j > 0 {
            lemma_chain_step(v.nodes, h, j - 1);
            lemma_apart(v.nodes, c[j - 1] as int);
        }
    }
}

/// `i` stands in `scope` at index `from` or later.
pub open spec fn listed(scope: Seq<NodeId>, from: int, i: int) -> bool {
    exists|k: int| from <= k < scope.len() && #[trigger] scope[k] == i
}

/// The state after `delta` has been added to the position of every node that
/// stands in `scope` at index `from` or later.
pub open spec fn reindexed(v: TreeView, scope: Seq<NodeId>, from: int, delta: int) -> TreeView {
    TreeView {
        seqs: Seq::new(
            v.seqs.len(),
            |i: int|
                if listed(scope, from, i) {
                    (v.seqs[i] + delta) as usize
                } else {
                    v.seqs[i]
                },
        ),
        ..v
    }
}

/// The state after every member of the chain from `head` has got its index in
/// that chain as its position.
pub open spec fn recounted(v: TreeView, head: NodeId) -> TreeView {
    let c = chain(v.nodes, Some(head));
    TreeView {
        seqs: Seq::new(
            v.seqs.len(),
            |i: int|
                if c.contains(i as usize) {
                    c.index_of(i as usize) as usize
                } else {
                    v.seqs[i]
                },
        ),
        ..v
    }
}

impl ScenarioTree {
    /// The head of the scope that `n` is a member of.
    pub fn scope_head(&self, n: NodeId) -> (h: Option<NodeId>)
        requires
            self@.wf(),
        ensures
            h == (if self@.has(n) {
                Some(head_of(self@.nodes, n as int) as usize)
            } else {
                None
            }),
            h matches Some(x) ==> self@.has(x),
    {
        if n >= self.len() {
            return None;
        }
        let mut cur: NodeId = n;
        loop
            invariant
                self@.wf(),
                n < self@.nodes.len(),
                cur < self@.nodes.len(),
                head_of(self@.nodes, n as int) == head_of(self@.nodes, cur as int),
            decreases ranking_of(self@.nodes).rank[cur as int],
        {
            proof {
                assert(ranking_of(self@.nodes).rises(self@.nodes, cur as int));
                lemma_member(self@, cur as int);
            }
            let node = self.node(cur);
            match node.parent {
                Some(p) => {
                    if node.bt == BranchType::Neighbor {
                        cur = p;
                    } else {
                        return Some(cur);
                    }
                },
                None => {
                    return Some(cur);
                },
            }
        }
    }

    /// The nodes met from `head` along `neighbor` links, `head` first. The
    /// list is empty where `head` is no node of the tree.
    pub fn scope_from(&self, head: NodeId) -> (scope: Vec<NodeId>)
        requires
            self@.wf(),
        ensures
            scope@ == (if self@.has(head) {
                chain(self@.nodes, Some(head))
            } else {
                Seq::empty()
            }),
            scope@.no_duplicates(),
            forall|j: int| 0 <= j < scope@.len() ==> #[trigger] scope@[j] < self@.nodes.len(),
    {
        let mut out: Vec<NodeId> = Vec::new();
        if head >= self.len() {
            return out;
        }
        proof {
            lemma_chain_distinct(self@.nodes, head);
        }
        let mut cur: Option<NodeId> = Some(head);
        loop
            invariant
                self@.wf(),
                head < self@.nodes.len(),
                cur matches Some(x) ==> x < self@.nodes.len(),
                out@ + chain(self@.nodes, cur) == chain(self@.nodes, Some(head)),
                chain(self@.nodes, Some(head)).no_duplicates(),
                forall|j: int|
                    0 <= j < chain(self@.nodes, Some(head)).len() ==> #[trigger] chain(
                        self@.nodes,
                        Some(head),
                    )[j] < self@.nodes.len(),
            decreases
                    (match cur {
                        Some(x) => ranking_of(self@.nodes).bound - ranking_of(
                            self@.nodes,
                        ).rank[x as int],
                        None => 0,
                    }),
        {
            match cur {
                None => {
                    assert(out@ =~= chain(self@.nodes, Some(head)));
                    return out;
                },
                Some(x) => {
                    proof {
                        lemma_chain_unfold(self@.nodes, x);
                        let r = ranking_of(self@.nodes);
                        assert(r.fits(self@.nodes));
                        assert(r.rises(self@.nodes, x as int));
                        lemma_apart(self@.nodes, x as int);
                        if self@.nodes[x as int].neighbor is Some {
                            assert(r.rises(self@.nodes, self@.nodes[x as int].neighbor->0 as int));
                        }
                        assert(out@.push(x) + chain(self@.nodes, self@.nodes[x as int].neighbor)
                            =~= out@ + chain(self@.nodes, cur));
                    }
                    out.push(x);
                    cur = self.node(x).neighbor;
                },
            }
        }
    }

    /// The scope that `n` is a member of, head first. The list is empty where
    /// `n` is no node of the tree.
    pub fn scope(&self, n: NodeId) -> (scope: Vec<NodeId>)
        requires
            self@.wf(),
        ensures
            scope@ == (if self@.has(n) {
                scope_of(self@.nodes, n as int)
            } else {
                Seq::empty()
            }),
            scope@.no_duplicates(),
            forall|j: int| 0 <= j < scope@.len() ==> #[trigger] scope@[j] < self@.nodes.len(),
    {
        match self.scope_head(n) {
            Some(h) => self.scope_from(h),
            None => Vec::new(),
        }
    }

    /// The children of `n`, first child first, or `None` where `n` has no
    /// child or is no node of the tree.
    pub fn child_scope(&self, n: NodeId) -> (scope: Option<Vec<NodeId>>)
        requires
            self@.wf(),
        ensures
            scope is Some <==> self@.has(n) && self@.nodes[n as int].child is Some,
            scope matches Some(s) ==> s@ == chain(self@.nodes, self@.nodes[n as int].child),
    {
        if n >= self.len() {
            return None;
        }
        match self.node(n).child {
            None => None,
            Some(c) => {
                proof {
                    lemma_apart(self@.nodes, n as int);
                }
                Some(self.scope_from(c))
            },
        }
    }

    /// Adds `delta` to the position of every node that stands in `scope` at
    /// `from_index` or later.
    pub fn reindex(&mut self, scope: &Vec<NodeId>, from_index: usize, delta: isize)
        requires
            old(self)@.wf(),
            scope@.no_duplicates(),
            forall|k: int| 0 <= k < scope@.len() ==> #[trigger] scope@[k] < old(self)@.nodes.len(),
            forall|k: int|
                from_index <= k < scope@.len() ==> 0 <= old(self)@.seqs[(#[trigger] scope@[k]) as int]
                    + delta <= usize::MAX,
        ensures
            final(self)@ == reindexed(old(self)@, scope@, from_index as int, delta as int),
            final(self)@.wf(),
    {
        let mut k: usize = from_index;
        if k >= scope.len() {
            assert(self@.seqs =~= reindexed(self@, scope@, from_index as int, delta as int).seqs);
            return ;
        }
        assert(self@.seqs =~= reindexed(
            self@,
            scope@.subrange(0, k as int),
            from_index as int,
            delta as int,
        ).seqs);
        while k < scope.len()
            invariant
                from_index <= k <= scope@.len(),
                old(self)@.wf(),
                scope@.no_duplicates(),
                forall|j: int|
                    0 <= j < scope@.len() ==> #[trigger] scope@[j] < old(self)@.nodes.len(),
                forall|j: int|
                    from_index <= j < scope@.len() ==> 0 <= old(self)@.seqs[(
                    #[trigger] scope@[j]) as int] + delta <= usize::MAX,
                self@ == reindexed(
                    old(self)@,
                    scope@.subrange(0, k as int),
                    from_index as int,
                    delta as int,
                ),
            decreases scope@.len() - k,
        {
            let x = scope[k];
            let ghost before = self@;
            proof {
                assert(!listed(scope@.subrange(0, k as int), from_index as int, x as int)) by {
                    if listed(scope@.subrange(0, k as int), from_index as int, x as int) {
                        let j = choose|j: int|
                            from_index <= j < scope@.subrange(0, k as int).len() && scope@.subrange(
                                0,
                                k as int,
                            )[j] == x as int;
                        assert(scope@[j] == scope@[k as int]);
                    }
                }
                assert(scope@[k as int] == x);
            }
            let s = self.seqs_at(x);
            let t: usize = if delta >= 0 {
                s + (delta as usize)
            } else {
                s - ((-(delta + 1)) as usize) - 1
            };
            self.put_seq(x, t);
            proof {
                let a = scope@.subrange(0, k as int);
                let b = scope@.subrange(0, k as int + 1);
                assert forall|i: int| 0 <= i < self@.seqs.len() implies self@.seqs[i] == reindexed(
                    old(self)@,
                    b,
                    from_index as int,
                    delta as int,
                ).seqs[i] by {
                    if listed(b, from_index as int, i) {
                        let j = choose|j: int| from_index <= j < b.len() && b[j] == i;
                        if j < k {
                            assert(a[j] == i);
                            assert(listed(a, from_index as int, i));
                        }
                    } else {
                        if listed(a, from_index as int, i) {
                            let j = choose|j: int| from_index <= j < a.len() && a[j] == i;
                            assert(b[j] == i);
                        }
                        assert(b[k as int] == x);
                    }
                }
                assert(self@.seqs =~= reindexed(
                    old(self)@,
                    b,
                    from_index as int,
                    delta as int,
                ).seqs);
            }
            k = k + 1;
        }
        assert(scope@.subrange(0, k as int) =~= scope@);
    }

    /// Gives every member of the chain from `head` its index in that chain as
    /// its position: the count from scratch.
    pub fn recount(&mut self, head: NodeId)
        requires
            old(self)@.wf(),
        ensures
            final(self)@.wf(),
            final(self)@ == (if old(self)@.has(head) {
                recounted(old(self)@, head)
            } else {
                old(self)@
            }),
    {
        if head >= self.len() {
            return ;
        }
        let scope = self.scope_from(head);
        let ghost c = scope@;
        let mut k: usize = 0;
        while k < scope.len()
            invariant
                k <= scope@.len(),
                scope@ == c,
                c == chain(old(self)@.nodes, Some(head)),
                c.no_duplicates(),
                forall|j: int| 0 <= j < c.len() ==> #[trigger] c[j] < old(self)@.nodes.len(),
                old(self)@.wf(),
                self@.nodes == old(self)@.nodes,
                self@.root == old(self)@.root,
                self@.limit == old(self)@.limit,
                self@.seqs.len() == old(self)@.seqs.len(),
                forall|i: int|
                    0 <= i < self@.seqs.len() ==> #[trigger] self@.seqs[i] == (if
                        c.subrange(0, k as int).contains(i as usize) {
                        c.index_of(i as usize) as usize
                    } else {
                        old(self)@.seqs[i]
                    }),
            decreases scope@.len() - k,
        {
            let x = scope[k];
            proof {
                assert(c[k as int] == x);
                assert(c.index_of(x) == k) by {
                    assert(c.contains(x));
                    let j = c.index_of(x);
                    assert(0 <= j < c.len() && c[j] == x);
                }
            }
            self.put_seq(x, k);
            proof {
                let a = c.subrange(0, k as int);
                let b = c.subrange(0, k as int + 1);
                assert forall|i: int| 0 <= i < self@.seqs.len() implies #[trigger] self@.seqs[i]
                    == (if b.contains(i as usize) {
                    c.index_of(i as usize) as usize
                } else {
                    old(self)@.seqs[i]
                }) by {
                    if b.contains(i as usize) {
                        let j = choose|j: int| 0 <= j < b.len() && b[j] == i as usize;
                        if j < k {
                            assert(a[j] == i as usize);
                        }
                    } else {
                        if a.contains(i as usize) {
                            let j = choose|j: int| 0 <= j < a.len() && a[j] == i as usize;
                            assert(b[j] == i as usize);
                        }
                        assert(b[k as int] == x);
                    }
                }
            }
            k = k + 1;
        }
        assert(c.subrange(0, k as int) =~= c);
        assert(self@.seqs =~= recounted(old(self)@, head).seqs);
    }

    /// The position that the links give to node `x`: the number of siblings
    /// before it in its scope. `None` where `x` is no node of the tree.
    pub fn position(&self, x: NodeId) -> (r: Option<usize>)
        requires
            self@.wf(),
        ensures
            r == (if self@.has(x) {
                Some(position(self@.nodes, x as int) as usize)
            } else {
                None
            }),
    {
        if x >= self.len() {
            return None;
        }
        let mut cur: NodeId = x;
        let mut p: usize = 0;
        proof {
            lemma_position_member(self@.nodes, x as int);
        }
        loop
            invariant
                self@.wf(),
                x < self@.nodes.len(),
                cur < self@.nodes.len(),
                position(self@.nodes, x as int) < self@.nodes.len(),
                p + position(self@.nodes, cur as int) == position(self@.nodes, x as int),
            decreases ranking_of(self@.nodes).rank[cur as int],
        {
            proof {
                assert(ranking_of(self@.nodes).rises(self@.nodes, cur as int));
            }
            let node = self.node(cur);
            match node.parent {
                Some(q) => {
                    if node.bt == BranchType::Neighbor {
                        p = p + 1;
                        cur = q;
                    } else {
                        return Some(p);
                    }
                },
                None => {
                    return Some(p);
                },
            }
        }
    }

    /// Gives every node the position that the links give it: the count from
    /// scratch for the whole tree.
    pub fn renumber(&mut self)
        requires
            old(self)@.wf(),
        ensures
            final(self)@ == resequenced(old(self)@),
            final(self)@.wf(),
            sequenced(final(self)@),
    {
        let n = self.len();
        let mut k: usize = 0;
        while k < n
            invariant
                k <= n,
                n == old(self)@.nodes.len(),
                old(self)@.wf(),
                self@.nodes == old(self)@.nodes,
                self@.root == old(self)@.root,
                self@.limit == old(self)@.limit,
                self@.seqs.len() == n,
                forall|j: int|
                    0 <= j < k ==> #[trigger] self@.seqs[j] == resequenced(old(self)@).seqs[j],
            decreases n - k,
        {
            let p = match self.position(k) {
                Some(p) => p,
                None => 0,
            };
            self.put_seq(k, p);
            k = k + 1;
        }
        assert(self@.seqs =~= resequenced(old(self)@).seqs);
        proof {
            lemma_resequenced_ok(old(self)@);
        }
    }
}

} // verus!
