use scenario_tree::engine::Slot;
use scenario_tree::scenario_node::{BranchType, ScenarioNode};
use scenario_tree::tree::ScenarioTree;

fn chain_of(n: usize) -> (ScenarioTree, Vec<usize>) {
    let mut t = ScenarioTree::new();
    let mut ids = vec![t.add_root(ScenarioNode::new()).unwrap()];
    for _ in 1..n {
        let last = *ids.last().unwrap();
        ids.push(t.add_neighbor(last, ScenarioNode::new()).unwrap());
    }
    (t, ids)
}

fn seqs(t: &ScenarioTree, scope: &[usize]) -> Vec<usize> {
    scope.iter().map(|n| t.sequence(*n).unwrap()).collect()
}

#[test]
fn positions_count_from_zero_without_gaps() {
    let (mut t, ids) = chain_of(5);
    assert_eq!(seqs(&t, &ids), vec![0, 1, 2, 3, 4]);
    let kid = t.add_child(ids[2], ScenarioNode::new()).unwrap();
    let kid2 = t.add_neighbor(kid, ScenarioNode::new()).unwrap();
    assert!(t.remove_node(ids[0]));
    assert!(t.move_to_child(ids[4], ids[1]));
    assert!(t.move_to_parent(kid, ids[3]));
    for start in [ids[2], kid, ids[1], ids[0]] {
        let scope = t.scope(start);
        let expected: Vec<usize> = (0..scope.len()).collect();
        assert_eq!(seqs(&t, &scope), expected);
        let mut sorted = scope.clone();
        sorted.sort_by_key(|n| t.sequence(*n).unwrap());
        assert_eq!(sorted, scope);
    }
    assert_eq!(t.scope(ids[2]), vec![ids[2], ids[4]]);
    assert_eq!(t.child_scope(ids[2]), Some(vec![ids[3], kid, kid2]));
    assert_eq!(t.child_scope(ids[4]), Some(vec![ids[1]]));
    assert_eq!(t.scope(ids[0]), vec![ids[0]]);
}

#[test]
fn reindex_shifts_from_an_index_on() {
    let (mut t, ids) = chain_of(4);
    let scope = t.scope(ids[0]);
    t.reindex(&scope, 2, 3);
    assert_eq!(seqs(&t, &ids), vec![0, 1, 5, 6]);
    t.reindex(&scope, 2, -3);
    assert_eq!(seqs(&t, &ids), vec![0, 1, 2, 3]);
    t.reindex(&scope, 4, 1);
    assert_eq!(seqs(&t, &ids), vec![0, 1, 2, 3]);
    t.reindex(&scope, 0, 1);
    assert_eq!(seqs(&t, &ids), vec![1, 2, 3, 4]);
    t.recount(ids[0]);
    assert_eq!(seqs(&t, &ids), vec![0, 1, 2, 3]);
}

#[test]
fn recount_numbers_a_chain_by_index() {
    let (mut t, ids) = chain_of(3);
    let scope = t.scope(ids[1]);
    t.reindex(&scope, 0, 7);
    t.recount(ids[1]);
    assert_eq!(seqs(&t, &ids), vec![7, 0, 1]);
    t.recount(ids[0]);
    assert_eq!(seqs(&t, &ids), vec![0, 1, 2]);
    t.recount(99);
    assert_eq!(seqs(&t, &ids), vec![0, 1, 2]);
}

#[test]
fn scopes_heads_and_depths() {
    let (mut t, ids) = chain_of(3);
    let a = t.add_child(ids[1], ScenarioNode::new()).unwrap();
    let b = t.add_neighbor(a, ScenarioNode::new()).unwrap();
    let c = t.add_child(b, ScenarioNode::new()).unwrap();
    assert_eq!(t.scope_head(ids[2]), Some(ids[0]));
    assert_eq!(t.scope_head(b), Some(a));
    assert_eq!(t.scope_head(c), Some(c));
    assert_eq!(t.scope_head(77), None);
    assert_eq!(t.scope_from(ids[1]), vec![ids[1], ids[2]]);
    assert_eq!(t.scope_from(77), Vec::<usize>::new());
    assert_eq!(t.scope(b), vec![a, b]);
    assert_eq!(t.scope(77), Vec::<usize>::new());
    assert_eq!(t.child_scope(ids[1]), Some(vec![a, b]));
    assert_eq!(t.child_scope(ids[0]), None);
    assert_eq!(t.child_scope(77), None);
    assert_eq!(t.depth(ids[2]), Some(0));
    assert_eq!(t.depth(a), Some(1));
    assert_eq!(t.depth(b), Some(1));
    assert_eq!(t.depth(c), Some(2));
    assert_eq!(t.depth(77), None);
    assert_eq!(t.sequence(77), None);
    assert!(t.get(77).is_none());
}

#[test]
fn readings() {
    let (mut t, ids) = chain_of(3);
    let a = t.add_child(ids[1], ScenarioNode::new()).unwrap();
    let b = t.add_neighbor(a, ScenarioNode::new()).unwrap();

    let h = t.read_handle(b).unwrap();
    assert_eq!(h.item.node, b);
    assert_eq!(h.item.bt, BranchType::Neighbor);
    assert_eq!(h.item.scope, vec![a, b]);
    assert_eq!(h.item.depth, 1);
    assert_eq!(h.item.seq, 1);
    assert_eq!(h.item.parent, Some(a));
    assert!(!h.item.top);
    let p = h.parent.unwrap();
    assert_eq!(p.node, a);
    assert_eq!(p.bt, BranchType::Child);
    assert_eq!(p.parent, Some(ids[1]));
    assert_eq!(p.seq, 0);
    assert_eq!(
        h.item.to_slot(),
        Slot { owner: Some(a), link: BranchType::Neighbor, next: None, root: false }
    );
    assert_eq!(
        p.to_slot(),
        Slot { owner: Some(ids[1]), link: BranchType::Child, next: Some(b), root: false }
    );

    let r = t.read_handle(ids[0]).unwrap();
    assert!(r.parent.is_none());
    assert!(r.item.top);
    assert_eq!(r.item.depth, 0);
    assert_eq!(
        r.item.to_slot(),
        Slot { owner: None, link: BranchType::Child, next: Some(ids[1]), root: true }
    );
    let m = t.read_handle(ids[1]).unwrap();
    assert_eq!(m.item.parent, Some(ids[0]));
    assert_eq!(m.parent.unwrap().node, ids[0]);
    assert!(m.item.top);
    assert!(t.read_handle(77).is_none());
    assert!(t.read_place(77).is_none());
}

#[test]
fn substitute_needs_a_node_that_stands_alone() {
    let (mut t, ids) = chain_of(3);
    let kid = t.add_child(ids[1], ScenarioNode::new()).unwrap();
    assert!(!t.substitute(ids[1], ids[2]));
    assert!(!t.substitute(ids[1], ids[1]));
    assert!(!t.substitute(ids[1], 77));
    assert!(!t.substitute(77, ids[1]));
    let m = t.plant(ScenarioNode::new()).unwrap();
    assert!(t.substitute(ids[1], m));
    assert_eq!(t.scope(ids[0]), vec![ids[0], m, ids[2]]);
    assert_eq!(t.child_scope(m), Some(vec![kid]));
    assert_eq!(t.sequence(m), Some(1));
    assert_eq!(t.get(ids[1]).unwrap().parent, None);
    assert_eq!(t.get(ids[1]).unwrap().child, None);
    assert_eq!(t.get(ids[1]).unwrap().neighbor, None);
    assert_eq!(t.sequence(ids[1]), Some(0));
    assert!(t.substitute(m, ids[1]));
    assert_eq!(t.scope(ids[0]), vec![ids[0], ids[1], ids[2]]);
    assert_eq!(t.child_scope(ids[1]), Some(vec![kid]));
    let root_stand_in = t.plant(ScenarioNode::new()).unwrap();
    assert!(t.substitute(ids[0], root_stand_in));
    assert_eq!(t.root(), Some(root_stand_in));
}

#[test]
fn renumber_counts_every_scope_from_scratch() {
    let (mut t, ids) = chain_of(4);
    let kid = t.add_child(ids[1], ScenarioNode::new()).unwrap();
    // structural moves leave the positions as they are
    assert!(ScenarioNode::mv_to_child(&mut t, ids[1], ids[3]));
    assert!(ScenarioNode::mv_to_parent(&mut t, ids[0], ids[2]));
    assert_eq!(seqs(&t, &[ids[2], ids[0], ids[1]]), vec![2, 0, 1]);
    assert_eq!(seqs(&t, &[ids[3], kid]), vec![3, 0]);
    assert_eq!(t.position(ids[2]), Some(0));
    assert_eq!(t.position(ids[1]), Some(2));
    assert_eq!(t.position(kid), Some(1));
    assert_eq!(t.position(99), None);
    t.renumber();
    assert_eq!(t.scope(ids[0]), vec![ids[2], ids[0], ids[1]]);
    assert_eq!(seqs(&t, &[ids[2], ids[0], ids[1]]), vec![0, 1, 2]);
    assert_eq!(t.child_scope(ids[1]), Some(vec![ids[3], kid]));
    assert_eq!(seqs(&t, &[ids[3], kid]), vec![0, 1]);
    // from here on the edits keep them right again
    assert!(t.move_to_neighbor(kid, ids[0]));
    assert_eq!(seqs(&t, &[ids[2], ids[1]]), vec![0, 1]);
    assert_eq!(seqs(&t, &[ids[3], kid, ids[0]]), vec![0, 1, 2]);
}

#[test]
fn chains_after_structural_moves() {
    let (mut t, ids) = chain_of(5);
    // behind a sibling: out of its old index, in behind the anchor
    assert!(ScenarioNode::mv_to_neighbor(&mut t, ids[3], ids[1]));
    assert_eq!(t.scope_from(ids[0]), vec![ids[0], ids[2], ids[3], ids[1], ids[4]]);
    assert_eq!(t.scope_from(ids[1]), vec![ids[1], ids[4]]);
    // into the place of a sibling: in before it
    assert!(ScenarioNode::mv_to_parent(&mut t, ids[2], ids[4]));
    assert_eq!(t.scope_from(ids[0]), vec![ids[0], ids[4], ids[2], ids[3], ids[1]]);
    // below a node: out of the chain, head of the children
    assert!(ScenarioNode::mv_to_child(&mut t, ids[0], ids[3]));
    assert!(ScenarioNode::mv_to_child(&mut t, ids[0], ids[2]));
    assert_eq!(t.scope_from(ids[0]), vec![ids[0], ids[4], ids[1]]);
    assert_eq!(t.scope_from(ids[2]), vec![ids[2], ids[3]]);
    ScenarioNode::remove(&mut t, ids[4]);
    assert_eq!(t.scope_from(ids[0]), vec![ids[0], ids[1]]);
    assert_eq!(t.scope_from(ids[4]), vec![ids[4]]);
}
