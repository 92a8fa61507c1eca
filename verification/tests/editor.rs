use scenario_tree::engine::Slot;
use scenario_tree::scenario_node::{BranchType, ScenarioNode};
use scenario_tree::tree::ScenarioTree;

fn seqs(t: &ScenarioTree, scope: &[usize]) -> Vec<usize> {
    scope.iter().map(|n| t.sequence(*n).unwrap()).collect()
}

#[test]
fn remove_closes_the_gap_and_put_back_opens_it_again() {
    let mut t = ScenarioTree::new();
    let n0 = t.add_root(ScenarioNode::new()).unwrap();
    let n1 = t.add_neighbor(n0, ScenarioNode::new()).unwrap();
    let n2 = t.add_neighbor(n1, ScenarioNode::new()).unwrap();
    assert_eq!(t.scope(n0), vec![n0, n1, n2]);
    assert_eq!(seqs(&t, &[n0, n1, n2]), vec![0, 1, 2]);

    let node = t.get(n1).unwrap();
    let slot = Slot { owner: node.parent, link: node.bt, next: node.neighbor, root: false };
    assert!(t.remove_node(n1));
    assert_eq!(t.scope(n0), vec![n0, n2]);
    assert_eq!(seqs(&t, &[n0, n2]), vec![0, 1]);
    assert_eq!(t.scope(n1), vec![n1]);
    assert_eq!(t.sequence(n1), Some(0));

    assert!(t.put_back_node(slot, n1));
    assert_eq!(t.scope(n0), vec![n0, n1, n2]);
    assert_eq!(seqs(&t, &[n0, n1, n2]), vec![0, 1, 2]);
}

#[test]
fn add_child_puts_the_new_node_first() {
    let mut t = ScenarioTree::new();
    let r = t.add_root(ScenarioNode::new()).unwrap();
    let c1 = t.add_child(r, ScenarioNode::new()).unwrap();
    let c2 = t.add_child(r, ScenarioNode::new()).unwrap();
    assert_eq!(t.child_scope(r), Some(vec![c2, c1]));
    assert_eq!(seqs(&t, &[c2, c1]), vec![0, 1]);
    assert_eq!(t.get(c2).unwrap().bt, BranchType::Child);
    assert_eq!(t.get(c1).unwrap().bt, BranchType::Neighbor);
    assert_eq!(t.get(c1).unwrap().parent, Some(c2));
    assert_eq!(t.get(c2).unwrap().parent, Some(r));
    assert_eq!(t.get(r).unwrap().child, Some(c2));
    assert_eq!(t.get(c2).unwrap().id, 3);
}

#[test]
fn add_root_goes_before_the_old_root() {
    let mut t = ScenarioTree::new();
    let a = t.add_root(ScenarioNode::new()).unwrap();
    let b = t.add_root(ScenarioNode::new()).unwrap();
    assert_eq!(t.root(), Some(b));
    assert_eq!(t.scope(a), vec![b, a]);
    assert_eq!(seqs(&t, &[b, a]), vec![0, 1]);
}

#[test]
fn move_within_one_scope() {
    let mut t = ScenarioTree::new();
    let n0 = t.add_root(ScenarioNode::new()).unwrap();
    let n1 = t.add_neighbor(n0, ScenarioNode::new()).unwrap();
    let n2 = t.add_neighbor(n1, ScenarioNode::new()).unwrap();
    let n3 = t.add_neighbor(n2, ScenarioNode::new()).unwrap();
    assert!(t.move_to_neighbor(n2, n0));
    assert_eq!(t.root(), Some(n1));
    assert_eq!(t.scope(n0), vec![n1, n2, n0, n3]);
    assert_eq!(seqs(&t, &[n1, n2, n0, n3]), vec![0, 1, 2, 3]);
    assert!(t.move_to_parent(n1, n3));
    assert_eq!(t.root(), Some(n3));
    assert_eq!(t.scope(n0), vec![n3, n1, n2, n0]);
    assert_eq!(seqs(&t, &[n3, n1, n2, n0]), vec![0, 1, 2, 3]);
    assert!(t.move_to_child(n1, n3));
    assert_eq!(t.scope(n0), vec![n1, n2, n0]);
    assert_eq!(t.child_scope(n1), Some(vec![n3]));
    assert_eq!(t.sequence(n3), Some(0));
}

#[test]
fn move_below_itself_is_refused() {
    let mut t = ScenarioTree::new();
    let r = t.add_root(ScenarioNode::new()).unwrap();
    let a = t.add_neighbor(r, ScenarioNode::new()).unwrap();
    let b = t.add_neighbor(a, ScenarioNode::new()).unwrap();
    let c = t.add_child(b, ScenarioNode::new()).unwrap();
    let d = t.add_child(c, ScenarioNode::new()).unwrap();
    assert!(t.in_subtree(b, c));
    assert!(t.in_subtree(b, d));
    assert!(!t.in_subtree(b, a));
    assert!(!t.move_to_child(c, b));
    assert!(!t.move_to_neighbor(d, b));
    assert!(!t.move_to_parent(c, b));
    assert_eq!(t.scope(r), vec![r, a, b]);
    assert_eq!(t.child_scope(b), Some(vec![c]));
    assert_eq!(t.child_scope(c), Some(vec![d]));
    assert!(t.move_to_child(a, b));
    assert_eq!(t.scope(r), vec![r, a]);
    assert_eq!(t.child_scope(a), Some(vec![b]));
    assert_eq!(t.child_scope(b), Some(vec![c]));
}
