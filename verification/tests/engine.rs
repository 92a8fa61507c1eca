use scenario_tree::scenario_node::{BranchType, ScenarioNode};
use scenario_tree::tree::ScenarioTree;

#[test]
fn new_tree_is_empty() {
    let t = ScenarioTree::new();
    assert_eq!(t.len(), 0);
    assert_eq!(t.root(), None);
}

#[test]
fn move_onto_self_is_refused() {
    let mut t = ScenarioTree::new();
    let a = t.plant(ScenarioNode::new()).unwrap();
    assert!(!ScenarioNode::mv_to_child(&mut t, a, a));
    assert!(!ScenarioNode::mv_to_neighbor(&mut t, a, a));
    assert!(!ScenarioNode::mv_to_parent(&mut t, a, a));
    assert_eq!(t.get(a).unwrap().bt, BranchType::Child);
    assert_eq!(t.get(a).unwrap().parent, None);
}

fn family() -> (ScenarioTree, usize, usize, usize, usize) {
    // root -> a -> b, and c below b
    let mut t = ScenarioTree::new();
    let root = t.add_root(ScenarioNode::new()).unwrap();
    let a = t.add_neighbor(root, ScenarioNode::new()).unwrap();
    let b = t.add_neighbor(a, ScenarioNode::new()).unwrap();
    let c = t.add_child(b, ScenarioNode::new()).unwrap();
    (t, root, a, b, c)
}

fn shape(t: &ScenarioTree) -> Vec<(BranchType, Option<usize>, Option<usize>, Option<usize>)> {
    (0..t.len())
        .map(|i| {
            let n = t.get(i).unwrap();
            (n.bt, n.parent, n.child, n.neighbor)
        })
        .collect()
}

#[test]
fn every_node_hangs_in_one_way() {
    let (mut t, root, a, b, c) = family();
    assert!(ScenarioNode::mv_to_child(&mut t, root, b));
    assert!(ScenarioNode::mv_to_parent(&mut t, c, a));
    ScenarioNode::remove(&mut t, root);
    for i in 0..t.len() {
        let n = t.get(i).unwrap();
        let by_child = n.parent.map_or(false, |p| t.get(p).unwrap().child == Some(i));
        let by_neighbor = n.parent.map_or(false, |p| t.get(p).unwrap().neighbor == Some(i));
        let by_nothing = n.parent.is_none();
        assert_eq!([by_child, by_neighbor, by_nothing].iter().filter(|x| **x).count(), 1);
        if by_neighbor {
            assert_eq!(n.bt, BranchType::Neighbor);
        } else {
            assert_eq!(n.bt, BranchType::Child);
        }
    }
}

#[test]
fn remove_promotes_the_next_sibling() {
    let (mut t, root, a, b, c) = family();
    ScenarioNode::remove(&mut t, a);
    assert_eq!(t.get(root).unwrap().neighbor, Some(b));
    assert_eq!(t.get(b).unwrap().parent, Some(root));
    assert_eq!(t.get(b).unwrap().bt, BranchType::Neighbor);
    assert_eq!(t.get(a).unwrap().parent, None);
    assert_eq!(t.get(a).unwrap().neighbor, None);
    ScenarioNode::remove(&mut t, root);
    assert_eq!(t.root(), Some(b));
    assert_eq!(t.get(b).unwrap().parent, None);
    assert_eq!(t.get(b).unwrap().bt, BranchType::Child);
    assert_eq!(t.get(b).unwrap().child, Some(c));
    let before = shape(&t);
    ScenarioNode::remove(&mut t, a);
    ScenarioNode::remove(&mut t, 99);
    assert_eq!(shape(&t), before);
    ScenarioNode::remove(&mut t, c);
    assert_eq!(t.get(b).unwrap().child, None);
    ScenarioNode::remove(&mut t, b);
    assert_eq!(t.root(), None);
}

#[test]
fn mv_to_child_displaces_the_first_child() {
    let (mut t, _root, a, b, c) = family();
    assert!(ScenarioNode::mv_to_child(&mut t, b, a));
    assert_eq!(t.get(b).unwrap().child, Some(a));
    assert_eq!(t.get(a).unwrap().parent, Some(b));
    assert_eq!(t.get(a).unwrap().bt, BranchType::Child);
    assert_eq!(t.get(a).unwrap().neighbor, Some(c));
    assert_eq!(t.get(c).unwrap().parent, Some(a));
    assert_eq!(t.get(c).unwrap().bt, BranchType::Neighbor);
}

#[test]
fn mv_to_neighbor_goes_between() {
    let (mut t, root, a, b, c) = family();
    assert!(ScenarioNode::mv_to_neighbor(&mut t, root, c));
    assert_eq!(t.get(root).unwrap().neighbor, Some(c));
    assert_eq!(t.get(c).unwrap().parent, Some(root));
    assert_eq!(t.get(c).unwrap().bt, BranchType::Neighbor);
    assert_eq!(t.get(c).unwrap().neighbor, Some(a));
    assert_eq!(t.get(a).unwrap().parent, Some(c));
    assert_eq!(t.get(b).unwrap().child, None);
}

#[test]
fn mv_to_parent_takes_the_slot() {
    let (mut t, root, a, b, c) = family();
    // into the place of a child
    assert!(ScenarioNode::mv_to_parent(&mut t, c, a));
    assert_eq!(t.get(b).unwrap().child, Some(a));
    assert_eq!(t.get(a).unwrap().bt, BranchType::Child);
    assert_eq!(t.get(a).unwrap().parent, Some(b));
    assert_eq!(t.get(a).unwrap().neighbor, Some(c));
    assert_eq!(t.get(c).unwrap().bt, BranchType::Neighbor);
    assert_eq!(t.get(c).unwrap().parent, Some(a));
    // into the place of the root
    assert!(ScenarioNode::mv_to_parent(&mut t, root, c));
    assert_eq!(t.root(), Some(c));
    assert_eq!(t.get(c).unwrap().parent, None);
    assert_eq!(t.get(c).unwrap().bt, BranchType::Child);
    assert_eq!(t.get(c).unwrap().neighbor, Some(root));
    assert_eq!(t.get(root).unwrap().parent, Some(c));
    assert_eq!(t.get(root).unwrap().bt, BranchType::Neighbor);
    // into the place of a later sibling
    assert!(ScenarioNode::mv_to_parent(&mut t, b, c));
    assert_eq!(t.root(), Some(root));
    assert_eq!(t.get(root).unwrap().neighbor, Some(c));
    assert_eq!(t.get(c).unwrap().neighbor, Some(b));
    assert_eq!(t.get(b).unwrap().parent, Some(c));
}

#[test]
fn moves_below_the_moved_node_change_nothing() {
    let (mut t, _root, a, b, c) = family();
    let d = t.add_child(c, ScenarioNode::new()).unwrap();
    let before = shape(&t);
    for target in [b, c, d] {
        assert!(!ScenarioNode::mv_to_child(&mut t, target, b));
        assert!(!ScenarioNode::mv_to_neighbor(&mut t, target, b));
        assert!(!ScenarioNode::mv_to_parent(&mut t, target, b));
    }
    assert!(!ScenarioNode::mv_to_child(&mut t, 99, b));
    assert!(!ScenarioNode::mv_to_child(&mut t, b, 99));
    assert_eq!(shape(&t), before);
    assert!(!t.can_move(c, b));
    assert!(t.can_move(a, b));
    assert!(t.can_move(b, c));
}

#[test]
fn put_back_undoes_every_move() {
    let (t0, root, a, b, c) = family();
    let before = shape(&t0);
    for (target, moved) in [(root, b), (a, c), (c, a), (b, root), (root, a), (a, root)] {
        for kind in 0..4 {
            let (mut t, ..) = family();
            let n = t.get(moved).unwrap();
            let slot = scenario_tree::engine::Slot {
                owner: n.parent,
                link: n.bt,
                next: n.neighbor,
                root: t.root() == Some(moved),
            };
            match kind {
                0 => assert!(ScenarioNode::mv_to_child(&mut t, target, moved)),
                1 => assert!(ScenarioNode::mv_to_neighbor(&mut t, target, moved)),
                2 => assert!(ScenarioNode::mv_to_parent(&mut t, target, moved)),
                _ => ScenarioNode::remove(&mut t, moved),
            }
            assert!(t.put_back(slot, moved));
            assert_eq!(shape(&t), before);
            assert_eq!(t.root(), Some(root));
        }
    }
}

#[test]
fn node_setters() {
    let mut n = ScenarioNode::default();
    assert_eq!(n.id, 0);
    assert_eq!(n.bt, BranchType::Child);
    n.set_bt(BranchType::Neighbor);
    n.set_parent(Some(3));
    n.set_child(4);
    n.set_neighbor(5);
    assert_eq!((n.bt, n.parent, n.child, n.neighbor), (BranchType::Neighbor, Some(3), Some(4), Some(5)));
    n.unset_neighbor();
    n.set_parent(None);
    assert_eq!((n.parent, n.neighbor), (None, None));
    n.set_value(scenario_tree::item::Item::Group);
    assert!(matches!(n.value, scenario_tree::item::Item::Group));
}

#[test]
fn planted_nodes_keep_only_their_payload() {
    let mut t = ScenarioTree::new();
    let mut n = ScenarioNode::new();
    n.set_parent(Some(9));
    n.set_child(8);
    n.set_bt(BranchType::Neighbor);
    n.id = 77;
    n.set_value(scenario_tree::item::Item::Group);
    assert!(t.has_room());
    let i = t.plant(n).unwrap();
    let stored = t.get(i).unwrap();
    assert_eq!(stored.id, 1);
    assert_eq!((stored.bt, stored.parent, stored.child, stored.neighbor), (BranchType::Child, None, None, None));
    assert!(matches!(stored.value, scenario_tree::item::Item::Group));
    assert_eq!(t.root(), None);
    assert_eq!(t.sequence(i), Some(0));
    let j = t.plant(ScenarioNode::new()).unwrap();
    assert_eq!(t.get(j).unwrap().id, 2);
}
