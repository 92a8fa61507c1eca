use scenario_tree::scenario_node::{BranchType, ScenarioNode};
use scenario_tree::tree::ScenarioTree;

fn neighbor_of(p: usize) -> ScenarioNode {
    let mut n = ScenarioNode::new();
    n.set_parent(Some(p));
    n.set_bt(BranchType::Neighbor);
    n
}

fn child_of(p: usize) -> ScenarioNode {
    let mut n = ScenarioNode::new();
    n.set_parent(Some(p));
    n.set_bt(BranchType::Child);
    n
}

/// Six nodes at the top; the third has six children; the third and the
/// sixth of those have three children each.
fn sample() -> Vec<ScenarioNode> {
    // 0..=5: top; 6..=11: children of 2; 12..=14: children of 8; 15..=17: children of 11
    let mut nodes = vec![ScenarioNode::new()];
    for i in 1..6 {
        nodes.push(neighbor_of(i - 1));
    }
    nodes.push(child_of(2));
    for i in 7..12 {
        nodes.push(neighbor_of(i - 1));
    }
    nodes.push(child_of(8));
    nodes.push(neighbor_of(12));
    nodes.push(neighbor_of(13));
    nodes.push(child_of(11));
    nodes.push(neighbor_of(15));
    nodes.push(neighbor_of(16));
    for i in 0..5 {
        nodes[i].set_neighbor(i + 1);
    }
    nodes[2].set_child(6);
    for i in 6..11 {
        nodes[i].set_neighbor(i + 1);
    }
    nodes[8].set_child(12);
    nodes[12].set_neighbor(13);
    nodes[13].set_neighbor(14);
    nodes[11].set_child(15);
    nodes[15].set_neighbor(16);
    nodes[16].set_neighbor(17);
    nodes
}

#[test]
fn a_forest_is_taken() {
    let t = ScenarioTree::from_nodes(sample(), Some(0)).unwrap();
    assert_eq!(t.len(), 18);
    assert_eq!(t.root(), Some(0));
    assert_eq!(t.scope(4), vec![0, 1, 2, 3, 4, 5]);
    assert_eq!(t.child_scope(2), Some(vec![6, 7, 8, 9, 10, 11]));
    assert_eq!(t.child_scope(8), Some(vec![12, 13, 14]));
    assert_eq!(t.child_scope(11), Some(vec![15, 16, 17]));
    assert_eq!(
        t.preorder(0),
        vec![0, 1, 2, 6, 7, 8, 12, 13, 14, 9, 10, 11, 15, 16, 17, 3, 4, 5]
    );
    for (i, expected) in [0, 1, 2, 3, 4, 5, 0, 1, 2, 3, 4, 5, 0, 1, 2, 0, 1, 2].iter().enumerate() {
        assert_eq!(t.sequence(i), Some(*expected));
        assert_eq!(t.get(i).unwrap().id, i as i32 + 1);
    }
    assert_eq!(t.depth(17), Some(2));
    let empty = ScenarioTree::from_nodes(Vec::new(), None).unwrap();
    assert_eq!(empty.len(), 0);
    let loose = ScenarioTree::from_nodes(sample(), None).unwrap();
    assert_eq!(loose.root(), None);
}

#[test]
fn broken_links_are_refused() {
    // the root must be a node without an owner
    assert!(ScenarioTree::from_nodes(sample(), Some(1)).is_none());
    assert!(ScenarioTree::from_nodes(sample(), Some(18)).is_none());

    // a link that is not answered
    let mut nodes = sample();
    nodes[3].unset_neighbor();
    assert!(ScenarioTree::from_nodes(nodes, Some(0)).is_none());

    // a branch type that does not fit the link
    let mut nodes = sample();
    nodes[6].set_bt(BranchType::Neighbor);
    assert!(ScenarioTree::from_nodes(nodes, Some(0)).is_none());

    // a node without an owner that is not the head of a scope
    let mut nodes = vec![ScenarioNode::new()];
    nodes[0].set_bt(BranchType::Neighbor);
    assert!(ScenarioTree::from_nodes(nodes, None).is_none());

    // a link out of the arena
    let mut nodes = vec![ScenarioNode::new()];
    nodes[0].set_child(5);
    assert!(ScenarioTree::from_nodes(nodes, None).is_none());

    // a node that owns itself
    let mut nodes = vec![neighbor_of(0)];
    nodes[0].set_neighbor(0);
    assert!(ScenarioTree::from_nodes(nodes, None).is_none());

    // two nodes that own each other
    let mut nodes = vec![child_of(1), neighbor_of(0)];
    nodes[0].set_neighbor(1);
    nodes[1].set_child(0);
    assert!(ScenarioTree::from_nodes(nodes, None).is_none());
}
