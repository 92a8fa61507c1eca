use scenario_tree::item::{Color, Dimension, Item, Mat, Position};
use scenario_tree::operation_history::{Operation, OperationHistory, OperationHistoryItem};
use scenario_tree::policy::{choose_operation, DropIndicator};
use scenario_tree::scenario_node::{BranchType, ScenarioNode};
use scenario_tree::session::{EditError, EditSession};
use scenario_tree::tree::ScenarioTree;

fn page() -> ScenarioNode {
    ScenarioNode::new()
}

fn mat(name: &str) -> ScenarioNode {
    let mut n = ScenarioNode::new();
    n.set_value(Item::Mat(Mat {
        col: Color { r: 1, g: 2, b: 3 },
        pos: Position { x: 4, y: 5 },
        dim: Dimension { w: 6, h: 7 },
        r: 8,
        a: 9,
        src: None,
        lbl: Some(String::from("l")),
        lblref: None,
        name: String::from(name),
    }));
    n
}

fn links(t: &ScenarioTree) -> Vec<(BranchType, Option<usize>, Option<usize>, Option<usize>, usize)> {
    (0..t.len())
        .map(|i| {
            let n = t.get(i).unwrap();
            (n.bt, n.parent, n.child, n.neighbor, t.sequence(i).unwrap())
        })
        .collect()
}

fn record(ope: Operation) -> OperationHistoryItem {
    OperationHistoryItem { ope, src: None, dest: None, new_sno: None }
}

#[test]
fn remove_then_undo_restores_the_scope() {
    let mut s = EditSession::new();
    let n0 = s.add_neighbor(None, page()).unwrap();
    let n1 = s.add_neighbor(Some(n0), page()).unwrap();
    let n2 = s.add_neighbor(Some(n1), page()).unwrap();
    assert_eq!(s.tree().scope(n0), vec![n0, n1, n2]);
    let before = links(s.tree());
    assert_eq!(s.remove_selected(Some(n1)), Ok(()));
    assert_eq!(s.tree().scope(n0), vec![n0, n2]);
    assert_eq!(s.tree().sequence(n0), Some(0));
    assert_eq!(s.tree().sequence(n2), Some(1));
    assert!(s.undo());
    assert_eq!(s.tree().scope(n0), vec![n0, n1, n2]);
    assert_eq!(s.tree().sequence(n0), Some(0));
    assert_eq!(s.tree().sequence(n1), Some(1));
    assert_eq!(s.tree().sequence(n2), Some(2));
    assert_eq!(links(s.tree()), before);
    assert!(s.redo());
    assert_eq!(s.tree().scope(n0), vec![n0, n2]);
}

#[test]
fn remove_the_root_then_undo() {
    let mut s = EditSession::new();
    let n0 = s.add_child(None, page()).unwrap();
    let n1 = s.add_neighbor(Some(n0), page()).unwrap();
    let before = links(s.tree());
    assert_eq!(s.remove_selected(Some(n0)), Ok(()));
    assert_eq!(s.tree().root(), Some(n1));
    assert_eq!(s.tree().sequence(n1), Some(0));
    assert_eq!(s.tree().get(n1).unwrap().bt, BranchType::Child);
    assert_eq!(s.tree().get(n1).unwrap().parent, None);
    assert!(s.undo());
    assert_eq!(s.tree().root(), Some(n0));
    assert_eq!(links(s.tree()), before);
    assert_eq!(s.remove_selected(Some(n1)), Ok(()));
    assert_eq!(s.remove_selected(Some(n0)), Ok(()));
    assert_eq!(s.tree().root(), None);
    assert!(s.undo());
    assert_eq!(s.tree().root(), Some(n0));
    assert!(s.undo());
    assert_eq!(links(s.tree()), before);
}

#[test]
fn nothing_selected() {
    let mut s = EditSession::new();
    assert_eq!(s.remove_selected(None), Err(EditError::NotSelected));
    assert_eq!(s.remove_selected(Some(0)), Err(EditError::NotSelected));
    assert_eq!(s.history().len(), 0);
    let r = s.add_child(None, page()).unwrap();
    assert_eq!(s.tree().root(), Some(r));
    assert_eq!(s.history().get(0).unwrap().ope, Operation::AddRoot);
    assert_eq!(s.history().get(0).unwrap().new_sno, Some(r));
}

#[test]
fn undo_and_redo_at_the_ends_do_nothing() {
    let mut s = EditSession::new();
    assert!(!s.undo());
    assert!(!s.redo());
    let r = s.add_child(None, page()).unwrap();
    assert!(!s.redo());
    assert!(s.undo());
    assert_eq!(s.tree().root(), None);
    assert!(!s.undo());
    assert!(s.redo());
    assert_eq!(s.tree().root(), Some(r));
    assert!(!s.redo());
}

#[test]
fn add_then_undo_then_redo() {
    let mut s = EditSession::new();
    let r = s.add_child(None, page()).unwrap();
    let a = s.add_child(Some(r), page()).unwrap();
    let before = links(s.tree());
    let b = s.add_child(Some(r), page()).unwrap();
    let c = s.add_neighbor(Some(b), page()).unwrap();
    let after = links(s.tree());
    assert_eq!(s.tree().child_scope(r), Some(vec![b, c, a]));
    assert!(s.undo());
    assert_eq!(s.tree().child_scope(r), Some(vec![b, a]));
    assert!(s.undo());
    assert_eq!(s.tree().child_scope(r), Some(vec![a]));
    assert_eq!(&links(s.tree())[..before.len()], &before[..]);
    assert!(s.redo());
    assert!(s.redo());
    assert_eq!(links(s.tree()), after);
}

#[test]
fn push_after_undo_drops_what_was_undone() {
    let mut h = OperationHistory::new();
    let mut t = ScenarioTree::new();
    h.push(record(Operation::Remove));
    h.push(record(Operation::AddChild));
    h.push(record(Operation::AddNeighbor));
    assert_eq!(h.len(), 3);
    assert_eq!(h.cursor(), 3);
    assert!(h.undo(&mut t));
    assert!(h.undo(&mut t));
    assert_eq!(h.cursor(), 1);
    h.push(record(Operation::AddRoot));
    assert_eq!(h.len(), 2);
    assert_eq!(h.cursor(), 2);
    assert_eq!(h.get(0).unwrap().ope, Operation::Remove);
    assert_eq!(h.get(1).unwrap().ope, Operation::AddRoot);
    assert!(h.get(2).is_none());
    assert!(!h.redo(&mut t));
    assert_eq!(h.cursor(), 2);
}

#[test]
fn the_drop_table() {
    let c = BranchType::Child;
    let n = BranchType::Neighbor;
    assert_eq!(choose_operation(true, true, c, true), Operation::MvToParentChild);
    assert_eq!(choose_operation(true, true, c, false), Operation::MvToParent);
    assert_eq!(choose_operation(true, true, n, true), Operation::MvToParentPlace);
    assert_eq!(choose_operation(true, false, c, true), Operation::MvToDestChild);
    assert_eq!(choose_operation(true, false, c, false), Operation::MvToDestChild);
    assert_eq!(choose_operation(true, false, n, true), Operation::MvToDestChild);
    assert_eq!(choose_operation(false, true, c, true), Operation::MvToParentChild);
    assert_eq!(choose_operation(false, true, c, false), Operation::MvToParent);
    assert_eq!(choose_operation(false, true, n, true), Operation::MvToParentPlace);
    assert_eq!(choose_operation(false, false, c, true), Operation::MvToDestNeighbor);
    assert_eq!(choose_operation(false, false, c, false), Operation::MvToDestNeighbor);
    assert_eq!(choose_operation(false, false, n, true), Operation::MvToDestNeighbor);
}

#[test]
fn drop_below_itself_is_refused() {
    let mut s = EditSession::new();
    let root = s.add_child(None, page()).unwrap();
    let a = s.add_neighbor(Some(root), page()).unwrap();
    let b = s.add_neighbor(Some(a), page()).unwrap();
    let c = s.add_child(Some(b), page()).unwrap();
    let before = links(s.tree());
    let records = s.history().len();
    for on_label in [true, false] {
        for upper in [true, false] {
            assert!(!s.drop_on(b, c, on_label, upper).accepted);
            assert!(!s.drop_on(b, b, on_label, upper).accepted);
        }
    }
    assert_eq!(links(s.tree()), before);
    assert_eq!(s.history().len(), records);
    assert!(s.drop_on(b, a, true, false).accepted);
    let m = s.tree().len() - 1;
    assert_eq!(s.tree().scope(root), vec![root, a]);
    assert_eq!(s.tree().child_scope(a), Some(vec![m]));
    assert_eq!(s.tree().child_scope(m), Some(vec![c]));
    assert_eq!(s.tree().child_scope(b), None);
    assert_eq!(s.history().len(), records + 1);
}

#[test]
fn drop_makes_a_copy_and_undo_brings_the_source_back() {
    let mut s = EditSession::new();
    let n0 = s.add_child(None, page()).unwrap();
    let n1 = s.add_neighbor(Some(n0), mat("m")).unwrap();
    let n2 = s.add_neighbor(Some(n1), page()).unwrap();
    let k = s.add_child(Some(n1), page()).unwrap();
    let before = links(s.tree());

    // lower half of the row of n2: behind n2
    assert!(s.drop_on(n1, n2, false, false).accepted);
    let m = s.tree().len() - 1;
    assert_ne!(m, n1);
    assert_eq!(s.tree().scope(n0), vec![n0, n2, m]);
    assert_eq!(s.tree().sequence(m), Some(2));
    assert_eq!(s.tree().child_scope(m), Some(vec![k]));
    assert_eq!(s.tree().get(k).unwrap().parent, Some(m));
    assert_eq!(s.tree().get(n1).unwrap().parent, None);
    assert_eq!(s.tree().get(n1).unwrap().child, None);
    assert_eq!(s.tree().get(m).unwrap().id, 5);
    match &s.tree().get(m).unwrap().value {
        Item::Mat(x) => {
            assert_eq!(x.name, "m");
            assert_eq!(x.col, Color { r: 1, g: 2, b: 3 });
            assert_eq!(x.lbl, Some(String::from("l")));
        }
        other => panic!("a mat was expected, not {:?}", other),
    }
    let rec = s.history().get(s.history().len() - 1).unwrap();
    assert_eq!(rec.ope, Operation::MvToDestNeighbor);
    assert_eq!(rec.new_sno, Some(m));
    assert_eq!(rec.src.as_ref().unwrap().item.node, n1);
    assert_eq!(rec.src.as_ref().unwrap().item.seq, 1);
    assert_eq!(rec.src.as_ref().unwrap().item.scope, vec![n0, n1, n2]);
    assert_eq!(rec.dest.as_ref().unwrap().item.node, n2);
    let after = links(s.tree());

    assert!(s.undo());
    assert_eq!(s.tree().scope(n0), vec![n0, n1, n2]);
    assert_eq!(&links(s.tree())[..before.len()], &before[..]);
    assert_eq!(s.tree().get(m).unwrap().parent, None);
    assert_eq!(s.tree().get(m).unwrap().child, None);

    assert!(s.redo());
    assert_eq!(links(s.tree()), after);
}

#[test]
fn drops_in_the_upper_half() {
    let mut s = EditSession::new();
    let r = s.add_child(None, page()).unwrap();
    let c1 = s.add_child(Some(r), page()).unwrap();
    let c2 = s.add_neighbor(Some(c1), page()).unwrap();
    let c3 = s.add_neighbor(Some(c2), page()).unwrap();
    let x = s.add_neighbor(Some(r), page()).unwrap();

    // head of a scope with an owner: first child of the owner
    assert!(s.drop_on(x, c1, true, true).accepted);
    let m1 = s.tree().len() - 1;
    assert_eq!(s.tree().child_scope(r), Some(vec![m1, c1, c2, c3]));
    assert_eq!(s.tree().scope(r), vec![r]);

    // later member: into the place of the sibling before it
    assert!(s.drop_on(m1, c3, false, true).accepted);
    let m2 = s.tree().len() - 1;
    assert_eq!(s.tree().child_scope(r), Some(vec![c1, m2, c2, c3]));
    for (i, n) in [c1, m2, c2, c3].iter().enumerate() {
        assert_eq!(s.tree().sequence(*n), Some(i));
    }

    // head of the top-level scope: into its place
    assert!(s.drop_on(c3, r, true, true).accepted);
    let m3 = s.tree().len() - 1;
    assert_eq!(s.tree().root(), Some(m3));
    assert_eq!(s.tree().scope(r), vec![m3, r]);
    assert_eq!(s.tree().child_scope(r), Some(vec![c1, m2, c2]));

    // on the sibling right behind the source: the copy stays where the source was
    assert!(s.drop_on(m2, c2, true, true).accepted);
    let m4 = s.tree().len() - 1;
    assert_eq!(s.tree().child_scope(r), Some(vec![c1, m4, c2]));

    assert!(s.undo());
    assert!(s.undo());
    assert!(s.undo());
    assert!(s.undo());
    assert_eq!(s.tree().child_scope(r), Some(vec![c1, c2, c3]));
    assert_eq!(s.tree().scope(r), vec![r, x]);
    assert_eq!(s.tree().root(), Some(r));
}

#[test]
fn a_full_arena_refuses_new_nodes() {
    let mut t = ScenarioTree::with_limit(2);
    assert_eq!(t.limit(), 2);
    let a = t.add_root(page()).unwrap();
    let b = t.add_child(a, page()).unwrap();
    assert!(!t.has_room());
    let before = links(&t);
    assert_eq!(t.plant(page()), None);
    assert_eq!(t.add_root(page()), None);
    assert_eq!(t.add_child(a, page()), None);
    assert_eq!(t.add_neighbor(a, page()), None);
    assert_eq!(links(&t), before);
    assert_eq!(t.len(), 2);

    let mut s = EditSession::with_tree(t);
    assert_eq!(s.add_child(Some(a), page()), Err(EditError::Full));
    assert_eq!(s.add_neighbor(Some(a), page()), Err(EditError::Full));
    assert_eq!(s.add_child(None, page()), Err(EditError::Full));
    assert!(!s.drop_on(b, a, false, false).accepted);
    assert_eq!(links(s.tree()), before);
    assert_eq!(s.history().len(), 0);
    assert_eq!(s.remove_selected(Some(b)), Ok(()));
    assert_eq!(s.history().len(), 1);
}

#[test]
fn a_node_that_is_not_there() {
    let mut t = ScenarioTree::new();
    assert_eq!(t.limit(), 2147483646);
    let a = t.add_root(page()).unwrap();
    assert_eq!(t.add_child(5, page()), None);
    assert_eq!(t.add_neighbor(5, page()), None);
    assert!(!t.remove_node(5));
    assert_eq!(t.len(), 1);
    let mut s = EditSession::with_tree(t);
    assert!(!s.drop_on(a, 5, true, true).accepted);
    assert!(!s.drop_on(5, a, true, true).accepted);
    // a selection that names no node counts as none
    let r = s.add_neighbor(Some(5), page()).unwrap();
    assert_eq!(s.tree().root(), Some(r));
    assert_eq!(s.tree().scope(a), vec![r, a]);
    assert_eq!(s.history().get(0).unwrap().ope, Operation::AddRoot);
    assert_eq!(s.history().get(0).unwrap().src.as_ref().unwrap().item.node, a);
}

#[test]
fn the_marks_of_a_row() {
    assert_eq!(DropIndicator::cleared(), DropIndicator { upper: false, lower: false });
    assert_eq!(DropIndicator::over(true), DropIndicator { upper: true, lower: false });
    assert_eq!(DropIndicator::over(false), DropIndicator { upper: false, lower: true });
    let mut s = EditSession::new();
    let a = s.add_child(None, page()).unwrap();
    let b = s.add_neighbor(Some(a), page()).unwrap();
    assert_eq!(s.drop_on(a, a, true, true).indicator, DropIndicator::cleared());
    let out = s.drop_on(a, b, true, false);
    assert!(out.accepted);
    assert_eq!(out.indicator, DropIndicator::cleared());
}

#[test]
fn records_keep_what_was_read() {
    let mut s = EditSession::new();
    let a = s.add_child(None, page()).unwrap();
    let b = s.add_child(Some(a), page()).unwrap();
    let c = s.add_neighbor(Some(b), page()).unwrap();
    assert_eq!(s.remove_selected(Some(b)), Ok(()));
    assert_eq!(s.history().cursor(), 4);
    let add_root = s.history().get(0).unwrap();
    assert_eq!((add_root.ope, add_root.new_sno), (Operation::AddRoot, Some(a)));
    assert!(add_root.src.is_none() && add_root.dest.is_none());
    let add_child = s.history().get(1).unwrap();
    assert_eq!((add_child.ope, add_child.new_sno), (Operation::AddChild, Some(b)));
    assert_eq!(add_child.src.as_ref().unwrap().item.node, a);
    let add_neighbor = s.history().get(2).unwrap();
    assert_eq!((add_neighbor.ope, add_neighbor.new_sno), (Operation::AddNeighbor, Some(c)));
    assert_eq!(add_neighbor.src.as_ref().unwrap().item.node, b);
    let remove = s.history().get(3).unwrap();
    assert_eq!((remove.ope, remove.new_sno), (Operation::Remove, None));
    let h = remove.src.as_ref().unwrap();
    assert_eq!(h.item.node, b);
    assert_eq!(h.item.scope, vec![b, c]);
    assert_eq!(h.item.seq, 0);
    assert_eq!(h.item.depth, 1);
    assert_eq!(h.parent.as_ref().unwrap().node, a);
    // the reading still says where b stood
    assert_eq!(s.tree().child_scope(a), Some(vec![c]));
    while s.undo() {}
    assert_eq!(s.tree().root(), None);
    assert_eq!(s.history().cursor(), 0);
    assert_eq!(s.history().len(), 4);
    while s.redo() {}
    assert_eq!(s.tree().root(), Some(a));
    assert_eq!(s.tree().child_scope(a), Some(vec![c]));
}
