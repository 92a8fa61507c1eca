use scenario_tree::scenario_node::{BranchType, ScenarioNode};
use scenario_tree::session::EditSession;
use scenario_tree::tree::ScenarioTree;

/// A forest written down as lists of children: the straightforward picture
/// that the linked tree is held against.
#[derive(Clone, PartialEq, Debug)]
struct Lists {
    top: Vec<usize>,
    kids: Vec<Vec<usize>>,
    home: Vec<Option<Option<usize>>>,
}

impl Lists {
    fn new() -> Lists {
        Lists { top: Vec::new(), kids: Vec::new(), home: Vec::new() }
    }

    fn grow(&mut self) -> usize {
        self.kids.push(Vec::new());
        self.home.push(None);
        self.kids.len() - 1
    }

    fn scope_mut(&mut self, home: Option<usize>) -> &mut Vec<usize> {
        match home {
            Some(p) => &mut self.kids[p],
            None => &mut self.top,
        }
    }

    fn scope(&self, home: Option<usize>) -> &Vec<usize> {
        match home {
            Some(p) => &self.kids[p],
            None => &self.top,
        }
    }

    fn take_out(&mut self, b: usize) {
        if let Some(h) = self.home[b] {
            self.scope_mut(h).retain(|x| *x != b);
            self.home[b] = None;
        }
    }

    fn below(&self, top: usize, x: usize) -> bool {
        x == top || self.kids[top].iter().any(|k| self.below(*k, x))
    }

    fn put(&mut self, home: Option<usize>, at: usize, b: usize) {
        self.scope_mut(home).insert(at, b);
        self.home[b] = Some(home);
    }

    fn index(&self, x: usize) -> Option<(Option<usize>, usize)> {
        let h = self.home[x]?;
        Some((h, self.scope(h).iter().position(|y| *y == x).unwrap()))
    }

    fn preorder(&self, scope: &[usize], out: &mut Vec<usize>) {
        for x in scope {
            out.push(*x);
            self.preorder(&self.kids[*x], out);
        }
    }
}

struct Dice(u64);

impl Dice {
    fn roll(&mut self, n: usize) -> usize {
        self.0 = self.0.wrapping_mul(6364136223846793005).wrapping_add(1442695040888963407);
        ((self.0 >> 33) as usize) % n
    }
}

fn agree(t: &ScenarioTree, m: &Lists) {
    assert_eq!(t.len(), m.kids.len());
    assert_eq!(t.root(), m.top.first().copied());
    let mut order = Vec::new();
    m.preorder(&m.top, &mut order);
    match t.root() {
        Some(r) => assert_eq!(t.preorder(r), order),
        None => assert!(order.is_empty()),
    }
    for x in 0..t.len() {
        let node = t.get(x).unwrap();
        assert_eq!(node.id, x as i32 + 1);
        match m.index(x) {
            Some((home, at)) => {
                let scope = m.scope(home);
                assert_eq!(&t.scope(x), scope);
                assert_eq!(t.sequence(x), Some(at));
                assert_eq!(t.position(x), Some(at));
                if at == 0 {
                    assert_eq!(node.bt, BranchType::Child);
                    assert_eq!(node.parent, home);
                } else {
                    assert_eq!(node.bt, BranchType::Neighbor);
                    assert_eq!(node.parent, Some(scope[at - 1]));
                }
                assert_eq!(node.neighbor, scope.get(at + 1).copied());
                assert_eq!(t.scope_head(x), Some(scope[0]));
            }
            None => {
                // a node that stands alone
                assert_eq!((node.bt, node.parent, node.neighbor), (BranchType::Child, None, None));
                assert_eq!(t.sequence(x), Some(0));
            }
        }
        assert_eq!(node.child, m.kids[x].first().copied());
        assert_eq!(t.child_scope(x), if m.kids[x].is_empty() { None } else { Some(m.kids[x].clone()) });
        let mut up = 0;
        let mut cur = x;
        while let Some(Some(Some(p))) = m.home.get(cur).copied().map(|h| h.map(|h| h)) {
            up += 1;
            cur = p;
        }
        assert_eq!(t.depth(x), Some(up));
    }
}

#[test]
fn random_edits_agree_with_lists_of_children() {
    for seed in 0..20u64 {
        let mut dice = Dice(seed);
        let mut t = ScenarioTree::new();
        let mut m = Lists::new();
        for _ in 0..120 {
            let n = t.len();
            match dice.roll(6) {
                0 => {
                    let b = t.add_root(ScenarioNode::new()).unwrap();
                    assert_eq!(m.grow(), b);
                    m.put(None, 0, b);
                }
                1 if n > 0 => {
                    let a = dice.roll(n);
                    let b = t.add_child(a, ScenarioNode::new()).unwrap();
                    assert_eq!(m.grow(), b);
                    m.put(Some(a), 0, b);
                }
                2 if n > 0 => {
                    let a = dice.roll(n);
                    let b = t.add_neighbor(a, ScenarioNode::new()).unwrap();
                    assert_eq!(m.grow(), b);
                    match m.index(a) {
                        Some((home, at)) => m.put(home, at + 1, b),
                        None => {
                            // behind a node that stands alone: a chain of two, apart
                            // from the tree; the lists have no place for it, so it
                            // is taken out again
                            assert!(t.remove_node(b));
                        }
                    }
                }
                3 if n > 0 => {
                    let b = dice.roll(n);
                    assert!(t.remove_node(b));
                    m.take_out(b);
                }
                4 | 5 if n > 1 => {
                    let a = dice.roll(n);
                    let b = dice.roll(n);
                    let kind = dice.roll(3);
                    let allowed = !m.below(b, a);
                    let done = match kind {
                        0 => t.move_to_child(a, b),
                        1 => t.move_to_neighbor(a, b),
                        _ => t.move_to_parent(a, b),
                    };
                    assert_eq!(done, allowed);
                    if done {
                        m.take_out(b);
                        match (kind, m.index(a)) {
                            (0, _) => m.put(Some(a), 0, b),
                            (1, Some((home, at))) => m.put(home, at + 1, b),
                            (_, Some((home, at))) => m.put(home, at, b),
                            (_, None) => {
                                // next to a node that stands alone: see above
                                assert!(t.remove_node(b));
                            }
                        }
                    }
                }
                _ => {}
            }
            agree(&t, &m);
        }
    }
}

#[test]
fn random_sessions_walk_back_and_forth() {
    for seed in 100..115u64 {
        let mut dice = Dice(seed);
        let mut s = EditSession::new();
        let mut trail: Vec<Vec<(BranchType, Option<usize>, Option<usize>, Option<usize>, usize)>> =
            Vec::new();
        let snap = |s: &EditSession| {
            (0..s.tree().len())
                .map(|i| {
                    let n = s.tree().get(i).unwrap();
                    (n.bt, n.parent, n.child, n.neighbor, s.tree().sequence(i).unwrap())
                })
                .collect::<Vec<_>>()
        };
        trail.push(snap(&s));
        for _ in 0..60 {
            let n = s.tree().len();
            let pick = if n == 0 { None } else { Some(dice.roll(n)) };
            let before = s.history().len();
            match dice.roll(5) {
                0 => {
                    s.add_child(pick, ScenarioNode::new()).unwrap();
                }
                1 => {
                    s.add_neighbor(pick, ScenarioNode::new()).unwrap();
                }
                2 => {
                    let _ = s.remove_selected(pick);
                }
                _ if n > 1 => {
                    let dest = dice.roll(n);
                    s.drop_on(pick.unwrap(), dest, dice.roll(2) == 0, dice.roll(2) == 0);
                }
                _ => {}
            }
            if s.history().len() > before {
                trail.push(snap(&s));
            }
            assert_eq!(s.history().cursor(), s.history().len());
            assert_eq!(trail.len(), s.history().len() + 1);
        }
        // all the way back: every node that was there at a step is as it was then
        for step in (0..s.history().len()).rev() {
            assert!(s.undo());
            let now = snap(&s);
            assert_eq!(&now[..trail[step].len()], &trail[step][..]);
            for extra in &now[trail[step].len()..] {
                assert_eq!(*extra, (BranchType::Child, None, None, None, 0));
            }
        }
        assert!(!s.undo());
        assert_eq!(s.tree().root(), None);
        // and all the way forth
        for step in 1..trail.len() {
            assert!(s.redo());
            let now = snap(&s);
            assert_eq!(&now[..trail[step].len()], &trail[step][..]);
        }
        assert!(!s.redo());
    }
}
