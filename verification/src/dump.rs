//! Diagnostic text: one line for a node, and the lines of a subtree in the
//! order in which a reader meets the nodes, parents before children and
//! children before later siblings.

use vstd::prelude::*;
use crate::item::{Item, Mat, Ovimg, Scene};
use crate::scenario_node::{BranchType, NodeId, ScenarioNode};
use crate::tree::{lemma_apart, ranking_of, shaped, ScenarioTree, TreeView};

verus! {

/// The decimal digit `d` as a character.
pub open spec fn digit(d: nat) -> char {
    if d == 0 {
        '0'
    } else if d == 1 {
        '1'
    } else if d == 2 {
        '2'
    } else if d == 3 {
        '3'
    } else if d == 4 {
        '4'
    } else if d == 5 {
        '5'
    } else if d == 6 {
        '6'
    } else if d == 7 {
        '7'
    } else if d == 8 {
        '8'
    } else {
        '9'
    }
}

/// The decimal numeral of `n`, without leading zeros.
pub open spec fn numeral(n: nat) -> Seq<char>
    decreases n,
{
    if n < 10 {
        seq![digit(n)]
    } else {
        numeral(n / 10) + seq![digit(n % 10)]
    }
}

/// The decimal numeral of `n`, with a minus sign where `n` is negative.
pub open spec fn signed_numeral(n: int) -> Seq<char> {
    if n < 0 {
        seq!['-'] + numeral((-n) as nat)
    } else {
        numeral(n as nat)
    }
}

/// The numeral of one digit.
fn digit_str(d: u64) -> (s: &'static str)
    requires
        d < 10,
    ensures
        s@ == seq![digit(d as nat)],
{
    proof {
        reveal_strlit("0");
        reveal_strlit("1");
        reveal_strlit("2");
        reveal_strlit("3");
        reveal_strlit("4");
        reveal_strlit("5");
        reveal_strlit("6");
        reveal_strlit("7");
        reveal_strlit("8");
        reveal_strlit("9");
    }
    let s = if d == 0 {
        "0"
    } else if d == 1 {
        "1"
    } else if d == 2 {
        "2"
    } else if d == 3 {
        "3"
    } else if d == 4 {
        "4"
    } else if d == 5 {
        "5"
    } else if d == 6 {
        "6"
    } else if d == 7 {
        "7"
    } else if d == 8 {
        "8"
    } else {
        "9"
    };
    assert(s@ =~= seq![digit(d as nat)]);
    s
}

/// Appends the decimal numeral of `n` to `s`.
fn push_number(s: &mut String, n: u64)
    ensures
        final(s)@ == old(s)@ + numeral(n as nat),
    decreases n,
{
    if n < 10 {
        s.append(digit_str(n));
    } else {
        push_number(s, n / 10);
        s.append(digit_str(n % 10));
        assert(s@ =~= old(s)@ + numeral(n as nat));
    }
}

/// Appends `lead` and `text` to `s` where `text` is there.
fn push_opt(s: &mut String, lead: &str, text: &Option<String>)
    ensures
        final(s)@ == old(s)@ + opt_text(lead@, *text),
{
    match text {
        Some(t) => {
            s.append(lead);
            s.append(t.as_str());
            assert(s@ =~= old(s)@ + opt_text(lead@, *text));
        },
        None => {
            assert(s@ =~= old(s)@ + opt_text(lead@, *text));
        },
    }
}

/// `lead` and `text` where `text` is there, nothing where it is not.
pub open spec fn opt_text(lead: Seq<char>, text: Option<String>) -> Seq<char> {
    match text {
        Some(t) => lead + t@,
        None => Seq::empty(),
    }
}

/// The text of a mat: its colour, position, dimension, radius, alpha and
/// name, and behind them its source, label and label reference, as far as it
/// has them.
pub open spec fn mat_text(m: Mat) -> Seq<char> {
    "M(c:"@ + numeral(m.col.r as nat) + ","@ + numeral(m.col.g as nat) + ","@ + numeral(
        m.col.b as nat,
    ) + ","@ + " p:"@ + numeral(m.pos.x as nat) + ","@ + numeral(m.pos.y as nat) + ","@ + " d:"@
        + numeral(m.dim.w as nat) + ","@ + numeral(m.dim.h as nat) + ","@ + " r:"@ + numeral(
        m.r as nat,
    ) + ","@ + " a:"@ + numeral(m.a as nat) + ","@ + " "@ + m.name@ + "),"@ + opt_text(
        "s"@,
        m.src,
    ) + opt_text("l"@, m.lbl) + opt_text("lr"@, m.lblref)
}

/// The text of a mat.
pub fn dump_mat(m: &Mat) -> (s: String)
    ensures
        s@ == mat_text(*m),
{
    let mut s = String::from_str("M(c:");
    push_number(&mut s, m.col.r as u64);
    s.append(",");
    push_number(&mut s, m.col.g as u64);
    s.append(",");
    push_number(&mut s, m.col.b as u64);
    s.append(",");
    s.append(" p:");
    push_number(&mut s, m.pos.x as u64);
    s.append(",");
    push_number(&mut s, m.pos.y as u64);
    s.append(",");
    s.append(" d:");
    push_number(&mut s, m.dim.w as u64);
    s.append(",");
    push_number(&mut s, m.dim.h as u64);
    s.append(",");
    s.append(" r:");
    push_number(&mut s, m.r as u64);
    s.append(",");
    s.append(" a:");
    push_number(&mut s, m.a as u64);
    s.append(",");
    s.append(" ");
    s.append(m.name.as_str());
    s.append("),");
    push_opt(&mut s, "s", &m.src);
    push_opt(&mut s, "l", &m.lbl);
    push_opt(&mut s, "lr", &m.lblref);
    s
}

/// The text of a scene: its background image, if it has one, its background
/// colour, its crop, if it has one, and its label and label reference, as
/// far as it has them.
pub open spec fn scene_text(c: Scene) -> Seq<char> {
    "S,"@ + opt_text("b["@, c.bgimg) + (if c.bgimg is Some {
        "]"@
    } else {
        Seq::empty()
    }) + "c:"@ + numeral(c.bgcol.r as nat) + ","@ + numeral(c.bgcol.g as nat) + ","@ + numeral(
        c.bgcol.b as nat,
    ) + ","@ + (match c.crop {
        Some(i) => "ci:"@ + numeral(i.pos.x as nat) + ","@ + numeral(i.pos.y as nat) + numeral(
            i.dim.w as nat,
        ) + ","@ + numeral(i.dim.h as nat),
        None => Seq::empty(),
    }) + opt_text("l"@, c.lbl) + opt_text("lr"@, c.lblref)
}

/// The text of an overlay image: its path and its position.
pub open spec fn ovimg_text(o: Ovimg) -> Seq<char> {
    "O(["@ + o.path@ + "],"@ + "p:"@ + numeral(o.pos.x as nat) + ","@ + numeral(o.pos.y as nat)
        + "),"@
}

/// The text of a payload.
pub open spec fn item_text(v: Item) -> Seq<char> {
    match v {
        Item::Group => "G,"@,
        Item::Scene(c) => scene_text(c),
        Item::Page => "P,"@,
        Item::Mat(m) => mat_text(m),
        Item::Ovimg(o) => ovimg_text(o),
        Item::Pmat(m) => mat_text(m),
    }
}

/// The mark of the kind of a payload.
pub open spec fn kind_mark(v: Item) -> Seq<char> {
    match v {
        Item::Group => "G"@,
        Item::Scene(_) => "S"@,
        Item::Page => "P"@,
        Item::Mat(_) => "M"@,
        Item::Ovimg(_) => "O"@,
        Item::Pmat(_) => "pm"@,
    }
}

/// The line of a node: its identity, the text of its payload, its branch
/// type, and the mark of the payload of its owner, if it has one.
pub open spec fn node_text(n: ScenarioNode, owner: Option<ScenarioNode>) -> Seq<char> {
    signed_numeral(n.id as int) + item_text(n.value) + (if n.bt == BranchType::Child {
        "b:c,"@
    } else {
        "b:n,"@
    }) + "p:"@ + (match owner {
        Some(p) => kind_mark(p.value),
        None => Seq::empty(),
    })
}

/// Appends the text of a payload to `s`.
fn push_item(s: &mut String, v: &Item)
    ensures
        final(s)@ == old(s)@ + item_text(*v),
{
    match v {
        Item::Group => {
            s.append("G,");
        },
        Item::Scene(c) => {
            let ghost s0 = s@;
            let mut t = String::from_str("S,");
            push_opt(&mut t, "b[", &c.bgimg);
            if c.bgimg.is_some() {
                t.append("]");
            } else {
                assert(t@ =~= t@ + Seq::<char>::empty());
            }
            t.append("c:");
            push_number(&mut t, c.bgcol.r as u64);
            t.append(",");
            push_number(&mut t, c.bgcol.g as u64);
            t.append(",");
            push_number(&mut t, c.bgcol.b as u64);
            t.append(",");
            let ghost t1 = t@;
            match &c.crop {
                Some(i) => {
                    let mut u = String::from_str("ci:");
                    push_number(&mut u, i.pos.x as u64);
                    u.append(",");
                    push_number(&mut u, i.pos.y as u64);
                    push_number(&mut u, i.dim.w as u64);
                    u.append(",");
                    push_number(&mut u, i.dim.h as u64);
                    t.append(u.as_str());
                },
                None => {
                    assert(t@ =~= t1 + Seq::<char>::empty());
                },
            }
            push_opt(&mut t, "l", &c.lbl);
            push_opt(&mut t, "lr", &c.lblref);
            s.append(t.as_str());
        },
        Item::Page => {
            s.append("P,");
        },
        Item::Mat(m) => {
            let t = dump_mat(m);
            s.append(t.as_str());
        },
        Item::Ovimg(o) => {
            let mut t = String::from_str("O([");
            t.append(o.path.as_str());
            t.append("],");
            t.append("p:");
            push_number(&mut t, o.pos.x as u64);
            t.append(",");
            push_number(&mut t, o.pos.y as u64);
            t.append("),");
            s.append(t.as_str());
        },
        Item::Pmat(m) => {
            let t = dump_mat(m);
            s.append(t.as_str());
        },
    }
}

/// The mark of the kind of a payload.
fn mark_of(v: &Item) -> (m: &'static str)
    ensures
        m@ == kind_mark(*v),
{
    match v {
        Item::Group => "G",
        Item::Scene(_) => "S",
        Item::Page => "P",
        Item::Mat(_) => "M",
        Item::Ovimg(_) => "O",
        Item::Pmat(_) => "pm",
    }
}

/// The nodes met from `start` on, each before its children and its children
/// before its next sibling.
pub open spec fn preorder(nodes: Seq<ScenarioNode>, start: Option<NodeId>) -> Seq<NodeId>
    decreases
        (match start {
            Some(x) => ranking_of(nodes).bound - ranking_of(nodes).rank[x as int],
            None => 0,
        }),
    when shaped(nodes) && (start matches Some(x) ==> x < nodes.len())
{
    match start {
        None => Seq::empty(),
        Some(x) => {
            proof {
                lemma_apart(nodes, x as int);
                assert(ranking_of(nodes).rises(nodes, x as int));
                if nodes[x as int].neighbor is Some {
                    assert(ranking_of(nodes).rises(nodes, nodes[x as int].neighbor->0 as int));
                }
                if nodes[x as int].child is Some {
                    assert(ranking_of(nodes).rises(nodes, nodes[x as int].child->0 as int));
                }
            }
            seq![x] + preorder(nodes, nodes[x as int].child) + preorder(
                nodes,
                nodes[x as int].neighbor,
            )
        },
    }
}

/// `n` blanks.
pub open spec fn blanks(n: nat) -> Seq<char> {
    Seq::new(n, |i: int| ' ')
}

/// The line of node `x`, without indentation.
pub open spec fn text_of(v: TreeView, x: NodeId) -> Seq<char> {
    let n = v.nodes[x as int];
    node_text(
        n,
        match n.parent {
            Some(p) => Some(v.nodes[p as int]),
            None => None,
        },
    )
}

/// The lines of the nodes met from `start` on, each behind `indent`; the
/// lines of the children of a node stand below its own line, two blanks
/// further in, and above the line of its next sibling.
pub open spec fn listing(v: TreeView, start: Option<NodeId>, indent: Seq<char>) -> Seq<Seq<char>>
    decreases
        (match start {
            Some(x) => ranking_of(v.nodes).bound - ranking_of(v.nodes).rank[x as int],
            None => 0,
        }),
    when shaped(v.nodes) && (start matches Some(x) ==> x < v.nodes.len())
{
    match start {
        None => Seq::empty(),
        Some(x) => {
            proof {
                lemma_apart(v.nodes, x as int);
                assert(ranking_of(v.nodes).rises(v.nodes, x as int));
                if v.nodes[x as int].neighbor is Some {
                    assert(ranking_of(v.nodes).rises(
                        v.nodes,
                        v.nodes[x as int].neighbor->0 as int,
                    ));
                }
                if v.nodes[x as int].child is Some {
                    assert(ranking_of(v.nodes).rises(v.nodes, v.nodes[x as int].child->0 as int));
                }
            }
            seq![indent + text_of(v, x)] + listing(v, v.nodes[x as int].child, indent + blanks(2))
                + listing(v, v.nodes[x as int].neighbor, indent)
        },
    }
}

/// The texts that a list of strings holds.
pub open spec fn texts(lines: Seq<String>) -> Seq<Seq<char>> {
    lines.map_values(|s: String| s@)
}

impl ScenarioTree {
    /// The line of node `x`: its identity, the text of its payload, its
    /// branch type, and the mark of the payload of its owner. `None` where
    /// `x` is no node of the tree.
    pub fn describe(&self, x: NodeId) -> (r: Option<String>)
        requires
            self@.wf(),
        ensures
            r is Some <==> self@.has(x),
            r matches Some(s) ==> s@ == text_of(self@, x),
    {
        if x >= self.len() {
            return None;
        }
        proof {
            lemma_apart(self@.nodes, x as int);
        }
        let n = self.node(x);
        let mut s = String::new();
        if n.id < 0 {
            proof {
                reveal_strlit("-");
            }
            s.append("-");
            push_number(&mut s, (-(n.id as i64)) as u64);
            assert(s@ =~= signed_numeral(n.id as int));
        } else {
            push_number(&mut s, n.id as u64);
            assert(s@ =~= signed_numeral(n.id as int));
        }
        push_item(&mut s, &n.value);
        if n.bt == BranchType::Child {
            s.append("b:c,");
        } else {
            s.append("b:n,");
        }
        s.append("p:");
        let ghost s1 = s@;
        match n.parent {
            Some(p) => {
                s.append(mark_of(&self.node(p).value));
            },
            None => {
                assert(s@ =~= s1 + Seq::<char>::empty());
            },
        }
        Some(s)
    }

    /// Appends to `out` the nodes met from `start` on, each before its
    /// children and its children before its next sibling.
    fn walk(&self, start: Option<NodeId>, out: &mut Vec<NodeId>)
        requires
            self@.wf(),
            start matches Some(x) ==> self@.has(x),
        ensures
            final(out)@ == old(out)@ + preorder(self@.nodes, start),
        decreases
                (match start {
                    Some(x) => ranking_of(self@.nodes).bound - ranking_of(
                        self@.nodes,
                    ).rank[x as int],
                    None => 0,
                }),
    {
        match start {
            None => {
                assert(out@ =~= old(out)@ + preorder(self@.nodes, start));
            },
            Some(x) => {
                proof {
                    let r = ranking_of(self@.nodes);
                    assert(r.fits(self@.nodes));
                    lemma_apart(self@.nodes, x as int);
                    assert(r.rises(self@.nodes, x as int));
                    if self@.nodes[x as int].neighbor is Some {
                        assert(r.rises(self@.nodes, self@.nodes[x as int].neighbor->0 as int));
                    }
                    if self@.nodes[x as int].child is Some {
                        assert(r.rises(self@.nodes, self@.nodes[x as int].child->0 as int));
                    }
                }
                out.push(x);
                self.walk(self.node(x).child, out);
                self.walk(self.node(x).neighbor, out);
                assert(out@ =~= old(out)@ + preorder(self@.nodes, start));
            },
        }
    }

    /// Appends to `out` the lines of the nodes met from `start` on, each
    /// behind `indent`.
    fn walk_lines(&self, start: Option<NodeId>, indent: &String, out: &mut Vec<String>)
        requires
            self@.wf(),
            start matches Some(x) ==> self@.has(x),
        ensures
            texts(final(out)@) == texts(old(out)@) + listing(self@, start, indent@),
        decreases
                (match start {
                    Some(x) => ranking_of(self@.nodes).bound - ranking_of(
                        self@.nodes,
                    ).rank[x as int],
                    None => 0,
                }),
    {
        match start {
            None => {
                assert(texts(out@) =~= texts(old(out)@) + listing(self@, start, indent@));
            },
            Some(x) => {
                proof {
                    let r = ranking_of(self@.nodes);
                    assert(r.fits(self@.nodes));
                    lemma_apart(self@.nodes, x as int);
                    assert(r.rises(self@.nodes, x as int));
                    if self@.nodes[x as int].neighbor is Some {
                        assert(r.rises(self@.nodes, self@.nodes[x as int].neighbor->0 as int));
                    }
                    if self@.nodes[x as int].child is Some {
                        assert(r.rises(self@.nodes, self@.nodes[x as int].child->0 as int));
                    }
                    reveal_strlit("  ");
                }
                let text = match self.describe(x) {
                    Some(t) => t,
                    None => String::new(),
                };
                let mut line = indent.clone();
                line.append(text.as_str());
                let mut deeper = indent.clone();
                deeper.append("  ");
                assert(deeper@ =~= indent@ + blanks(2));
                out.push(line);
                assert(texts(out@) =~= texts(old(out)@) + seq![indent@ + text_of(self@, x)]);
                self.walk_lines(self.node(x).child, &deeper, out);
                self.walk_lines(self.node(x).neighbor, indent, out);
                assert(texts(out@) =~= texts(old(out)@) + listing(self@, start, indent@));
            },
        }
    }

    /// The nodes of the subtree of `start` and of the subtrees of the
    /// siblings behind it, each before its children and its children before
    /// its next sibling. The list is empty where `start` is no node of the
    /// tree.
    pub fn preorder(&self, start: NodeId) -> (r: Vec<NodeId>)
        requires
            self@.wf(),
        ensures
            r@ == (if self@.has(start) {
                preorder(self@.nodes, Some(start))
            } else {
                Seq::empty()
            }),
    {
        let mut out: Vec<NodeId> = Vec::new();
        if start < self.len() {
            self.walk(Some(start), &mut out);
        }
        out
    }
}

impl ScenarioNode {
    /// The lines of the subtree of `start` and of the subtrees of the
    /// siblings behind it, top down: every line shows one node behind
    /// `depth` blanks and two more for every scope that the node lies deeper
    /// than `start`. The list is empty where `start` is no node of the tree.
    pub fn dump(tree: &ScenarioTree, start: NodeId, depth: usize) -> (lines: Vec<String>)
        requires
            tree@.wf(),
        ensures
            texts(lines@) == (if tree@.has(start) {
                listing(tree@, Some(start), blanks(depth as nat))
            } else {
                Seq::empty()
            }),
    {
        let mut out: Vec<String> = Vec::new();
        if start >= tree.len() {
            assert(texts(out@) =~= Seq::<Seq<char>>::empty());
            return out;
        }
        let mut indent = String::new();
        let mut k: usize = 0;
        proof {
            reveal_strlit(" ");
        }
        assert(indent@ =~= blanks(0));
        while k < depth
            invariant
                k <= depth,
                indent@ == blanks(k as nat),
                " "@ == seq![' '],
            decreases depth - k,
        {
            indent.append(" ");
            k = k + 1;
            assert(indent@ =~= blanks(k as nat));
        }
        assert(texts(out@) =~= Seq::<Seq<char>>::empty());
        tree.walk_lines(Some(start), &indent, &mut out);
        out
    }
}

} // verus!
