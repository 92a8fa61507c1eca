use scenario_tree::dump::dump_mat;
use scenario_tree::item::{Color, CropInfo, Dimension, Item, Mat, Ovimg, Position, Scene};
use scenario_tree::scenario_node::ScenarioNode;
use scenario_tree::tree::ScenarioTree;

fn a_mat() -> Mat {
    Mat {
        col: Color { r: 255, g: 0, b: 17 },
        pos: Position { x: 10, y: 200 },
        dim: Dimension { w: 3000, h: 4 },
        r: 5,
        a: 128,
        src: Some(String::from("a.png")),
        lbl: None,
        lblref: Some(String::from("top")),
        name: String::from("first"),
    }
}

fn with(value: Item) -> ScenarioNode {
    let mut n = ScenarioNode::new();
    n.set_value(value);
    n
}

#[test]
fn text_of_a_mat() {
    assert_eq!(
        dump_mat(&a_mat()),
        "M(c:255,0,17, p:10,200, d:3000,4, r:5, a:128, first),sa.pnglrtop"
    );
    let plain = Mat { src: None, lblref: None, lbl: Some(String::from("x")), ..a_mat() };
    assert_eq!(dump_mat(&plain), "M(c:255,0,17, p:10,200, d:3000,4, r:5, a:128, first),lx");
}

#[test]
fn numbers_are_written_in_decimal() {
    let m = Mat {
        col: Color { r: u32::MAX, g: 10, b: 9 },
        pos: Position { x: 0, y: 100 },
        dim: Dimension { w: 1, h: 99 },
        r: 1000000,
        a: 255,
        src: None,
        lbl: None,
        lblref: None,
        name: String::new(),
    };
    assert_eq!(dump_mat(&m), "M(c:4294967295,10,9, p:0,100, d:1,99, r:1000000, a:255, ),");
}

#[test]
fn lines_of_nodes() {
    let mut t = ScenarioTree::new();
    let g = t.add_root(with(Item::Group)).unwrap();
    let s = t
        .add_child(
            g,
            with(Item::Scene(Scene {
                bgimg: Some(String::from("bg.png")),
                bgcol: Color { r: 1, g: 2, b: 3 },
                crop: Some(CropInfo {
                    pos: Position { x: 4, y: 5 },
                    dim: Dimension { w: 6, h: 7 },
                }),
                lbl: Some(String::from("L")),
                lblref: None,
            })),
        )
        .unwrap();
    let p = t.add_child(s, ScenarioNode::new()).unwrap();
    let m = t.add_child(p, with(Item::Mat(a_mat()))).unwrap();
    let o = t
        .add_neighbor(
            m,
            with(Item::Ovimg(Ovimg {
                path: String::from("o.png"),
                pos: Position { x: 8, y: 9 },
                a: 1,
            })),
        )
        .unwrap();
    let pm = t.add_neighbor(p, with(Item::Pmat(a_mat()))).unwrap();
    let plain = t
        .add_neighbor(
            s,
            with(Item::Scene(Scene {
                bgimg: None,
                bgcol: Color { r: 0, g: 0, b: 0 },
                crop: None,
                lbl: None,
                lblref: Some(String::from("R")),
            })),
        )
        .unwrap();

    assert_eq!(t.describe(g).unwrap(), "1G,b:c,p:");
    assert_eq!(t.describe(s).unwrap(), "2S,b[bg.png]c:1,2,3,ci:4,56,7lLb:c,p:G");
    assert_eq!(t.describe(p).unwrap(), "3P,b:c,p:S");
    assert_eq!(
        t.describe(m).unwrap(),
        "4M(c:255,0,17, p:10,200, d:3000,4, r:5, a:128, first),sa.pnglrtopb:c,p:P"
    );
    assert_eq!(t.describe(o).unwrap(), "5O([o.png],p:8,9),b:n,p:M");
    assert_eq!(
        t.describe(pm).unwrap(),
        "6M(c:255,0,17, p:10,200, d:3000,4, r:5, a:128, first),sa.pnglrtopb:n,p:P"
    );
    assert_eq!(t.describe(plain).unwrap(), "7S,c:0,0,0,lrRb:n,p:S");
    assert_eq!(t.describe(100), None);

    assert_eq!(t.preorder(g), vec![g, s, p, m, o, pm, plain]);
    assert_eq!(t.preorder(p), vec![p, m, o, pm]);
    assert_eq!(t.preorder(100), Vec::<usize>::new());

    let lines = ScenarioNode::dump(&t, g, 1);
    assert_eq!(lines.len(), 7);
    assert_eq!(lines[0], " 1G,b:c,p:");
    assert_eq!(lines[1], "   2S,b[bg.png]c:1,2,3,ci:4,56,7lLb:c,p:G");
    assert_eq!(lines[2], "     3P,b:c,p:S");
    assert_eq!(lines[4], "       5O([o.png],p:8,9),b:n,p:M");
    assert_eq!(lines[5], format!("     {}", t.describe(pm).unwrap()));
    assert_eq!(lines[6], "   7S,c:0,0,0,lrRb:n,p:S");
    assert_eq!(ScenarioNode::dump(&t, o, 0), vec![t.describe(o).unwrap()]);
    assert!(ScenarioNode::dump(&t, 100, 0).is_empty());
}
