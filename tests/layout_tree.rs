use saba_core::dom::{Element, NodeKind, Window};
use saba_core::layout::{
    calculate_node_position, calculate_node_size, DisplayType, LayoutObject, LayoutObjectKind,
    LayoutPoint, LayoutSize, LayoutView, StyleSheet, CONTENT_AREA_WIDTH,
};

fn element(tag: &str) -> NodeKind {
    NodeKind::Element(Element { tag: tag.to_string(), attributes: Vec::new() })
}

fn text(s: &str) -> NodeKind {
    NodeKind::Text(s.to_string())
}

/// html > body > div(A), div(B), div(C); returns the window, the styles
/// (with the second div hidden) and the node indices of the three divs.
fn three_divs() -> (Window, StyleSheet, [usize; 3]) {
    let mut w = Window::new();
    let html = w.append_child(0, element("html"));
    let body = w.append_child(html, element("body"));
    let a = w.append_child(body, element("div"));
    w.append_child(a, text("A"));
    let b = w.append_child(body, element("div"));
    w.append_child(b, text("B"));
    let c = w.append_child(body, element("div"));
    w.append_child(c, text("C"));
    let mut displays = vec![DisplayType::Block; w.nodes.len()];
    for i in 0..w.nodes.len() {
        if matches!(w.nodes[i].kind, NodeKind::Text(_)) {
            displays[i] = DisplayType::Inline;
        }
    }
    displays[b] = DisplayType::DisplayNone;
    (w, StyleSheet::new(displays), [a, b, c])
}

fn boxes(v: &LayoutView) -> Vec<LayoutObject> {
    (0..v.len()).map(|i| v.object(i)).collect()
}

#[test]
fn hidden_div_leaves_two_blocks_under_body() {
    let (w, s, [a, _b, c]) = three_divs();
    let v = LayoutView::new(&w, &s);
    let root = v.root().unwrap();
    let body = v.object(root);
    assert_eq!(body.kind, LayoutObjectKind::Block);
    let first = v.object(body.first_child.unwrap());
    assert_eq!(first.kind, LayoutObjectKind::Block);
    assert_eq!(first.node, a);
    let second = v.object(first.next_sibling.unwrap());
    assert_eq!(second.kind, LayoutObjectKind::Block);
    assert_eq!(second.node, c);
    assert_eq!(second.next_sibling, None);
    assert_eq!(second.parent, Some(root));
    let text_a = v.object(first.first_child.unwrap());
    assert_eq!(text_a.kind, LayoutObjectKind::Text);
    assert_eq!(text_a.text_len, 1);
    // directly below the first, with no room left for the hidden one
    assert_eq!(second.point.y, first.point.y + first.size.height);
    assert_eq!(second.point.x, first.point.x);
    // the hidden div and its text have no box at all
    assert_eq!(v.len(), 5);
}

#[test]
fn sizes_of_blocks_and_text() {
    let (w, s, _) = three_divs();
    let v = LayoutView::new(&w, &s);
    let body = v.object(v.root().unwrap());
    assert_eq!(body.point, LayoutPoint { x: 0, y: 0 });
    assert_eq!(body.size, LayoutSize { width: CONTENT_AREA_WIDTH, height: 40 });
    let first = v.object(body.first_child.unwrap());
    assert_eq!(first.size, LayoutSize { width: CONTENT_AREA_WIDTH, height: 20 });
    let text_a = v.object(first.first_child.unwrap());
    assert_eq!(text_a.size, LayoutSize { width: 8, height: 20 });
    // a first child is placed after its parent
    assert_eq!(first.point, LayoutPoint { x: 0, y: 40 });
    assert_eq!(text_a.point, LayoutPoint { x: 0, y: 60 });
}

#[test]
fn hidden_node_children_are_dropped_and_later_siblings_kept_in_order() {
    let mut w = Window::new();
    let body = w.append_child(0, element("body"));
    let x = w.append_child(body, element("span"));
    let hidden = w.append_child(body, element("div"));
    w.append_child(hidden, element("p"));
    let y = w.append_child(body, element("span"));
    let z = w.append_child(body, text("zz"));
    let mut displays = vec![DisplayType::Inline; w.nodes.len()];
    displays[body] = DisplayType::Block;
    displays[hidden] = DisplayType::DisplayNone;
    let v = LayoutView::new(&w, &StyleSheet::new(displays));
    let root = v.object(v.root().unwrap());
    let b1 = v.object(root.first_child.unwrap());
    let b2 = v.object(b1.next_sibling.unwrap());
    let b3 = v.object(b2.next_sibling.unwrap());
    assert_eq!((b1.node, b2.node, b3.node), (x, y, z));
    assert_eq!(b3.next_sibling, None);
    assert_eq!(b3.kind, LayoutObjectKind::Text);
    assert_eq!(v.len(), 4);
}

#[test]
fn inline_siblings_share_a_line() {
    let mut w = Window::new();
    let body = w.append_child(0, element("body"));
    w.append_child(body, text("abc"));
    let span = w.append_child(body, element("span"));
    w.append_child(span, text("de"));
    w.append_child(body, text("f"));
    let mut displays = vec![DisplayType::Inline; w.nodes.len()];
    displays[body] = DisplayType::Block;
    let v = LayoutView::new(&w, &StyleSheet::new(displays));
    let root = v.object(v.root().unwrap());
    let t1 = v.object(root.first_child.unwrap());
    let sp = v.object(t1.next_sibling.unwrap());
    let t3 = v.object(sp.next_sibling.unwrap());
    assert_eq!(t1.size, LayoutSize { width: 24, height: 20 });
    assert_eq!(sp.size, LayoutSize { width: 16, height: 20 });
    assert_eq!(sp.point.x, t1.point.x + t1.size.width);
    assert_eq!(sp.point.y, t1.point.y);
    assert_eq!(t3.point.x, sp.point.x + sp.size.width);
    // inline children of a block share one line of height
    assert_eq!(root.size.height, 20);
}

#[test]
fn long_text_wraps_to_the_content_width() {
    let mut w = Window::new();
    let body = w.append_child(0, element("body"));
    w.append_child(body, text(&"x".repeat(100)));
    let mut displays = vec![DisplayType::Inline; w.nodes.len()];
    displays[body] = DisplayType::Block;
    let v = LayoutView::new(&w, &StyleSheet::new(displays));
    let t = v.object(v.object(v.root().unwrap()).first_child.unwrap());
    // 800 px of text: two lines of the content width
    assert_eq!(t.size, LayoutSize { width: CONTENT_AREA_WIDTH, height: 40 });
}

#[test]
fn no_body_gives_no_layout() {
    let mut w = Window::new();
    let html = w.append_child(0, element("html"));
    w.append_child(html, element("head"));
    let v = LayoutView::new(&w, &StyleSheet::new(Vec::new()));
    assert_eq!(v.root(), None);
    assert_eq!(v.len(), 0);
}

#[test]
fn hidden_body_gives_no_layout() {
    let mut w = Window::new();
    let body = w.append_child(0, element("body"));
    w.append_child(body, text("a"));
    let mut displays = vec![DisplayType::Block; w.nodes.len()];
    displays[body] = DisplayType::DisplayNone;
    let v = LayoutView::new(&w, &StyleSheet::new(displays));
    assert_eq!(v.root(), None);
}

#[test]
fn rerunning_both_passes_changes_nothing() {
    let (w, s, _) = three_divs();
    let v = LayoutView::new(&w, &s);
    let mut bs = boxes(&v);
    let before = bs.clone();
    calculate_node_size(&mut bs, v.root(), LayoutSize { width: CONTENT_AREA_WIDTH, height: 0 });
    calculate_node_position(
        &mut bs,
        v.root(),
        LayoutPoint { x: 0, y: 0 },
        LayoutObjectKind::Block,
        None,
        None,
    );
    assert_eq!(bs, before);
}

#[test]
fn positions_follow_previous_sibling() {
    let (w, s, _) = three_divs();
    let v = LayoutView::new(&w, &s);
    let bs = boxes(&v);
    for p in &bs {
        if let Some(n) = p.next_sibling {
            let q = &bs[n];
            match p.kind {
                LayoutObjectKind::Block => assert!(q.point.y >= p.point.y + p.size.height),
                LayoutObjectKind::Inline => assert!(q.point.x >= p.point.x + p.size.width),
                LayoutObjectKind::Text => {}
            }
        }
    }
}

#[test]
fn rerunning_passes_on_inline_content_changes_nothing() {
    let mut w = Window::new();
    let body = w.append_child(0, element("body"));
    let span = w.append_child(body, element("span"));
    w.append_child(span, text("abc"));
    w.append_child(body, text("de"));
    let p = w.append_child(body, element("p"));
    w.append_child(p, text("f"));
    let mut displays = vec![DisplayType::Inline; w.nodes.len()];
    displays[body] = DisplayType::Block;
    displays[p] = DisplayType::Block;
    let v = LayoutView::new(&w, &StyleSheet::new(displays));
    let mut bs = boxes(&v);
    let before = bs.clone();
    calculate_node_size(&mut bs, v.root(), LayoutSize { width: CONTENT_AREA_WIDTH, height: 0 });
    calculate_node_position(
        &mut bs,
        v.root(),
        LayoutPoint { x: 0, y: 0 },
        LayoutObjectKind::Block,
        None,
        None,
    );
    assert_eq!(bs, before);
    // the block after the inline run starts right of it, on the same line
    let root = v.object(v.root().unwrap());
    let sp = v.object(root.first_child.unwrap());
    let de = v.object(sp.next_sibling.unwrap());
    let pb = v.object(de.next_sibling.unwrap());
    assert_eq!(sp.size, LayoutSize { width: 24, height: 20 });
    assert_eq!(de.point.x, sp.point.x + 24);
    assert_eq!(pb.point, LayoutPoint { x: de.point.x + 16, y: de.point.y });
    assert_eq!(pb.size.width, CONTENT_AREA_WIDTH);
    // one line for the inline run, one for the block
    assert_eq!(root.size.height, 40);
}

#[test]
fn body_is_found_in_document_order() {
    let mut w = Window::new();
    let html = w.append_child(0, element("html"));
    let head = w.append_child(html, element("head"));
    let late = w.append_child(html, element("body"));
    w.append_child(late, text("late"));
    let early = w.append_child(head, element("body"));
    w.append_child(early, text("early"));
    let v = LayoutView::new(&w, &StyleSheet::new(Vec::new()));
    assert_eq!(v.object(v.root().unwrap()).node, early);
}
