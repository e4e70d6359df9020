use saba_core::dom::{Attribute, NodeKind, Window};
use saba_core::parser::{HtmlParser, HtmlToken, TokenStream};

fn start(tag: &str) -> HtmlToken {
    HtmlToken::StartTag {
        tag: tag.to_string(),
        self_closing: false,
        attributes: Vec::new(),
    }
}

fn build(tokens: Vec<HtmlToken>) -> Window {
    HtmlParser::new(TokenStream::from_tokens(tokens)).construct_tree()
}

fn tag_of(w: &Window, i: usize) -> String {
    match &w.nodes[i].kind {
        NodeKind::Element(e) => e.tag.clone(),
        _ => panic!("node {} is not an element", i),
    }
}

#[test]
fn html_then_head_gives_nested_elements() {
    let w = build(vec![start("html"), start("head"), HtmlToken::Eof]);
    assert_eq!(w.nodes.len(), 3);
    assert!(matches!(w.nodes[0].kind, NodeKind::Document));
    assert_eq!(w.nodes[0].first_child, Some(1));
    assert_eq!(w.nodes[0].last_child, Some(1));
    assert_eq!(tag_of(&w, 1), "html");
    assert_eq!(w.nodes[1].parent, Some(0));
    assert_eq!(w.nodes[1].next_sibling, None);
    assert_eq!(w.nodes[1].first_child, Some(2));
    assert_eq!(w.nodes[1].last_child, Some(2));
    assert_eq!(tag_of(&w, 2), "head");
    assert_eq!(w.nodes[2].parent, Some(1));
    assert_eq!(w.nodes[2].first_child, None);
}

#[test]
fn eof_alone_gives_empty_document() {
    let w = build(vec![HtmlToken::Eof]);
    assert_eq!(w.nodes.len(), 1);
    assert!(matches!(w.nodes[0].kind, NodeKind::Document));
    assert_eq!(w.nodes[0].first_child, None);
}

#[test]
fn no_tokens_gives_empty_document() {
    let w = build(Vec::new());
    assert_eq!(w.nodes.len(), 1);
    assert_eq!(w.nodes[0].first_child, None);
}

#[test]
fn leading_characters_create_nothing() {
    let w = build(vec![
        HtmlToken::Char('a'),
        HtmlToken::Char(' '),
        HtmlToken::Char('\n'),
        HtmlToken::Char('b'),
        HtmlToken::Eof,
    ]);
    assert_eq!(w.nodes.len(), 1);
    let w = build(vec![HtmlToken::Char('x'), HtmlToken::Char(' '), start("html"), HtmlToken::Eof]);
    assert_eq!(w.nodes.len(), 2);
    assert_eq!(tag_of(&w, 1), "html");
}

#[test]
fn html_attributes_are_kept() {
    let tok = HtmlToken::StartTag {
        tag: "html".to_string(),
        self_closing: false,
        attributes: vec![Attribute { name: "lang".to_string(), value: "en".to_string() }],
    };
    let w = build(vec![tok, HtmlToken::Eof]);
    match &w.nodes[1].kind {
        NodeKind::Element(e) => {
            assert_eq!(e.attributes.len(), 1);
            assert_eq!(e.attributes[0].name, "lang");
            assert_eq!(e.attributes[0].value, "en");
        }
        _ => panic!("not an element"),
    }
}

#[test]
fn other_tag_implies_html_and_is_dropped() {
    // `body` is not reprocessed: the implied `head` comes from the next token.
    let w = build(vec![start("body"), start("div"), HtmlToken::Eof]);
    assert_eq!(w.nodes.len(), 3);
    assert_eq!(tag_of(&w, 1), "html");
    assert_eq!(tag_of(&w, 2), "head");
    match &w.nodes[1].kind {
        NodeKind::Element(e) => assert_eq!(e.attributes.len(), 0),
        _ => panic!("not an element"),
    }
}

#[test]
fn inter_tag_space_is_skipped() {
    let w = build(vec![
        start("html"),
        HtmlToken::Char(' '),
        HtmlToken::Char('\n'),
        start("head"),
        start("title"),
        HtmlToken::Char('t'),
        HtmlToken::EndTag { tag: "title".to_string() },
    ]);
    assert_eq!(w.nodes.len(), 3);
    assert_eq!(tag_of(&w, 2), "head");
}

#[test]
fn eof_in_before_head_stops() {
    let w = build(vec![start("html"), HtmlToken::Eof, start("head")]);
    assert_eq!(w.nodes.len(), 2);
    assert_eq!(w.nodes[1].first_child, None);
}

#[test]
fn append_child_links_siblings() {
    let mut w = Window::new();
    let a = w.append_child(0, NodeKind::Text("a".to_string()));
    let b = w.append_child(0, NodeKind::Text("b".to_string()));
    let c = w.append_child(0, NodeKind::Text("c".to_string()));
    assert_eq!(w.nodes[0].first_child, Some(a));
    assert_eq!(w.nodes[0].last_child, Some(c));
    assert_eq!(w.nodes[a].next_sibling, Some(b));
    assert_eq!(w.nodes[b].next_sibling, Some(c));
    assert_eq!(w.nodes[c].previous_sibling, Some(b));
    assert_eq!(w.nodes[b].previous_sibling, Some(a));
    assert_eq!(w.nodes[a].previous_sibling, None);
    assert_eq!(w.nodes[c].parent, Some(0));
}
