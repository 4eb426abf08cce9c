//! End-to-end tests for the XML parser: lexing, tag assembly with recovery,
//! tree building, the read and mutation API, and the canonical renderer.

use xmlite::Error;
use xmlite::Lexer;
use xmlite::Tag;
use xmlite::TagKind;
use xmlite::Tags;
use xmlite::TokenKind;
use xmlite::Xml;

#[test]
fn example_1() {
    let text = r#"<?xml?><can><beans kind="fava">Cool Beans</beans><sauce></sauce></can>"#;
    let xml = xmlite::document(text).unwrap();

    println!("{xml:?}");
    assert_eq!(xml.name(), Some("can"));
    assert_eq!(xml.children().unwrap()[0].name(), Some("beans"));
    // attribute values carry no quotes: they are stripped during lexing
    assert_eq!(xml.children().unwrap()[0].attr("kind"), Some("fava"));
}

#[test]
fn example_2() {
    let text = r#"<?xml?><bag><pastry kind="danish" /></bag>"#;
    let mut xml = xmlite::document(text).unwrap();
    assert_eq!(xml.name(), Some("bag"));
    let attr = xml
        .children_mut()
        .unwrap()
        .iter_mut()
        .find(|e| e.name() == Some("pastry"))
        .unwrap()
        .attr_mut("kind");

    *attr.unwrap() = "berliner".to_owned();
    assert_eq!(xml.children().unwrap()[0].attr("kind"), Some("berliner"));
}

#[test]
fn tag_simple() {
    let text = r#"<a b="c"><d /><e>"#;
    let mut tags = Tags::new(text);
    let a = tags.next().unwrap();
    println!("{a:?}");
    assert!(matches!(a, Tag::Tag { name: "a", .. }));
    assert!(a.attr("b") == Some("c"));
    assert!(matches!(
        tags.next().unwrap(),
        Tag::Tag { name: "d", kind: TagKind::SelfClosing, .. }
    ));
    assert!(matches!(tags.next().unwrap(), Tag::Tag { name: "e", .. }));

    assert!(tags.diags().is_empty());
}

#[test]
fn recover() {
    let text = r#"<a <b /><c />"#;
    let mut tags = Tags::new(text);
    assert!(matches!(tags.next(), Some(Tag::Tag { name: "b", .. })));
    assert!(matches!(tags.next(), Some(Tag::Tag { name: "c", .. })));
    assert!(!tags.diags().is_empty());
    assert!(matches!(tags.diags()[0], Error::Syntax { .. }));
}

#[test]
fn token_simple() {
    let text = r#"<a lol="123" />"#;
    let mut lexer = Lexer::new(text);
    let mut kinds = Vec::new();
    while let Some(t) = lexer.next() {
        kinds.push(t.kind);
    }
    assert_eq!(
        kinds,
        vec![
            TokenKind::Open,
            TokenKind::Name,
            TokenKind::Name,
            TokenKind::Equals,
            TokenKind::Value,
            TokenKind::Close,
        ]
    );
}

#[test]
fn comment() {
    let text = r#"<a <!-- inline --> ><!-- not inline --></a>"#;
    let mut tokens = Lexer::new(text);
    let t = tokens.next().unwrap();
    assert!(t.text == "<" && t.kind == TokenKind::Open);
}

#[test]
fn round_trip_built_tree() {
    let tree = Xml::element("root")
        .with_attr("id", "main")
        .with_child(Xml::element("item").with_attr("k", "v"))
        .with_child(Xml::element("note").with_child(Xml::text("hello world")));
    let text = tree.render();
    assert_eq!(text, r#"<root id="main"><item k="v"/><note>hello world</note></root>"#);
    let back = xmlite::document(&text).unwrap();
    assert_eq!(back, tree);
}

#[test]
fn descendants_twice_same_order() {
    let tree = xmlite::document("<a><b><c/></b><d/></a>").unwrap();
    let d1 = tree.descendants();
    let d2 = tree.descendants();
    assert_eq!(d1.len(), 3);
    assert_eq!(d1.len(), d2.len());
    for i in 0..d1.len() {
        assert_eq!(d1[i], d2[i]);
    }
    let names: Vec<_> = d1.iter().map(|n| n.name()).collect();
    assert_eq!(names, vec![Some("b"), Some("c"), Some("d")]);
}

#[test]
fn self_closing_has_no_children() {
    // whatever follows the self-closing root lexically is not its child
    let xml = xmlite::document("<a/><b></b>").unwrap();
    assert_eq!(xml.name(), Some("a"));
    assert_eq!(xml.children().unwrap().len(), 0);
    assert_eq!(xml.descendants().len(), 0);
}

#[test]
fn comments_contribute_nothing() {
    // between tags: no text node, no child
    let xml = xmlite::document("<a><!-- gone --></a>").unwrap();
    assert_eq!(xml.name(), Some("a"));
    assert_eq!(xml.children().unwrap().len(), 0);
    // inside a tag: no token
    let mut lexer = Lexer::new("<a <!-- inline --> >x</a>");
    let mut kinds = Vec::new();
    while let Some(t) = lexer.next() {
        kinds.push(t.kind);
    }
    assert_eq!(
        kinds,
        vec![
            TokenKind::Open,
            TokenKind::Name,
            TokenKind::Close,
            TokenKind::Text,
            TokenKind::Open,
            TokenKind::Name,
            TokenKind::Close,
        ]
    );
}

#[test]
fn attribute_without_value_is_empty_string() {
    let mut tags = Tags::new("<a data>");
    let a = tags.next().unwrap();
    assert_eq!(a.attr("data"), Some(""));
    let xml = xmlite::document("<a data></a>").unwrap();
    assert_eq!(xml.attr("data"), Some(""));
}

#[test]
fn mismatched_nesting_fails() {
    let err = xmlite::document("<a><b></a>").unwrap_err();
    match err {
        Error::Mismatched { expected, found, .. } => {
            assert_eq!(expected, "b");
            assert_eq!(found, "a");
        },
        other => panic!("expected a mismatched-tag error, got {other:?}"),
    }
}

#[test]
fn closing_tag_first_fails() {
    let err = xmlite::document("</a>").unwrap_err();
    match err {
        Error::Mismatched { expected, found, .. } => {
            assert_eq!(expected, "any opening tag");
            assert_eq!(found, "a");
        },
        other => panic!("expected a mismatched-tag error, got {other:?}"),
    }
}

#[test]
fn truncated_input_fails_with_eof() {
    let err = xmlite::document("<a><b></b>").unwrap_err();
    assert!(matches!(err, Error::Eof));
    let err = xmlite::document("").unwrap_err();
    assert!(matches!(err, Error::Eof));
}

#[test]
fn declaration_is_skipped() {
    let xml = xmlite::document(r#"<?xml version="1.0"?><root/>"#).unwrap();
    assert_eq!(xml.name(), Some("root"));
    assert_eq!(xml.children().unwrap().len(), 0);
    assert_eq!(xml.descendants().len(), 0);
}

#[test]
fn text_and_elements_in_document_order() {
    let xml = xmlite::document("<a>one<b/>two</a>").unwrap();
    let kids = xml.children().unwrap();
    assert_eq!(kids.len(), 3);
    assert_eq!(kids[0].content(), Some("one"));
    assert_eq!(kids[1].name(), Some("b"));
    assert_eq!(kids[2].content(), Some("two"));
}

#[test]
fn text_root() {
    let xml = xmlite::document("just text").unwrap();
    assert!(xml.is_text());
    assert_eq!(xml.content(), Some("just text"));
    assert_eq!(xml.name(), None);
}

#[test]
fn builder_api() {
    let node = Xml::text("hello");
    assert_eq!(node.content(), Some("hello"));
    assert!(node.is_text());
    let node = Xml::element("div").with_attr("id", "main").with_attr("class", "container");
    assert!(node.is_element());
    assert_eq!(node.attr("id"), Some("main"));
    assert_eq!(node.attr("class"), Some("container"));
    assert_eq!(node.attr("missing"), None);
    // last write wins
    let node = node.with_attr("id", "other");
    assert_eq!(node.attr("id"), Some("other"));
    let node = node.with_child(Xml::text("Hello, world!"));
    assert_eq!(node.children().unwrap().len(), 1);
    assert_eq!(node.children().unwrap()[0].content(), Some("Hello, world!"));
}

#[test]
fn attr_mut_replaces_one_value() {
    let mut xml = xmlite::document(r#"<a k="1" l="2"></a>"#).unwrap();
    *xml.attr_mut("k").unwrap() = "9".to_owned();
    assert_eq!(xml.attr("k"), Some("9"));
    assert_eq!(xml.attr("l"), Some("2"));
    assert!(xml.attr_mut("missing").is_none());
}

#[test]
fn lexer_peek_is_idempotent() {
    let mut lexer = Lexer::new("<a>");
    let p1 = lexer.peek().unwrap();
    let p2 = lexer.peek().unwrap();
    assert_eq!(p1.text, p2.text);
    assert_eq!(p1.kind, p2.kind);
    let n = lexer.next().unwrap();
    assert_eq!(n.text, "<");
    assert_eq!(n.kind, TokenKind::Open);
}

#[test]
fn tags_function_and_peek() {
    let mut tags = xmlite::tags("<a><b/></a>");
    let p = tags.peek().unwrap();
    assert_eq!(p.name(), Some("a"));
    let n = tags.next().unwrap();
    assert_eq!(n.name(), Some("a"));
    assert!(n.is_opening());
    assert!(!n.is_closing());
    assert!(!n.is_self_closing());
    assert!(!n.is_text());
    let b = tags.next().unwrap();
    assert!(b.is_self_closing());
    let closer = tags.next().unwrap();
    assert!(closer.is_closing());
    assert!(tags.next().is_none());
}

#[test]
fn unterminated_comment_is_swallowed() {
    let mut lexer = Lexer::new("<a><!-- never closed");
    let mut kinds = Vec::new();
    while let Some(t) = lexer.next() {
        kinds.push(t.kind);
    }
    assert_eq!(kinds, vec![TokenKind::Open, TokenKind::Name, TokenKind::Close]);
}

#[test]
fn report_counts_every_consumed_character() {
    // nine characters on one line, closing quote included: column ends at 10
    let mut lexer = Lexer::new("<a k=\"v\">");
    while lexer.next().is_some() {}
    assert_eq!(lexer.report(), (1, 10));
    // a newline resets the column; two characters follow it
    let mut lexer = Lexer::new("ab\ncd");
    while lexer.next().is_some() {}
    assert_eq!(lexer.report(), (2, 3));
}

#[test]
fn diagnostic_span_points_at_the_offender() {
    let mut tags = Tags::new("<a\n  !></a>");
    let first = tags.next().unwrap();
    assert!(first.is_closing());
    match &tags.diags()[0] {
        Error::Syntax { token, span } => {
            assert_eq!(token, "!");
            // line 2; the two-space indent and the consumed `!` end at column 4
            assert_eq!(*span, (2, 4));
        },
        other => panic!("expected a syntax diagnostic, got {other:?}"),
    }
}

#[test]
fn report_tracks_lines() {
    let mut tags = Tags::new("<a>\n<b>");
    assert_eq!(tags.report(), (1, 1));
    tags.next();
    tags.next();
    let (line, _) = tags.report();
    assert_eq!(line, 2);
}

#[test]
fn stray_character_recovers() {
    // `!` fits no token class inside a tag: a diagnostic is recorded and
    // assembly resynchronizes at the next open bracket
    let mut tags = Tags::new("<a !></a><b/>");
    let first = tags.next().unwrap();
    assert!(first.is_closing());
    assert_eq!(first.name(), Some("a"));
    assert!(!tags.diags().is_empty());
    let second = tags.next().unwrap();
    assert_eq!(second.name(), Some("b"));
}

#[test]
fn angle_bracket_inside_attribute_value() {
    // quoted values are raw: everything up to the matching quote
    let xml = xmlite::document(r#"<a k="<odd>"></a>"#).unwrap();
    assert_eq!(xml.attr("k"), Some("<odd>"));
}

#[test]
fn single_quoted_attribute_value() {
    let xml = xmlite::document("<a k='v'></a>").unwrap();
    assert_eq!(xml.attr("k"), Some("v"));
}

#[test]
fn duplicate_attribute_last_write_wins() {
    let xml = xmlite::document(r#"<a k="1" k="2"></a>"#).unwrap();
    assert_eq!(xml.attr("k"), Some("2"));
}

#[test]
fn render_text_and_empty_element() {
    assert_eq!(Xml::text("plain").render(), "plain");
    assert_eq!(Xml::element("hr").render(), "<hr/>");
    assert_eq!(Xml::element("p").with_child(Xml::text("x")).render(), "<p>x</p>");
}
