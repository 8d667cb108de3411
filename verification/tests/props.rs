use html_query_parser::{
    attrs_get, parse, Editable, HtmlError, Htmlifiable, Node, Queryable, Selector, Trimable,
};

#[test]
fn round_trip() {
    let source = r#"
    <div>
        <span id="class">Hello</span>
        <span class="id">World</span>
    </div>"#;
    let first = parse(source).unwrap();
    let again = parse(&first.html()).unwrap();
    assert_eq!(again, first);
}

#[test]
fn paired_elements() {
    let nodes = parse("<p></p>").unwrap();
    assert_eq!(nodes.len(), 1);
    match &nodes[0] {
        Node::Element {
            name,
            attrs,
            children,
        } => {
            assert_eq!(name, "p");
            assert!(attrs.is_empty());
            assert!(children.is_empty());
        }
        other => panic!("expected an element, got {:?}", other),
    }
    let nodes = parse("<div>Hello, world!</div>").unwrap();
    assert_eq!(nodes.len(), 1);
    match &nodes[0] {
        Node::Element { name, children, .. } => {
            assert_eq!(name, "div");
            assert_eq!(children, &vec![Node::Text("Hello, world!".to_string())]);
        }
        other => panic!("expected an element, got {:?}", other),
    }
}

#[test]
fn void_img() {
    for source in ["<img>", "<img/>"] {
        let nodes = parse(source).unwrap();
        assert_eq!(nodes.len(), 1);
        match &nodes[0] {
            Node::Element { name, children, .. } => {
                assert_eq!(name, "img");
                assert!(children.is_empty());
            }
            other => panic!("expected an element, got {:?}", other),
        }
        assert_eq!(nodes.html(), "<img>");
    }
}

#[test]
fn comment_round_trip() {
    assert_eq!(parse("<!--x-->").unwrap().html(), "<!--x-->");
}

#[test]
fn doctype_normalized() {
    assert_eq!(parse("<!doctype html>").unwrap().html(), "<!DOCTYPE html>");
}

#[test]
fn attribute_pairs() {
    let nodes = parse("<a b=\"1\" c=2>").unwrap();
    assert_eq!(nodes.len(), 1);
    match &nodes[0] {
        Node::Element { name, attrs, .. } => {
            assert_eq!(name, "a");
            assert_eq!(attrs.len(), 2);
            assert_eq!(attrs_get(attrs, &"b".to_string()), Some("1".to_string()));
            assert_eq!(attrs_get(attrs, &"c".to_string()), Some("2".to_string()));
        }
        other => panic!("expected an element, got {:?}", other),
    }
}

#[test]
fn selector_fields() {
    let sel = Selector::from("div#app.box");
    assert_eq!(sel.tag, "div");
    assert_eq!(sel.id, "app");
    assert_eq!(sel.class, "box");
    let sel = Selector::from(".box");
    assert_eq!(sel.tag, "");
    assert_eq!(sel.id, "");
    assert_eq!(sel.class, "box");
}

#[test]
fn selector_trims_input() {
    let sel = Selector::from("  div#app  ");
    assert_eq!(sel.tag, "div");
    assert_eq!(sel.id, "app");
}

#[test]
fn query_all_descendants_first() {
    let nodes = parse(r#"<div><span>A</span><span>B</span><div class="x">C</div></div>"#).unwrap();
    let spans = nodes.query_all(&Selector::from("span"));
    assert_eq!(spans.len(), 2);
    assert_eq!(spans[0].children, vec![Node::Text("A".to_string())]);
    assert_eq!(spans[1].children, vec![Node::Text("B".to_string())]);
    let divs = nodes.query_all(&Selector::from("div"));
    assert_eq!(divs.len(), 2);
    assert_eq!(
        attrs_get(&divs[0].attrs, &"class".to_string()),
        Some("x".to_string())
    );
    assert_eq!(attrs_get(&divs[1].attrs, &"class".to_string()), None);
}

#[test]
fn trim_blank_wrapper() {
    let nodes = Trimable::trim(parse("<div>  <!--x-->\n  </div>").unwrap());
    assert_eq!(nodes.len(), 1);
    match &nodes[0] {
        Node::Element { name, children, .. } => {
            assert_eq!(name, "div");
            assert!(children.is_empty());
        }
        other => panic!("expected an element, got {:?}", other),
    }
}

#[test]
fn trim_keeps_doctype_sibling() {
    let nodes = Trimable::trim(parse("<!doctype html><div> <!--x--> </div>").unwrap());
    assert_eq!(nodes.len(), 2);
    assert!(matches!(nodes[0], Node::Doctype));
    match &nodes[1] {
        Node::Element { children, .. } => assert!(children.is_empty()),
        other => panic!("expected an element, got {:?}", other),
    }
}

#[test]
fn insert_to_unique_match() {
    let mut nodes = parse(r#"<div><p></p><p class="t"></p></div>"#).unwrap();
    nodes.insert_to(&Selector::from(".t"), Node::Text("x".to_string()));
    assert_eq!(nodes.html(), r#"<div><p></p><p class="t">x</p></div>"#);
}

#[test]
fn insert_to_unique_match_deep() {
    let mut nodes = parse(r#"<div><ul><li class="t"></li><li></li></ul><p></p></div>"#).unwrap();
    nodes.insert_to(&Selector::from(".t"), Node::Text("x".to_string()));
    assert_eq!(
        nodes.html(),
        r#"<div><ul><li class="t">x</li><li></li></ul><p></p></div>"#
    );
}

#[test]
fn render_escapes_attribute_quotes() {
    let node = Node::Element {
        name: "a".to_string(),
        attrs: vec![("b".to_string(), "x\"y'z".to_string())],
        children: Vec::new(),
    };
    assert_eq!(node.html(), "<a b=\"x\\\"y\\'z\"></a>");
}

#[test]
fn error_malformed_tag() {
    assert_eq!(parse("<>"), Err(HtmlError::MalformedTag));
    assert_eq!(parse("< >"), Err(HtmlError::MalformedTag));
}

#[test]
fn error_unexpected_end_tag() {
    assert_eq!(parse("</p>"), Err(HtmlError::UnexpectedEndTag));
    assert_eq!(parse("<p></p></p>"), Err(HtmlError::UnexpectedEndTag));
}

#[test]
fn error_attribute_mismatch() {
    assert_eq!(parse("<input disabled>"), Err(HtmlError::AttributeParseError));
}

#[test]
fn error_unterminated_tag() {
    assert_eq!(parse("<div"), Err(HtmlError::UnterminatedTag));
    assert_eq!(parse("<a href=\"x"), Err(HtmlError::UnterminatedTag));
}

#[test]
fn error_unterminated_comment() {
    assert_eq!(parse("<!-- open"), Err(HtmlError::UnterminatedComment));
}

#[test]
fn error_not_an_element() {
    let err = Node::Text("t".to_string()).try_into_element().unwrap_err();
    assert_eq!(err, HtmlError::NotAnElement);
    assert!(Node::Doctype.try_into_element().is_err());
}

#[test]
fn is_element_kinds() {
    assert!(Node::Element {
        name: "p".to_string(),
        attrs: Vec::new(),
        children: Vec::new(),
    }
    .is_element());
    assert!(!Node::Text("x".to_string()).is_element());
    assert!(!Node::Comment("x".to_string()).is_element());
    assert!(!Node::Doctype.is_element());
}

#[test]
fn query_first_preorder() {
    let nodes = parse(r#"<div><a id="one"></a></div><a id="two"></a>"#).unwrap();
    let hit = nodes.query(&Selector::from("a")).unwrap();
    assert_eq!(
        attrs_get(&hit.attrs, &"id".to_string()),
        Some("one".to_string())
    );
    assert!(nodes.query(&Selector::from("nav")).is_none());
}

#[test]
fn duplicate_attribute_key_last_wins() {
    let nodes = parse("<a b=\"1\" b=\"2\">").unwrap();
    match &nodes[0] {
        Node::Element { attrs, .. } => {
            assert_eq!(attrs.len(), 1);
            assert_eq!(attrs_get(attrs, &"b".to_string()), Some("2".to_string()));
        }
        other => panic!("expected an element, got {:?}", other),
    }
}

#[test]
fn trim_unicode_whitespace() {
    let nodes = Trimable::trim(vec![
        Node::Text("\u{000C}".to_string()),
        Node::Text("\u{000B}\u{00A0}\u{2028}".to_string()),
        Node::Text("kept".to_string()),
    ]);
    assert_eq!(nodes, vec![Node::Text("kept".to_string())]);
    let nodes = Trimable::trim(parse("<div>\u{000C}\u{00A0}</div>").unwrap());
    match &nodes[0] {
        Node::Element { children, .. } => assert!(children.is_empty()),
        other => panic!("expected an element, got {:?}", other),
    }
}

#[test]
fn selector_trims_unicode_whitespace() {
    let sel = Selector::from("\u{00A0}div#app\u{2028}");
    assert_eq!(sel.tag, "div");
    assert_eq!(sel.id, "app");
}
