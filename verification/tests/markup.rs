use cascade::cursor::ErrorKind;
use cascade::dom::{Node, NodeType, Parser};

fn parse(s: &str) -> Node {
    Parser::parse(s.to_string()).expect("markup should parse")
}

fn tag_of(n: &Node) -> &str {
    match &n.node_type {
        NodeType::Element(d) => d.tag_name.as_str(),
        NodeType::Text(_) => panic!("expected an element"),
    }
}

fn text_of(n: &Node) -> &str {
    match &n.node_type {
        NodeType::Text(t) => t.as_str(),
        NodeType::Element(_) => panic!("expected a text node"),
    }
}

#[test]
fn single_root_is_unwrapped() {
    let root = parse("<div><p>hi</p></div>");
    assert_eq!(tag_of(&root), "div");
    assert_eq!(root.children.len(), 1);
    let p = &root.children[0];
    assert_eq!(tag_of(p), "p");
    assert_eq!(p.children.len(), 1);
    assert_eq!(text_of(&p.children[0]), "hi");
}

#[test]
fn two_top_level_nodes_get_html_wrapper() {
    let root = parse("<a></a><b></b>");
    assert_eq!(tag_of(&root), "html");
    assert_eq!(root.children.len(), 2);
    assert_eq!(tag_of(&root.children[0]), "a");
    assert_eq!(tag_of(&root.children[1]), "b");
    match &root.node_type {
        NodeType::Element(d) => assert_eq!(d.attributes.pairs.len(), 0),
        NodeType::Text(_) => panic!("expected an element"),
    }
}

#[test]
fn empty_input_gets_html_wrapper() {
    let root = parse("");
    assert_eq!(tag_of(&root), "html");
    assert_eq!(root.children.len(), 0);
}

#[test]
fn whitespace_only_input_gets_html_wrapper() {
    let root = parse("  \n\t ");
    assert_eq!(tag_of(&root), "html");
    assert_eq!(root.children.len(), 0);
}

#[test]
fn attributes_round_trip() {
    let root = parse("<a x=\"1\" y='2'>t</a>");
    assert_eq!(tag_of(&root), "a");
    match &root.node_type {
        NodeType::Element(d) => {
            assert_eq!(d.attributes.get(&"x".to_string()).unwrap(), "1");
            assert_eq!(d.attributes.get(&"y".to_string()).unwrap(), "2");
            assert!(d.attributes.get(&"z".to_string()).is_none());
        }
        NodeType::Text(_) => panic!("expected an element"),
    }
    assert_eq!(root.children.len(), 1);
    assert_eq!(text_of(&root.children[0]), "t");
}

#[test]
fn later_attribute_wins() {
    let root = parse("<a x=\"1\" x=\"2\"></a>");
    match &root.node_type {
        NodeType::Element(d) => {
            assert_eq!(d.attributes.get(&"x".to_string()).unwrap(), "2");
        }
        NodeType::Text(_) => panic!("expected an element"),
    }
}

#[test]
fn mismatched_tag_is_rejected() {
    let err = Parser::parse("<a>text</b>".to_string()).unwrap_err();
    assert_eq!(err.kind, ErrorKind::MismatchedTag);
}

#[test]
fn unclosed_element_is_rejected() {
    let err = Parser::parse("<a>".to_string()).unwrap_err();
    assert_eq!(err.kind, ErrorKind::UnexpectedEof);
}

#[test]
fn unterminated_attribute_value_is_rejected() {
    let err = Parser::parse("<a x=\"1>t</a>".to_string()).unwrap_err();
    assert_eq!(err.kind, ErrorKind::UnexpectedEof);
}

#[test]
fn unquoted_attribute_value_is_rejected() {
    let err = Parser::parse("<a x=1></a>".to_string()).unwrap_err();
    assert_eq!(err.kind, ErrorKind::UnexpectedCharacter);
}

#[test]
fn multibyte_text_stays_whole() {
    let root = parse("<a>h\u{e9}llo \u{4e16}\u{754c}</a>");
    assert_eq!(text_of(&root.children[0]), "h\u{e9}llo \u{4e16}\u{754c}");
}

#[test]
fn nested_siblings_keep_order() {
    let root = parse("<ul><li>one</li><li>two</li><li>three</li></ul>");
    assert_eq!(root.children.len(), 3);
    assert_eq!(text_of(&root.children[0].children[0]), "one");
    assert_eq!(text_of(&root.children[1].children[0]), "two");
    assert_eq!(text_of(&root.children[2].children[0]), "three");
}
