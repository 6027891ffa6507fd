use cascade::css::{Parser as CssParser, StyleSheet, Value};
use cascade::cursor::ErrorKind;
use cascade::dom::{Node, Parser as DomParser};
use cascade::style::{style_tree, PropertyMap, StyledNode};

fn markup(s: &str) -> Node {
    DomParser::parse(s.to_string()).expect("markup should parse")
}

fn sheet(s: &str) -> StyleSheet {
    CssParser::parse(s.to_string()).expect("stylesheet should parse")
}

fn keyword_of(map: &PropertyMap, name: &str) -> String {
    match map.get(&name.to_string()) {
        Some(Value::Keyword(k)) => k.clone(),
        _ => panic!("expected a keyword value for {}", name),
    }
}

#[test]
fn higher_specificity_wins() {
    let root = markup("<div class=\"cls\"></div>");
    let css = sheet("div {color: red;} .cls {color: blue;}");
    let styled = style_tree(&root, &css).expect("styling should succeed");
    assert_eq!(keyword_of(&styled.specified_values, "color"), "blue");
}

#[test]
fn higher_specificity_wins_regardless_of_source_order() {
    let root = markup("<div class=\"cls\"></div>");
    let css = sheet(".cls {color: blue;} div {color: red;}");
    let styled = style_tree(&root, &css).expect("styling should succeed");
    assert_eq!(keyword_of(&styled.specified_values, "color"), "blue");
}

#[test]
fn equal_specificity_lets_the_later_rule_win() {
    let root = markup("<div></div>");
    let css = sheet("div {color: red;} div {color: green;}");
    let styled = style_tree(&root, &css).expect("styling should succeed");
    assert_eq!(keyword_of(&styled.specified_values, "color"), "green");
}

#[test]
fn inline_style_overrides_everything() {
    let root = markup("<div style=\"color:red;\"></div>");
    let css = sheet("div {color: blue;} #nope {color: green;}");
    let styled = style_tree(&root, &css).expect("styling should succeed");
    assert_eq!(keyword_of(&styled.specified_values, "color"), "red");
}

#[test]
fn inline_style_works_without_any_matching_rule() {
    let root = markup("<p style=\"margin: 4px;\"></p>");
    let css = sheet("");
    let styled = style_tree(&root, &css).expect("styling should succeed");
    match styled.specified_values.get(&"margin".to_string()) {
        Some(Value::Length(n, _)) => assert_eq!(n, "4"),
        _ => panic!("expected the inline length"),
    }
}

#[test]
fn unmatched_rules_leave_no_binding() {
    let root = markup("<div></div>");
    let css = sheet(".other {color: red;}");
    let styled = style_tree(&root, &css).expect("styling should succeed");
    assert!(styled.specified_values.get(&"color".to_string()).is_none());
}

#[test]
fn id_selector_matches_the_id_attribute() {
    let root = markup("<p id=\"main\"></p>");
    let css = sheet("#main {color: red;} #other {color: blue;}");
    let styled = style_tree(&root, &css).expect("styling should succeed");
    assert_eq!(keyword_of(&styled.specified_values, "color"), "red");
}

#[test]
fn class_list_is_split_on_whitespace() {
    let root = markup("<p class=\"note wide\"></p>");
    let css = sheet(".wide {color: red;} .narrow {color: blue;}");
    let styled = style_tree(&root, &css).expect("styling should succeed");
    assert_eq!(keyword_of(&styled.specified_values, "color"), "red");
}

#[test]
fn all_selector_classes_must_be_present() {
    let root = markup("<p class=\"a\"></p>");
    let css = sheet(".a.b {color: red;}");
    let styled = style_tree(&root, &css).expect("styling should succeed");
    assert!(styled.specified_values.get(&"color".to_string()).is_none());
}

#[test]
fn rule_counts_only_its_most_specific_matching_selector() {
    // Both selectors of the first rule match; the rule enters once, with
    // the #i specificity, so it beats the single-class rule.
    let root = markup("<p id=\"i\" class=\"c\"></p>");
    let css = sheet("#i, .c {color: red;} .c {color: blue;}");
    let styled = style_tree(&root, &css).expect("styling should succeed");
    assert_eq!(keyword_of(&styled.specified_values, "color"), "red");
}

#[test]
fn text_nodes_get_an_empty_property_map() {
    let root = markup("<div>hello</div>");
    let css = sheet("div {color: red;}");
    let styled = style_tree(&root, &css).expect("styling should succeed");
    assert_eq!(styled.children.len(), 1);
    assert!(styled.children[0].specified_values.pairs.is_empty());
}

#[test]
fn styled_tree_mirrors_the_node_tree() {
    let root = markup("<div><p>a</p><p>b</p><span></span></div>");
    let css = sheet("p {color: red;}");
    let styled = style_tree(&root, &css).expect("styling should succeed");
    fn check(n: &Node, s: &StyledNode) {
        assert_eq!(n.children.len(), s.children.len());
        for i in 0..n.children.len() {
            check(&n.children[i], &s.children[i]);
        }
    }
    check(&root, &styled);
    assert_eq!(keyword_of(&styled.children[0].specified_values, "color"), "red");
    assert_eq!(keyword_of(&styled.children[1].specified_values, "color"), "red");
    assert!(styled.children[2]
        .specified_values
        .get(&"color".to_string())
        .is_none());
}

#[test]
fn malformed_inline_style_fails_the_resolution() {
    let root = markup("<div style=\"color:#12;\"></div>");
    let css = sheet("");
    let err = style_tree(&root, &css).unwrap_err();
    assert!(err.kind == ErrorKind::InvalidHex || err.kind == ErrorKind::UnexpectedEof);
}

#[test]
fn later_declaration_of_the_same_rule_wins() {
    let root = markup("<div></div>");
    let css = sheet("div {color: red; color: green;}");
    let styled = style_tree(&root, &css).expect("styling should succeed");
    assert_eq!(keyword_of(&styled.specified_values, "color"), "green");
}

#[test]
fn unrelated_properties_accumulate() {
    let root = markup("<div class=\"c\"></div>");
    let css = sheet("div {width: 100%;} .c {color: red;}");
    let styled = style_tree(&root, &css).expect("styling should succeed");
    assert_eq!(keyword_of(&styled.specified_values, "color"), "red");
    match styled.specified_values.get(&"width".to_string()) {
        Some(Value::Length(n, _)) => assert_eq!(n, "100"),
        _ => panic!("expected the width length"),
    }
}
