use cascade::cursor::ErrorKind;
use cascade::css::{Parser, Selector, StyleSheet, Unit, Value};

fn parse(s: &str) -> StyleSheet {
    Parser::parse(s.to_string()).expect("stylesheet should parse")
}

fn selector_parts(sel: &Selector) -> (Option<&str>, Option<&str>, Vec<&str>) {
    let Selector::Simple(s) = sel;
    (
        s.tag_name.as_deref(),
        s.id.as_deref(),
        s.class.iter().map(|c| c.as_str()).collect(),
    )
}

#[test]
fn minimal_stylesheet_round_trip() {
    let sheet = parse(".a{color:#FF0000;}");
    assert_eq!(sheet.rules.len(), 1);
    let rule = &sheet.rules[0];
    assert_eq!(rule.selectors.len(), 1);
    let (tag, id, classes) = selector_parts(&rule.selectors[0]);
    assert!(tag.is_none());
    assert!(id.is_none());
    assert_eq!(classes, vec!["a"]);
    assert_eq!(rule.selectors[0].specificity(), (0, 1, 0));
    assert_eq!(rule.declarations.len(), 1);
    assert_eq!(rule.declarations[0].name, "color");
    match &rule.declarations[0].value {
        Value::ColorValue(c) => {
            assert_eq!((c.r, c.g, c.b, c.a), (255, 0, 0, 255));
        }
        _ => panic!("expected a color"),
    }
}

#[test]
fn specificity_tuples_and_their_order() {
    let sheet = parse("#id, .a.b.c.d.e, div {}");
    let rule = &sheet.rules[0];
    assert_eq!(rule.selectors.len(), 3);
    // Sorted descending: the id selector first, the five classes next,
    // the bare tag last.
    assert_eq!(rule.selectors[0].specificity(), (1, 0, 0));
    assert_eq!(rule.selectors[1].specificity(), (0, 5, 0));
    assert_eq!(rule.selectors[2].specificity(), (0, 0, 1));
    assert!(selector_parts(&rule.selectors[0]).1 == Some("id"));
    assert_eq!(selector_parts(&rule.selectors[1]).2.len(), 5);
    assert!(selector_parts(&rule.selectors[2]).0 == Some("div"));
    // The tuples themselves order the same way.
    assert!((1, 0, 0) > (0, 5, 0));
    assert!((0, 5, 0) > (0, 0, 1));
}

#[test]
fn equal_specificity_keeps_source_order() {
    let sheet = parse(".x, .y, .z {}");
    let rule = &sheet.rules[0];
    let names: Vec<&str> = rule
        .selectors
        .iter()
        .map(|s| selector_parts(s).2[0])
        .collect();
    assert_eq!(names, vec!["x", "y", "z"]);
}

#[test]
fn compound_selector_parts() {
    let sheet = parse("div#main.note.wide {}");
    let (tag, id, classes) = selector_parts(&sheet.rules[0].selectors[0]);
    assert_eq!(tag, Some("div"));
    assert_eq!(id, Some("main"));
    assert_eq!(classes, vec!["note", "wide"]);
    assert_eq!(sheet.rules[0].selectors[0].specificity(), (1, 2, 1));
}

#[test]
fn universal_selector_sets_no_field() {
    let sheet = parse("* {}");
    let (tag, id, classes) = selector_parts(&sheet.rules[0].selectors[0]);
    assert!(tag.is_none());
    assert!(id.is_none());
    assert!(classes.is_empty());
    assert_eq!(sheet.rules[0].selectors[0].specificity(), (0, 0, 0));
}

#[test]
fn length_values_keep_literal_and_unit() {
    let sheet = parse(".a { width: 100px; height: 2.5%; }");
    let decls = &sheet.rules[0].declarations;
    assert_eq!(decls.len(), 2);
    assert_eq!(decls[0].name, "width");
    match &decls[0].value {
        Value::Length(n, u) => {
            assert_eq!(n, "100");
            assert_eq!(*u, Unit::Px);
        }
        _ => panic!("expected a length"),
    }
    match &decls[1].value {
        Value::Length(n, u) => {
            assert_eq!(n, "2.5");
            assert_eq!(*u, Unit::Percent);
        }
        _ => panic!("expected a length"),
    }
}

#[test]
fn unit_keyword_is_case_insensitive() {
    let sheet = parse(".a{width:10PX;}");
    match &sheet.rules[0].declarations[0].value {
        Value::Length(_, u) => assert_eq!(*u, Unit::Px),
        _ => panic!("expected a length"),
    }
}

#[test]
fn keyword_value() {
    let sheet = parse(".a { display : inline-block; }");
    let d = &sheet.rules[0].declarations[0];
    assert_eq!(d.name, "display");
    match &d.value {
        Value::Keyword(k) => assert_eq!(k, "inline-block"),
        _ => panic!("expected a keyword"),
    }
}

#[test]
fn lowercase_hex_color() {
    let sheet = parse(".a{color:#a0b1c2;}");
    match &sheet.rules[0].declarations[0].value {
        Value::ColorValue(c) => assert_eq!((c.r, c.g, c.b, c.a), (0xA0, 0xB1, 0xC2, 255)),
        _ => panic!("expected a color"),
    }
}

#[test]
fn unrecognized_unit_is_rejected() {
    let err = Parser::parse(".a{width: 10xx;}".to_string()).unwrap_err();
    assert_eq!(err.kind, ErrorKind::UnrecognizedUnit);
}

#[test]
fn missing_unit_is_rejected() {
    let err = Parser::parse(".a{width: 10;}".to_string()).unwrap_err();
    assert_eq!(err.kind, ErrorKind::UnrecognizedUnit);
}

#[test]
fn short_hex_color_is_rejected() {
    let err = Parser::parse(".a{color:#12;}".to_string()).unwrap_err();
    assert!(err.kind == ErrorKind::InvalidHex || err.kind == ErrorKind::UnexpectedEof);
}

#[test]
fn bad_hex_digits_are_rejected() {
    let err = Parser::parse(".a{color:#12zz56;}".to_string()).unwrap_err();
    assert_eq!(err.kind, ErrorKind::InvalidHex);
}

#[test]
fn two_dots_make_an_invalid_number() {
    let err = Parser::parse(".a{width: 1.2.3px;}".to_string()).unwrap_err();
    assert_eq!(err.kind, ErrorKind::InvalidNumber);
}

#[test]
fn missing_colon_is_rejected() {
    let err = Parser::parse(".a{color red;}".to_string()).unwrap_err();
    assert_eq!(err.kind, ErrorKind::UnexpectedCharacter);
}

#[test]
fn missing_semicolon_is_rejected() {
    let err = Parser::parse(".a{color:red}".to_string()).unwrap_err();
    assert_eq!(err.kind, ErrorKind::UnexpectedCharacter);
}

#[test]
fn error_carries_the_offset() {
    let err = Parser::parse(".a{width: 10xx;}".to_string()).unwrap_err();
    // The unit starts after "10": at offset 12 of the input.
    assert_eq!(err.pos, 12);
}

#[test]
fn declaration_list_entry_point_without_braces() {
    let mut p = Parser::new("name:inline-style;color: #FF0000;");
    let decls = p.parse_declarations().expect("inline list should parse");
    assert_eq!(decls.len(), 2);
    assert_eq!(decls[0].name, "name");
    match &decls[0].value {
        Value::Keyword(k) => assert_eq!(k, "inline-style"),
        _ => panic!("expected a keyword"),
    }
    assert_eq!(decls[1].name, "color");
    match &decls[1].value {
        Value::ColorValue(c) => assert_eq!((c.r, c.g, c.b), (255, 0, 0)),
        _ => panic!("expected a color"),
    }
}

#[test]
fn several_rules_keep_source_order() {
    let sheet = parse(".a{x:y;} .b{x:z;}");
    assert_eq!(sheet.rules.len(), 2);
    assert_eq!(selector_parts(&sheet.rules[0].selectors[0]).2, vec!["a"]);
    assert_eq!(selector_parts(&sheet.rules[1].selectors[0]).2, vec!["b"]);
}
