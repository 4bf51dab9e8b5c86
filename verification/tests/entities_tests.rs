use emend_lt::entities::{expand, parse_entity_defs};

#[test]
fn extracts_and_expands() {
    let xml = r#"<!ENTITY apostrophe "['’]">
                 <!ENTITY greet 'hi|hey'>
                 <pattern><token regexp="yes">&greet;&apostrophe;</token></pattern>"#;
    let defs = parse_entity_defs(xml);
    assert_eq!(defs.get("apostrophe").unwrap(), "['’]");
    assert_eq!(defs.get("greet").unwrap(), "hi|hey");
    let expanded = expand(xml, &defs);
    assert!(expanded.contains("hi|hey['’]"));
    assert!(!expanded.contains("&greet;"));
}

#[test]
fn leaves_standard_entities() {
    let defs = parse_entity_defs("<!ENTITY x \"y\">");
    let out = expand("a &amp; b &x;", &defs);
    assert_eq!(out, "a &amp; b y");
}

#[test]
fn nested_references_expand_and_later_declarations_win() {
    let defs = parse_entity_defs("<!ENTITY a \"&b;!\"> <!ENTITY b 'one'> <!ENTITY b 'two'>");
    assert_eq!(defs.len(), 2);
    assert_eq!(defs.get("b").unwrap(), "two");
    assert_eq!(expand("[&a;]", &defs), "[two!]");
    assert!(defs.get("c").is_none());
}

#[test]
fn no_declarations_leave_text_unchanged() {
    let defs = parse_entity_defs("<rules/>");
    assert!(defs.is_empty());
    assert_eq!(expand("&x; & y;", &defs), "&x; & y;");
}
