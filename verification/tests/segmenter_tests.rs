use emend_lt::regex_translate::java_to_fancy;

#[test]
fn translates_unicode_escape() {
    assert_eq!(java_to_fancy(r"[\s\u00A0]"), r"[\s\x{00A0}]");
    assert_eq!(java_to_fancy(r"\u2029"), r"\x{2029}");
}

#[test]
fn leaves_other_escapes_alone() {
    assert_eq!(java_to_fancy(r"\b[Ee]tc\."), r"\b[Ee]tc\.");
    assert_eq!(java_to_fancy(r"\p{Lu}\p{Ll}+"), r"\p{Lu}\p{Ll}+");
}

#[test]
fn respects_escaped_backslash() {
    assert_eq!(java_to_fancy(r"\\u00A0"), r"\\u00A0");
}

#[test]
fn triple_backslash_escape_is_translated() {
    assert_eq!(java_to_fancy(r"\\\u00e9x"), r"\\\x{00e9}x");
    assert_eq!(java_to_fancy(r"\u00G1"), r"\u00G1");
}

use emend_lt::segmenter::Segmenter;
use emend_lt::srx::{SrxDocument, SrxRule};

fn srx(cascade: &str) -> String {
    format!(
        r#"<srx version="2.0"><header segmentsubflows="yes" cascade="{cascade}"/><body>
<languagerules>
<languagerule languagerulename="English">
<rule break="no"><beforebreak>\bMr\.\s</beforebreak><afterbreak>\p{{Lu}}</afterbreak></rule>
</languagerule>
<languagerule languagerulename="Default">
<rule break="yes"><beforebreak>[.?!]\s</beforebreak><afterbreak>\p{{Lu}}</afterbreak></rule>
</languagerule>
</languagerules>
<maprules>
<languagemap languagepattern="en.*" languagerulename="English"/>
<languagemap languagepattern=".*" languagerulename="Default"/>
</maprules></body></srx>"#
    )
}

fn kinds(rules: &[SrxRule]) -> Vec<(bool, String)> {
    rules.iter().map(|r| (r.is_break, r.before.clone())).collect()
}

#[test]
fn cascade_collects_every_matching_language() {
    let doc = SrxDocument::parse(&srx("yes")).unwrap();
    let rules = doc.rules_for("en-US");
    assert_eq!(
        kinds(&rules),
        vec![(false, r"\bMr\.\s".to_string()), (true, r"[.?!]\s".to_string())]
    );
    assert_eq!(kinds(&doc.rules_for("de")), vec![(true, r"[.?!]\s".to_string())]);
}

#[test]
fn without_cascade_the_first_match_decides() {
    let doc = SrxDocument::parse(&srx("no")).unwrap();
    assert_eq!(kinds(&doc.rules_for("en-US")), vec![(false, r"\bMr\.\s".to_string())]);
}

#[test]
fn srx_errors_carry_the_position() {
    match SrxDocument::parse("<srx><body></srx>") {
        Err(e) => assert!(e.starts_with("XML error at "), "{e}"),
        Ok(_) => panic!("broken srx accepted"),
    }
}

#[test]
fn segments_concatenate_to_the_text() {
    let seg = Segmenter::from_srx(&srx("yes"), "en-US").unwrap();
    let text = "Mr. Smith came. He left! Did he? Yes";
    let parts = seg.segment(text);
    assert_eq!(
        parts,
        vec!["Mr. Smith came. ", "He left! ", "Did he? ", "Yes"]
    );
    assert_eq!(parts.concat(), text);
    assert_eq!(seg.break_offsets(text), vec![16, 25, 33]);
}

#[test]
fn segmenting_empty_and_unbroken_text() {
    let seg = Segmenter::from_srx(&srx("yes"), "en-US").unwrap();
    assert_eq!(seg.segment("no break here"), vec!["no break here"]);
    assert!(seg.break_offsets("").is_empty());
}

#[test]
fn rules_without_assertions_are_left_out() {
    let rules = vec![
        SrxRule { is_break: true, before: String::new(), after: String::new() },
        SrxRule { is_break: true, before: r"[.]\s".to_string(), after: String::new() },
    ];
    let seg = Segmenter::from_rules(&rules);
    assert_eq!(seg.segment("a. b"), vec!["a. ", "b"]);
}

#[test]
fn srx_attributes_are_unescaped_and_text_references_skipped() {
    let xml = r#"<srx version="2.0"><header cascade="no"/><body><languagerules>
<languagerule languagerulename="A&amp;B"><rule break="yes"><beforebreak>x&amp;y</beforebreak><afterbreak></afterbreak></rule></languagerule>
</languagerules><maprules><languagemap languagepattern="en&#46;*" languagerulename="A&amp;B"/></maprules></body></srx>"#;
    let doc = SrxDocument::parse(xml).unwrap();
    let rules = doc.rules_for("en-GB");
    assert_eq!(kinds(&rules), vec![(true, "xy".to_string())]);
    assert!(doc.rules_for("de").is_empty());
}
