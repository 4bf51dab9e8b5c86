use emend_lt::analyzed::{AnalyzedToken, AnalyzedTokenReadings};
use emend_lt::disambig::{apply_all, parse_disambig_rules};

fn sent(words: &[(&str, &[(&str, &str)])]) -> Vec<AnalyzedTokenReadings> {
    let mut v = vec![AnalyzedTokenReadings::sent_start()];
    for (i, (w, rs)) in words.iter().enumerate() {
        let readings = if rs.is_empty() {
            vec![AnalyzedToken::new(w, None, None)]
        } else {
            rs.iter()
                .map(|(l, p)| AnalyzedToken::new(w, Some(l), Some(p)))
                .collect()
        };
        v.push(AnalyzedTokenReadings::word(w, readings, i > 0, i));
    }
    v
}

fn run(rule_xml: &str, s: &mut Vec<AnalyzedTokenReadings>) {
    let doc = format!("<rules>{rule_xml}</rules>");
    let rules = parse_disambig_rules(&doc).unwrap();
    apply_all(&rules, s);
}

fn readings(tok: &AnalyzedTokenReadings) -> Vec<String> {
    tok.readings
        .iter()
        .map(|r| {
            format!(
                "{}/{}",
                r.lemma.as_deref().unwrap_or("_"),
                r.pos.as_deref().unwrap_or("_")
            )
        })
        .collect()
}

#[test]
fn replace_wd_hard_sets_reading() {
    let mut s = sent(&[("ca", &[]), ("n't", &[("not", "RB")])]);
    s[2].whitespace_before = false;
    run(
        r#"<rule><pattern><marker><token>ca</token></marker>
           <token spacebefore="no">n't</token></pattern>
           <disambig action="replace"><wd lemma="can" pos="MD"/></disambig></rule>"#,
        &mut s,
    );
    assert_eq!(readings(&s[1]), vec!["can/MD"]);
}

#[test]
fn bare_postag_replace_filters_to_matching_last_lemma() {
    let mut s = sent(&[
        (
            "best",
            &[
                ("best", "NN:U"),
                ("good", "JJS"),
                ("well", "JJS"),
                ("well", "RBS"),
            ],
        ),
        ("of", &[("of", "IN")]),
    ]);
    run(
        r#"<rule><pattern><token>best</token><token postag="IN"/></pattern>
           <disambig postag="JJS"/></rule>"#,
        &mut s,
    );
    assert_eq!(readings(&s[1]), vec!["well/JJS"]);
    assert_eq!(readings(&s[2]), vec!["of/IN"]);
}

#[test]
fn bare_postag_replace_untagged_synthesizes_null_lemma() {
    let mut s = sent(&[("10", &[])]);
    run(
        r#"<rule><pattern><token regexp="yes">\d+</token></pattern>
           <disambig postag="CD"/></rule>"#,
        &mut s,
    );
    assert_eq!(readings(&s[1]), vec!["_/CD"]);
}

#[test]
fn add_appends_reading() {
    let mut s = sent(&[(".", &[(".", ".")])]);
    run(
        r#"<rule><pattern><token regexp="yes">[.]</token></pattern>
           <disambig action="add"><wd pos="PCT"/></disambig></rule>"#,
        &mut s,
    );
    assert_eq!(readings(&s[1]), vec!["./.", "./PCT"]);
}

#[test]
fn remove_postag_and_keeps_nonempty() {
    let mut s = sent(&[("a", &[("a", "DT")])]);
    run(
        r#"<rule><pattern><token>a</token></pattern>
           <disambig action="remove" postag="DT"/></rule>"#,
        &mut s,
    );
    assert_eq!(readings(&s[1]), vec!["_/_"]);
}

#[test]
fn filter_postag_keeps_matching() {
    let mut s = sent(&[
        (
            "Let",
            &[("let", "NN"), ("let", "VB"), ("let", "VBP")],
        ),
        ("go", &[("go", "VB")]),
    ]);
    run(
        r#"<rule><pattern><marker><token>let</token></marker><token postag="VB"/></pattern>
           <disambig action="filter" postag="VB.*"/></rule>"#,
        &mut s,
    );
    assert_eq!(readings(&s[1]), vec!["let/VB", "let/VBP"]);
}

#[test]
fn filterall_keeps_pattern_token_pos() {
    let mut s = sent(&[(
        "six",
        &[("six", "CD"), ("six", "JJ"), ("six", "NN")],
    )]);
    run(
        r#"<rule><pattern><marker><token postag="CD"/></marker></pattern>
           <disambig action="filterall"/></rule>"#,
        &mut s,
    );
    assert_eq!(readings(&s[1]), vec!["six/CD"]);
}

#[test]
fn antipattern_suppresses_match() {
    let rule = r#"<rule>
        <antipattern><token regexp="yes">I|you|we|they</token><token>have</token></antipattern>
        <pattern><marker><token>have</token></marker></pattern>
        <disambig action="replace"><wd lemma="have" pos="VB"/></disambig></rule>"#;
    let mut s = sent(&[("I", &[("I", "PRP")]), ("have", &[("have", "VBP")])]);
    run(rule, &mut s);
    assert_eq!(readings(&s[2]), vec!["have/VBP"]);
    let mut s2 = sent(&[("to", &[("to", "TO")]), ("have", &[("have", "VBP")])]);
    run(rule, &mut s2);
    assert_eq!(readings(&s2[2]), vec!["have/VB"]);
}

#[test]
fn scope_previous_exception_blocks_on_neighbour() {
    let rule = r#"<rule><pattern><marker>
        <token>one<exception scope="previous">no</exception></token>
        </marker></pattern>
        <disambig action="replace"><wd lemma="one" pos="CD"/></disambig></rule>"#;
    let mut s = sent(&[("no", &[("no", "DT")]), ("one", &[("one", "PRP")])]);
    run(rule, &mut s);
    assert_eq!(readings(&s[2]), vec!["one/PRP"]);
    let mut s2 = sent(&[("just", &[("just", "RB")]), ("one", &[("one", "PRP")])]);
    run(rule, &mut s2);
    assert_eq!(readings(&s2[2]), vec!["one/CD"]);
}

#[test]
fn and_group_requires_all_children() {
    let rule = r#"<rule><pattern><and>
        <token inflected="yes">install</token>
        <token inflected="yes">instal</token>
        </and></pattern>
        <disambig action="remove"><wd lemma="instal"/></disambig></rule>"#;
    let mut s = sent(&[(
        "installs",
        &[("install", "VBZ"), ("instal", "VBZ")],
    )]);
    run(rule, &mut s);
    assert_eq!(readings(&s[1]), vec!["install/VBZ"]);
    let mut s2 = sent(&[("installs", &[("install", "VBZ")])]);
    run(rule, &mut s2);
    assert_eq!(readings(&s2[1]), vec!["install/VBZ"]);
}

#[test]
fn removing_every_reading_leaves_an_untagged_one() {
    let rule = r#"<rule><pattern><marker><token>saw</token></marker></pattern>
        <disambig action="remove"><wd lemma="see"/></disambig></rule>"#;
    let mut s = sent(&[("I", &[("I", "PRP")]), ("saw", &[("see", "VBD")])]);
    let before = s.len();
    run(rule, &mut s);
    assert_eq!(s.len(), before);
    assert_eq!(s[2].token, "saw");
    assert_eq!(s[2].readings.len(), 1);
    assert!(s[2].readings[0].pos.is_none() && s[2].readings[0].lemma.is_none());
}

#[test]
fn rules_apply_in_document_order() {
    let doc = r#"<rules>
      <rule><pattern><marker><token>saw</token></marker></pattern>
        <disambig action="replace"><wd lemma="saw" pos="NN"/></disambig></rule>
      <rule><pattern><marker><token postag="NN">saw</token></marker></pattern>
        <disambig action="replace"><wd lemma="saw" pos="NNS"/></disambig></rule>
    </rules>"#;
    let rules = parse_disambig_rules(doc).unwrap();
    let mut s = sent(&[("saw", &[("see", "VBD")])]);
    apply_all(&rules, &mut s);
    assert_eq!(readings(&s[1]), vec!["saw/NNS"]);
}
