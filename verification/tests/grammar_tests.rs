use emend_lt::analyzed::{AnalyzedToken, AnalyzedTokenReadings};
use emend_lt::grammar::{check_sentence, parse_grammar_rules};

fn sent_from(text: &str, words: &[(&str, &str, &str)]) -> Vec<AnalyzedTokenReadings> {
    let mut v = vec![AnalyzedTokenReadings::sent_start()];
    let mut cursor = 0usize;
    for (i, (w, l, p)) in words.iter().enumerate() {
        let byte = text[cursor..].find(w).map(|o| cursor + o).unwrap_or(cursor);
        cursor = byte + w.len();
        v.push(AnalyzedTokenReadings::word(
            w,
            vec![AnalyzedToken::new(w, Some(l), Some(p))],
            i > 0,
            byte,
        ));
    }
    v
}

#[test]
fn modal_of_backref_suggestions() {
    let doc = r#"<rules><category id="TYPOS"><rulegroup id="MODAL_OF">
      <rule><pattern>
        <marker><token regexp="yes">would|could</token><token>of</token></marker>
        <token postag="VBN"/>
      </pattern>
      <message>Use <suggestion>\1 have</suggestion> or <suggestion>\1've</suggestion>.</message>
      </rule></rulegroup></category></rules>"#;
    let rules = parse_grammar_rules(doc).unwrap();
    assert_eq!(rules.len(), 1);
    let text = "I would of gone.";
    let toks = sent_from(text, &[
        ("I", "I", "PRP"),
        ("would", "would", "MD"),
        ("of", "of", "IN"),
        ("gone", "go", "VBN"),
    ]);
    let ms = check_sentence(&rules, &toks, text, 0);
    assert_eq!(ms.len(), 1);
    let m = &ms[0];
    assert_eq!(m.rule_id, "MODAL_OF");
    assert_eq!(m.category_id, "TYPOS");
    assert_eq!((m.offset, m.length), (2, 8));
    assert_eq!(m.replacements, vec!["would have".to_string(), "would've".to_string()]);
}

#[test]
fn postag_match_needs_synth() {
    let doc = r#"<rules><rule><pattern><token>x</token></pattern>
      <message>See <suggestion><match no="1" postag="VBZ"/></suggestion>.</message></rule></rules>"#;
    let rules = parse_grammar_rules(doc).unwrap();
    assert!(rules[0].unsupported.contains(&"match-synth".to_string()));
}

#[test]
fn plain_match_is_supported_and_copies_token() {
    let doc = r#"<rules><category id="X"><rule id="R"><pattern>
        <marker><token regexp="yes">teh</token></marker></pattern>
      <message>Did you mean <suggestion><match no="1"/></suggestion>?</message>
      </rule></category></rules>"#;
    let rules = parse_grammar_rules(doc).unwrap();
    assert!(rules[0].unsupported.is_empty());
    let text = "teh cat";
    let toks = sent_from(text, &[("teh", "teh", "NN"), ("cat", "cat", "NN")]);
    let ms = check_sentence(&rules, &toks, text, 0);
    assert_eq!(ms[0].replacements, vec!["teh".to_string()]);
}

#[test]
fn empty_optional_backref_and_space_collapse() {
    let doc = r#"<rules><category id="X"><rule id="R"><pattern>
        <marker><token>in</token><token min="0">quite</token><token>while</token></marker>
        <token>.</token></pattern>
      <message>Did you mean <suggestion>\1 \2 a \3</suggestion>?</message>
      </rule></category></rules>"#;
    let rules = parse_grammar_rules(doc).unwrap();
    let text = "in while .";
    let toks = sent_from(text, &[("in", "in", "IN"), ("while", "while", "NN"), (".", ".", "PCT")]);
    let ms = check_sentence(&rules, &toks, text, 0);
    assert_eq!(ms[0].replacements, vec!["in a while".to_string()]);
}

#[test]
fn out_of_range_no_clamps_to_last() {
    let doc = r#"<rules><category id="X"><rule id="R"><pattern>
        <marker><token case_sensitive="yes">dutch</token></marker></pattern>
      <message><suggestion><match no="2" case_conversion="startupper"/></suggestion></message>
      </rule></category></rules>"#;
    let rules = parse_grammar_rules(doc).unwrap();
    let text = "dutch people";
    let toks = sent_from(text, &[("dutch", "dutch", "JJ"), ("people", "people", "NNS")]);
    let ms = check_sentence(&rules, &toks, text, 0);
    assert_eq!(ms[0].replacements, vec!["Dutch".to_string()]);
}

#[test]
fn match_case_conversion_and_regex() {
    let doc = r#"<rules><category id="X"><rulegroup id="R">
      <rule><pattern>
        <marker><token regexp="yes">iphone</token></marker></pattern>
      <message><suggestion><match no="1" case_conversion="startupper"/></suggestion></message>
      </rule>
      <rule><pattern>
        <marker><token regexp="yes">colour</token></marker></pattern>
      <message><suggestion><match no="1" regexp_match="(?i)our$" regexp_replace="or"/></suggestion></message>
      </rule></rulegroup></category></rules>"#;
    let rules = parse_grammar_rules(doc).unwrap();
    let text = "iphone colour";
    let toks = sent_from(text, &[("iphone", "iphone", "NN"), ("colour", "colour", "NN")]);
    let ms = check_sentence(&rules, &toks, text, 0);
    let repls: Vec<_> = ms.iter().flat_map(|m| m.replacements.clone()).collect();
    assert!(repls.contains(&"Iphone".to_string()), "{repls:?}");
    assert!(repls.contains(&"color".to_string()), "{repls:?}");
}

use emend_lt::grammar::{filter_overlaps, sort_findings, GrammarMatch};

fn finding(offset: usize, length: usize, id: &str) -> GrammarMatch {
    GrammarMatch {
        offset,
        length,
        message: String::new(),
        replacements: Vec::new(),
        rule_id: id.to_string(),
        category_id: "C".to_string(),
    }
}

fn spans(v: &[GrammarMatch]) -> Vec<(usize, usize, String)> {
    v.iter().map(|m| (m.offset, m.length, m.rule_id.clone())).collect()
}

#[test]
fn findings_sort_by_offset_then_longer_first() {
    let v = vec![
        finding(5, 1, "A"),
        finding(0, 2, "B"),
        finding(5, 4, "C"),
        finding(0, 2, "D"),
        finding(3, 1, "E"),
    ];
    assert_eq!(
        spans(&sort_findings(v)),
        vec![
            (0, 2, "B".to_string()),
            (0, 2, "D".to_string()),
            (3, 1, "E".to_string()),
            (5, 4, "C".to_string()),
            (5, 1, "A".to_string()),
        ]
    );
}

#[test]
fn nested_findings_are_dropped() {
    let v = vec![
        finding(4, 2, "INNER"),
        finding(0, 10, "OUTER"),
        finding(0, 10, "SAME"),
        finding(8, 5, "CROSSING"),
        finding(20, 1, "AWAY"),
    ];
    assert_eq!(
        spans(&filter_overlaps(v)),
        vec![
            (0, 10, "OUTER".to_string()),
            (0, 10, "SAME".to_string()),
            (8, 5, "CROSSING".to_string()),
            (20, 1, "AWAY".to_string()),
        ]
    );
    assert!(filter_overlaps(Vec::new()).is_empty());
}
