use emend_lt::analyzed::{AnalyzedToken, AnalyzedTokenReadings};
use emend_lt::parse::parse_pattern;
use emend_lt::pattern::Pattern;
use emend_lt::token::{PosMatcher, StringMatcher, TokenMatcher};

fn tok(word: &str, readings: &[(&str, &str)]) -> AnalyzedTokenReadings {
    let rs = readings
        .iter()
        .map(|(l, p)| AnalyzedToken::new(word, Some(l), Some(p)))
        .collect();
    AnalyzedTokenReadings::word(word, rs, true, 0)
}

fn sent(words: &[(&str, &str, &str)]) -> Vec<AnalyzedTokenReadings> {
    words
        .iter()
        .enumerate()
        .map(|(i, (w, l, p))| {
            AnalyzedTokenReadings::word(w, vec![AnalyzedToken::new(w, Some(l), Some(p))], i > 0, i)
        })
        .collect()
}

fn lit(s: &str) -> TokenMatcher {
    TokenMatcher {
        string: Some(StringMatcher::literal(s, false)),
        ..Default::default()
    }
}

fn pos(p: &str) -> TokenMatcher {
    TokenMatcher {
        pos: Some(PosMatcher::new(p, true).unwrap()),
        ..Default::default()
    }
}

#[test]
fn literal_case_insensitive_by_default() {
    let mut m = TokenMatcher::default();
    m.string = Some(StringMatcher::literal("the", false));
    assert!(m.matches_position(&tok("The", &[("the", "DT")])));
    m.string = Some(StringMatcher::literal("the", true));
    assert!(!m.matches_position(&tok("The", &[("the", "DT")])));
}

#[test]
fn postag_regex_and_negate() {
    let mut m = TokenMatcher::default();
    m.pos = Some(PosMatcher::new("VB.*", true).unwrap());
    assert!(m.matches_position(&tok("run", &[("run", "VBP")])));
    assert!(!m.matches_position(&tok("cat", &[("cat", "NN")])));
    m.negate_pos = true;
    assert!(m.matches_position(&tok("cat", &[("cat", "NN")])));
}

#[test]
fn inflected_matches_lemma() {
    let mut m = TokenMatcher::default();
    m.inflected = true;
    m.string = Some(StringMatcher::literal("be", false));
    assert!(m.matches_position(&tok("were", &[("be", "VBD")])));
}

#[test]
fn exception_blocks_match() {
    let mut m = TokenMatcher::default();
    m.pos = Some(PosMatcher::new("NN.*", true).unwrap());
    let mut exc = TokenMatcher::default();
    exc.string = Some(StringMatcher::literal("cat", false));
    m.exceptions.push(exc);
    assert!(!m.matches_position(&tok("cat", &[("cat", "NN")])));
    assert!(m.matches_position(&tok("dog", &[("dog", "NN")])));
}

#[test]
fn empty_token_matches_anything() {
    let m = TokenMatcher::default();
    assert!(m.matches_position(&tok("whatever", &[("whatever", "NN")])));
}

#[test]
fn consecutive_match() {
    let s = sent(&[("the", "the", "DT"), ("big", "big", "JJ"), ("cat", "cat", "NN")]);
    let p = Pattern::new(vec![lit("the"), pos("JJ"), pos("NN")]);
    let m = p.match_at(&s, 0).unwrap();
    assert_eq!((m.from_token, m.to_token), (0, 3));
}

#[test]
fn no_match_returns_none() {
    let s = sent(&[("the", "the", "DT"), ("cat", "cat", "NN")]);
    let p = Pattern::new(vec![lit("the"), pos("JJ")]);
    assert!(p.match_at(&s, 0).is_none());
}

#[test]
fn skip_allows_gap() {
    let s = sent(&[
        ("the", "the", "DT"),
        ("big", "big", "JJ"),
        ("old", "old", "JJ"),
        ("cat", "cat", "NN"),
    ]);
    let mut the = lit("the");
    the.skip = 2;
    let p = Pattern::new(vec![the, pos("NN")]);
    let m = p.match_at(&s, 0).unwrap();
    assert_eq!(m.to_token, 4);
}

#[test]
fn optional_token_min0() {
    let s = sent(&[("the", "the", "DT"), ("cat", "cat", "NN")]);
    let mut adj = pos("JJ");
    adj.min = 0;
    let p = Pattern::new(vec![lit("the"), adj, pos("NN")]);
    let m = p.match_at(&s, 0).unwrap();
    assert_eq!(m.to_token, 2);
}

#[test]
fn max_repetition() {
    let s = sent(&[
        ("very", "very", "RB"),
        ("very", "very", "RB"),
        ("big", "big", "JJ"),
    ]);
    let mut rb = pos("RB");
    rb.max = -1;
    let p = Pattern::new(vec![rb, pos("JJ")]);
    let m = p.match_at(&s, 0).unwrap();
    assert_eq!(m.to_token, 3);
}

#[test]
fn marker_span_tracks_actual_tokens() {
    let s = sent(&[("the", "the", "DT"), ("big", "big", "JJ"), ("cat", "cat", "NN")]);
    let mut p = Pattern::new(vec![lit("the"), pos("JJ"), pos("NN")]);
    p.mark_from = 1;
    p.mark_to = 2;
    let m = p.match_at(&s, 0).unwrap();
    assert_eq!((m.marker_from_token, m.marker_to_token), (1, 2));
}

#[test]
fn parses_and_matches_a_realistic_pattern() {
    let xml = r#"
      <pattern>
        <marker><token regexp="yes">a|an</token></marker>
        <token postag="JJ" min="0"/>
        <token postag="NN"/>
      </pattern>"#;
    let parsed = parse_pattern(xml, false).unwrap();
    assert!(parsed.unsupported.is_empty());
    let p = &parsed.pattern;

    let s = sent(&[("a", "a", "DT"), ("big", "big", "JJ"), ("cat", "cat", "NN")]);
    let m = p.match_at(&s, 0).unwrap();
    assert_eq!((m.from_token, m.to_token), (0, 3));
    assert_eq!((m.marker_from_token, m.marker_to_token), (0, 1));

    let s2 = sent(&[("an", "an", "DT"), ("apple", "apple", "NN")]);
    assert!(p.match_at(&s2, 0).is_some());

    let s3 = sent(&[("a", "a", "DT"), ("big", "big", "JJ")]);
    assert!(p.match_at(&s3, 0).is_none());
}

#[test]
fn exception_in_pattern_parses() {
    let xml = r#"
      <pattern>
        <token postag="NN.*" postag_regexp="yes"><exception>cat</exception></token>
      </pattern>"#;
    let parsed = parse_pattern(xml, false).unwrap();
    let p = &parsed.pattern;
    assert!(p.match_at(&sent(&[("dog", "dog", "NN")]), 0).is_some());
    assert!(p.match_at(&sent(&[("cat", "cat", "NN")]), 0).is_none());
}

#[test]
fn flags_unsupported_chunk() {
    let xml = r#"<pattern><token chunk="B-NP"/></pattern>"#;
    let parsed = parse_pattern(xml, false).unwrap();
    assert!(parsed.unsupported.contains(&"chunk".to_string()));
}

#[test]
fn and_group_matches_one_position_with_all_members() {
    let xml = r#"<pattern><token>the</token><and>
        <token postag="NN"/><token regexp="yes">c.t</token>
      </and></pattern>"#;
    let parsed = parse_pattern(xml, false).unwrap();
    assert!(parsed.unsupported.is_empty());
    let p = &parsed.pattern;
    assert_eq!(p.tokens.len(), 2);
    assert_eq!(p.tokens[1].and_group.len(), 1);
    let m = p.match_at(&sent(&[("the", "the", "DT"), ("cat", "cat", "NN")]), 0).unwrap();
    assert_eq!((m.from_token, m.to_token), (0, 2));
    assert!(p.match_at(&sent(&[("the", "the", "DT"), ("dog", "dog", "NN")]), 0).is_none());
    assert!(p.match_at(&sent(&[("the", "the", "DT"), ("cut", "cut", "VB")]), 0).is_none());
}

#[test]
fn next_scope_exception_looks_at_the_following_token() {
    let xml = r#"<pattern><token>one<exception scope="next">more</exception></token></pattern>"#;
    let parsed = parse_pattern(xml, false).unwrap();
    assert!(parsed.unsupported.is_empty());
    let p = &parsed.pattern;
    assert_eq!(p.tokens[0].next_exceptions.len(), 1);
    assert!(p.tokens[0].exceptions.is_empty());
    let blocked = sent(&[("one", "one", "CD"), ("more", "more", "JJR")]);
    assert!(p.match_at(&blocked, 0).is_none());
    let free = sent(&[("one", "one", "CD"), ("thing", "thing", "NN")]);
    assert!(p.match_at(&free, 0).is_some());
    let last = sent(&[("one", "one", "CD")]);
    assert!(p.match_at(&last, 0).is_some());
}

#[test]
fn current_scope_is_the_plain_exception() {
    let xml = r#"<pattern><token postag="NN"><exception scope="current">cat</exception></token></pattern>"#;
    let parsed = parse_pattern(xml, false).unwrap();
    assert!(parsed.unsupported.is_empty());
    assert_eq!(parsed.pattern.tokens[0].exceptions.len(), 1);
    assert!(parsed.pattern.match_at(&sent(&[("cat", "cat", "NN")]), 0).is_none());
}

#[test]
fn flags_unknown_scope_and_or_groups() {
    let parsed = parse_pattern(r#"<pattern><token>a<exception scope="far">b</exception></token></pattern>"#, false).unwrap();
    assert!(parsed.unsupported.contains(&"exception-scope".to_string()));
    let parsed = parse_pattern(r#"<pattern><or><token>a</token><token>b</token></or></pattern>"#, false).unwrap();
    assert!(parsed.unsupported.contains(&"and/or".to_string()));
}

#[test]
fn unterminated_pattern_reports_the_xml_error() {
    match parse_pattern("<pattern><token>a</pattern>", false) {
        Err(e) => assert!(e.starts_with("XML error: "), "{e}"),
        Ok(_) => panic!("broken pattern accepted"),
    }
}

use emend_lt::parse::extract_blocks;

#[test]
fn blocks_are_cut_from_open_to_close_tag() {
    let xml = "<rule><pattern><token>a</token></pattern> x <pattern case_sensitive=\"yes\">b</pattern><pattern>open";
    assert_eq!(
        extract_blocks(xml, "pattern"),
        vec![
            "<pattern><token>a</token></pattern>".to_string(),
            "<pattern case_sensitive=\"yes\">b</pattern>".to_string(),
        ]
    );
    assert!(extract_blocks("no tags here", "pattern").is_empty());
    assert_eq!(extract_blocks("<a></a><a/>x</a>", "a"), vec!["<a></a>".to_string(), "<a/>x</a>".to_string()]);
}
