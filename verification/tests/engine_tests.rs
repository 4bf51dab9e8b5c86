use emend_lt::engine::{fsa_error_text, sibling_path, Engine, EngineData, SpellData};
use emend_lt::fsa::FsaError;

/// A dictionary file with a valid header and no words.
fn empty_dict() -> Vec<u8> {
    vec![0x5c, 0x66, 0x73, 0x61, 0xc6, 0, 0, 0]
}

const SRX: &str = r#"<srx version="2.0"><header segmentsubflows="yes" cascade="yes"/><body>
<languagerules><languagerule languagerulename="English">
<rule break="yes"><beforebreak>[.?!]\s</beforebreak><afterbreak>\p{Lu}</afterbreak></rule>
</languagerule></languagerules>
<maprules><languagemap languagepattern="en.*" languagerulename="English"/></maprules>
</body></srx>"#;

const GRAMMAR: &str = r#"<rules lang="en">
<category id="TYPOS" name="Typos">
<rule id="TEH" name="teh">
<pattern><token>teh</token></pattern>
<message>Did you mean <suggestion>the</suggestion>?</message>
</rule>
</category>
<category id="GRAMMAR" name="Grammar">
<rule id="A_APPLE" name="a apple">
<pattern><marker><token>a</token></marker><token>apple</token></pattern>
<message>Use <suggestion>an</suggestion>.</message>
</rule>
</category>
</rules>"#;

fn data(dict: Vec<u8>, grammar: &str, srx: &str) -> EngineData {
    EngineData {
        dict,
        info: String::new(),
        added: String::new(),
        removed: String::new(),
        disambiguation_xml: "<rules></rules>".to_string(),
        grammar_xml: grammar.to_string(),
        srx: srx.to_string(),
        synth: None,
        spell: None,
    }
}

#[test]
fn engine_finds_matches_in_document_order() {
    let engine = Engine::load(&data(empty_dict(), GRAMMAR, SRX)).unwrap();
    let text = "He ate a apple. Then teh cat left.";
    let ms = engine.check(text, |_, _| true);
    assert_eq!(ms.len(), 2);
    assert_eq!(ms[0].rule_id, "A_APPLE");
    assert_eq!(ms[0].offset, 7);
    assert_eq!(ms[0].length, 1);
    assert_eq!(ms[0].replacements, vec!["an".to_string()]);
    assert_eq!(ms[0].category_id, "GRAMMAR");
    assert_eq!(ms[1].rule_id, "TEH");
    assert_eq!(ms[1].offset, 21);
    assert_eq!(ms[1].length, 3);
    assert_eq!(ms[1].replacements, vec!["the".to_string()]);
    for w in ms.windows(2) {
        assert!(w[0].offset <= w[1].offset);
    }
    for m in &ms {
        assert!(m.offset + m.length <= text.chars().count());
    }
}

#[test]
fn engine_skips_disabled_rules_and_categories() {
    let engine = Engine::load(&data(empty_dict(), GRAMMAR, SRX)).unwrap();
    let text = "He ate a apple. Then teh cat left.";
    let ms = engine.check(text, |rule, _| rule != "TEH");
    assert_eq!(ms.len(), 1);
    assert_eq!(ms[0].rule_id, "A_APPLE");
    let ms = engine.check(text, |_, cat| cat != "GRAMMAR");
    assert_eq!(ms.len(), 1);
    assert_eq!(ms[0].rule_id, "TEH");
}

#[test]
fn engine_offsets_count_characters() {
    let engine = Engine::load(&data(empty_dict(), GRAMMAR, SRX)).unwrap();
    let ms = engine.check("Café: teh end.", |_, _| true);
    assert_eq!(ms.len(), 1);
    assert_eq!(ms[0].offset, 6);
    assert_eq!(ms[0].length, 3);
}

#[test]
fn load_reports_a_short_dictionary() {
    match Engine::load(&data(vec![0x5c, 0x66], GRAMMAR, SRX)) {
        Err(e) => assert_eq!(e, "tagger load: Truncated"),
        Ok(_) => panic!("a two-byte dictionary loaded"),
    }
}

#[test]
fn load_reports_bad_magic_and_version() {
    match Engine::load(&data(vec![1, 2, 3, 4, 5, 6, 7, 8], GRAMMAR, SRX)) {
        Err(e) => assert_eq!(e, "tagger load: BadMagic"),
        Ok(_) => panic!("bad magic accepted"),
    }
    match Engine::load(&data(vec![0x5c, 0x66, 0x73, 0x61, 7, 0, 0, 0], GRAMMAR, SRX)) {
        Err(e) => assert_eq!(e, "tagger load: UnsupportedVersion(7)"),
        Ok(_) => panic!("unknown version accepted"),
    }
}

#[test]
fn load_reports_broken_grammar_xml() {
    match Engine::load(&data(empty_dict(), "<rules><rule></rules>", SRX)) {
        Err(e) => assert!(e.starts_with("grammar parse: XML error: "), "{e}"),
        Ok(_) => panic!("broken grammar accepted"),
    }
}

#[test]
fn load_reports_broken_srx() {
    match Engine::load(&data(empty_dict(), GRAMMAR, "<srx><body></srx>")) {
        Err(e) => assert!(e.starts_with("srx parse: XML error at "), "{e}"),
        Ok(_) => panic!("broken srx accepted"),
    }
}

#[test]
fn load_reports_a_bad_spelling_dictionary() {
    let mut d = data(empty_dict(), GRAMMAR, SRX);
    d.spell = Some(SpellData {
        dict: vec![0],
        info: String::new(),
        ignore: Vec::new(),
        multiwords: String::new(),
        prohibit: String::new(),
    });
    match Engine::load(&d) {
        Err(e) => assert_eq!(e, "spell rule load: Truncated"),
        Ok(_) => panic!("bad spelling dictionary accepted"),
    }
}

#[test]
fn error_text_names_the_variant() {
    assert_eq!(fsa_error_text(FsaError::BadMagic), "BadMagic");
    assert_eq!(fsa_error_text(FsaError::Truncated), "Truncated");
    assert_eq!(fsa_error_text(FsaError::UnsupportedVersion(198)), "UnsupportedVersion(198)");
}

#[test]
fn sibling_path_swaps_the_suffix() {
    assert_eq!(sibling_path("/d/english.dict", ".dict", ".info"), Ok("/d/english.info".to_string()));
    assert_eq!(
        sibling_path("/d/english.bin", ".dict", ".info"),
        Err("/d/english.bin does not end in .dict".to_string())
    );
}

use emend_lt::analyzer::Analyzer;
use emend_lt::tagger::EnglishTagger;

#[test]
fn raw_analysis_positions_are_byte_offsets() {
    let tagger = EnglishTagger::load(&empty_dict(), "").unwrap();
    let a = Analyzer::new(&tagger);
    let r = a.raw("café au lait");
    let got: Vec<(String, usize)> = r.iter().skip(1).map(|t| (t.token.clone(), t.start_pos)).collect();
    assert_eq!(got, vec![("café".to_string(), 0), ("au".to_string(), 6), ("lait".to_string(), 9)]);
    assert!(r[r.len() - 1].is_sent_end);
}

#[test]
fn engine_asks_keep_once_per_finding() {
    let engine = Engine::load(&data(empty_dict(), GRAMMAR, SRX)).unwrap();
    let asked = std::cell::RefCell::new(Vec::new());
    let ms = engine.check("Then teh cat left. He ate a apple.", |rule, cat| {
        asked.borrow_mut().push((rule.to_string(), cat.to_string()));
        false
    });
    assert!(ms.is_empty());
    let asked = asked.into_inner();
    assert_eq!(asked.len(), 2);
    assert_eq!(asked[0].0, "TEH");
    assert_eq!(asked[1].0, "A_APPLE");
    assert_eq!(asked[1].1, "GRAMMAR");
}
