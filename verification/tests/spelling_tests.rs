use emend_lt::spelling::{is_candidate, is_url_or_email};

#[test]
fn url_email_detection() {
    assert!(is_url_or_email("http://example.com"));
    assert!(is_url_or_email("www.example.com"));
    assert!(is_url_or_email("hello@world.com"));
    assert!(!is_url_or_email("co-worker"));
    assert!(!is_url_or_email("normal"));
}

#[test]
fn candidate_filter() {
    assert!(is_candidate("hello"));
    assert!(!is_candidate("123"));
    assert!(!is_candidate("..."));
    assert!(!is_candidate("http://x.com"));
}

#[test]
fn hashtags_and_mailto_are_skipped() {
    assert!(is_url_or_email("#tag"));
    assert!(is_url_or_email("$AAPL"));
    assert!(is_url_or_email("MailTo:someone"));
    assert!(is_url_or_email("FTP.example.org"));
}

use emend_lt::spelling::edits1;

fn reference_edits(w: &str) -> Vec<String> {
    let chars: Vec<char> = w.chars().collect();
    let mut alphabet: Vec<char> = ('a'..='z').collect();
    for &c in &chars {
        if !alphabet.contains(&c) {
            alphabet.push(c);
        }
    }
    if chars.first().map(|c| c.is_uppercase()).unwrap_or(false) {
        for c in 'A'..='Z' {
            if !alphabet.contains(&c) {
                alphabet.push(c);
            }
        }
    }
    let mut out = Vec::new();
    for i in 0..chars.len() {
        let mut c = chars.clone();
        c.remove(i);
        out.push(c.into_iter().collect());
    }
    for i in 0..chars.len().saturating_sub(1) {
        let mut c = chars.clone();
        c.swap(i, i + 1);
        out.push(c.into_iter().collect());
    }
    for i in 0..chars.len() {
        for &a in &alphabet {
            if a != chars[i] {
                let mut c = chars.clone();
                c[i] = a;
                out.push(c.into_iter().collect());
            }
        }
    }
    for i in 0..=chars.len() {
        for &a in &alphabet {
            let mut c = chars.clone();
            c.insert(i, a);
            out.push(c.into_iter().collect());
        }
    }
    out
}

#[test]
fn edits_of_a_short_word() {
    let e = edits1("ab");
    assert_eq!(e.len(), 2 + 1 + 2 * 25 + 3 * 26);
    assert_eq!(&e[..3], &["b".to_string(), "a".to_string(), "ba".to_string()]);
    assert_eq!(e[3], "bb");
    assert_eq!(e[e.len() - 1], "abz");
    assert_eq!(e, reference_edits("ab"));
}

#[test]
fn edits_of_a_capitalized_accented_word() {
    assert_eq!(edits1("Éa"), reference_edits("Éa"));
    assert_eq!(edits1(""), reference_edits(""));
    assert_eq!(edits1("x").len(), 1 + 25 + 2 * 26);
}

use emend_lt::analyzed::{AnalyzedToken, AnalyzedTokenReadings};
use emend_lt::speller::Speller;
use emend_lt::spelling::SpellRule;

/// A dictionary file with a valid header and no words.
fn empty_dict() -> Vec<u8> {
    vec![0x5c, 0x66, 0x73, 0x61, 0xc6, 0, 0, 0]
}

fn words(text: &str) -> Vec<AnalyzedTokenReadings> {
    let mut v = vec![AnalyzedTokenReadings::sent_start()];
    let mut pos = 0usize;
    for (i, w) in text.split(' ').enumerate() {
        v.push(AnalyzedTokenReadings::word(w, vec![AnalyzedToken::new(w, None, None)], i > 0, pos));
        pos += w.len() + 1;
    }
    v
}

#[test]
fn accepted_words_pass_and_prohibited_words_are_flagged() {
    let sr = SpellRule::load(&empty_dict(), "", &["known\n# a comment\n"], "", "bad\n").unwrap();
    let text = "known foo bad covid19 KNOWN";
    let ms = sr.check_sentence(&words(text), text, 10);
    let got: Vec<(usize, usize)> = ms.iter().map(|m| (m.offset, m.length)).collect();
    assert_eq!(got, vec![(16, 3), (20, 3)]);
    for m in &ms {
        assert_eq!(m.rule_id, "MORFOLOGIK_RULE_EN_US");
        assert_eq!(m.category_id, "TYPOS");
        assert_eq!(m.message, "Possible spelling mistake found.");
        assert!(m.replacements.is_empty());
    }
    assert!(sr.is_flagged("bad"));
    assert!(sr.is_flagged("foo"));
    assert!(!sr.is_flagged("covid19"));
    assert!(sr.is_ignored("KNOWN"));
    assert!(sr.suggest("foo").is_empty());
}

#[test]
fn words_with_digits_are_never_misspelled() {
    let sp = Speller::load(&empty_dict(), "").unwrap();
    assert!(sp.is_misspelled("word"));
    assert!(!sp.is_misspelled("b2b"));
    assert!(!sp.is_misspelled(""));
}

#[test]
fn the_last_word_of_a_sentence_is_checked_too() {
    let sr = SpellRule::load(&empty_dict(), "", &[], "", "").unwrap();
    let text = "hello world";
    let mut ws = words(text);
    let last = ws.len() - 1;
    ws[last].is_sent_end = true;
    let ms = sr.check_sentence(&ws, text, 0);
    let got: Vec<(usize, usize)> = ms.iter().map(|m| (m.offset, m.length)).collect();
    assert_eq!(got, vec![(0, 5), (6, 5)]);
}

#[test]
fn byte_positions_become_character_offsets() {
    let sr = SpellRule::load(&empty_dict(), "", &["café"], "", "").unwrap();
    let text = "café foo";
    let toks = vec![
        AnalyzedTokenReadings::sent_start(),
        AnalyzedTokenReadings::word("café", vec![AnalyzedToken::new("café", None, None)], false, 0),
        AnalyzedTokenReadings::word("foo", vec![AnalyzedToken::new("foo", None, None)], true, 6),
    ];
    let ms = sr.check_sentence(&toks, text, 3);
    let got: Vec<(usize, usize)> = ms.iter().map(|m| (m.offset, m.length)).collect();
    assert_eq!(got, vec![(3 + 5, 3)]);
}
