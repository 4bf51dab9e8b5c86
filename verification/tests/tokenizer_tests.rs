use emend_lt::tokenizer::{EnglishWordTokenizer, NullTagger, WordTagger};

/// A stub tagger recognising the contraction parts the real tagger knows.
struct StubTagger;

impl WordTagger for StubTagger {
    fn is_tagged(&self, w: &str) -> bool {
        matches!(
            w.to_lowercase().as_str(),
            "n't" | "o'clock" | "'s" | "'re" | "'ve" | "'ll" | "'d" | "'m"
        )
    }
}

fn toks(text: &str) -> Vec<String> {
    EnglishWordTokenizer::new(StubTagger).tokenize(text)
}

#[test]
fn splits_punctuation_and_spaces() {
    assert_eq!(toks("Hello world."), vec!["Hello", " ", "world", "."]);
}

#[test]
fn contraction_nt_kept_whole() {
    assert_eq!(toks("don't"), vec!["do", "n't"]);
    assert_eq!(toks("I don't know"), vec!["I", " ", "do", "n't", " ", "know"]);
}

#[test]
fn keeps_url_and_email_whole() {
    assert_eq!(toks("Visit www.example.com."), vec!["Visit", " ", "www.example.com", "."]);
    assert_eq!(toks("a b@c.com d"), vec!["a", " ", "b@c.com", " ", "d"]);
}

#[test]
fn trailing_hyphen_is_own_token() {
    assert_eq!(toks("well- being"), vec!["well", "-", " ", "being"]);
}

#[test]
fn null_tagger_splits_unknown_apostrophe_words() {
    let t = EnglishWordTokenizer::new(NullTagger);
    assert_eq!(t.tokenize("o'clock"), vec!["o", "'", "clock"]);
}

#[test]
fn tagged_apostrophe_word_stays_whole() {
    let t = EnglishWordTokenizer::new(StubTagger);
    assert_eq!(t.tokenize("o'clock"), vec!["o'clock"]);
    let n = EnglishWordTokenizer::new(NullTagger);
    assert_eq!(n.tokenize("McGraw-Hill"), vec!["McGraw-Hill"]);
}

#[test]
fn mail_address_inside_a_token_keeps_the_rest() {
    let got = toks("±x@d.com");
    assert_eq!(got, vec!["±", "x@d.com"]);
    assert_eq!(got.concat(), "±x@d.com");
    let got = toks("see ±x@d.com, now");
    assert_eq!(got.concat(), "see ±x@d.com, now");
    assert!(got.iter().all(|t| !t.is_empty()));
}

#[test]
fn email_ending_inside_a_token_leaves_the_rest_to_the_next() {
    let text = "a@b.cc-d@e.ff";
    let got = toks(text);
    assert_eq!(got.concat(), text);
    assert!(got.iter().all(|t| !t.is_empty()));
    assert_eq!(got, vec!["a@b.cc", "-d@e.ff"]);
}

#[test]
fn tokens_spell_the_text() {
    for text in ["Don't stop, it's 5 o'clock!", "Mail x@y.org or visit https://a.b/c.", "  -well-  ", ""] {
        let got = toks(text);
        assert_eq!(got.concat(), text);
        assert!(got.iter().all(|t| !t.is_empty()));
    }
}
