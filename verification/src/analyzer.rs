//! Raw analysis of one sentence: word-tokenize, tag each token, drop
//! whitespace tokens (recording `whitespace_before` on the next token),
//! prepend a `SENT_START` position and add a `SENT_END` reading to the last
//! token.

use vstd::prelude::*;
use crate::analyzed::{
    reading_view, reading_views, sentence_view, token_view, AnalyzedToken, AnalyzedTokenReadings,
    ReadingV, TokenV,
};
use crate::regex::opt_view;
use vstd::utf8::encode_utf8;
use crate::tagger::EnglishTagger;
use crate::text::{is_whitespace_char, str_chars, string_chars, uc_whitespace};
use crate::tokenizer::{answers_of, spec_tokenize, EnglishWordTokenizer, WordTagger};

verus! {

impl<'a> WordTagger for &'a EnglishTagger {
    /// The dictionary gives the word at least one reading.
    open spec fn spec_is_tagged(&self, word: Seq<char>) -> bool {
        (**self).spec_tag(word).len() > 0
    }

    fn is_tagged(&self, word: &str) -> (r: bool) {
        EnglishTagger::is_tagged(*self, word)
    }
}

/// Whether the dictionary recognises each word.
pub open spec fn dict_answers(tg: EnglishTagger) -> Map<Seq<char>, bool> {
    Map::new(|w: Seq<char>| true, |w: Seq<char>| tg.spec_tag(w).len() > 0)
}

/// A token made of whitespace only.
pub open spec fn is_ws_token(t: Seq<char>) -> bool {
    t.len() > 0 && forall|i: int| 0 <= i < t.len() ==> uc_whitespace(#[trigger] t[i])
}

/// The readings of a surface token: one per dictionary reading, or a single
/// untagged reading when the dictionary knows none.
pub open spec fn tag_readings(tg: EnglishTagger, surface: Seq<char>) -> Seq<ReadingV> {
    let rs = tg.spec_tag(surface);
    if rs.len() == 0 {
        seq![ReadingV { token: surface, lemma: None, pos: None }]
    } else {
        rs.map_values(|p: (Seq<char>, Seq<char>)| ReadingV { token: surface, lemma: Some(p.0), pos: Some(p.1) })
    }
}

pub open spec fn sent_start_view() -> TokenV {
    TokenV {
        token: Seq::empty(),
        readings: seq![ReadingV { token: Seq::empty(), lemma: None, pos: Some("SENT_START"@) }],
        whitespace_before: false,
        start_pos: 0,
        is_sent_start: true,
        is_sent_end: false,
    }
}

/// `pos + len`, or the largest offset when that does not fit.
pub open spec fn sat_add(pos: int, len: int) -> int {
    if pos + len <= usize::MAX {
        pos + len
    } else {
        usize::MAX as int
    }
}

/// The positions built from the first `i` tokens, the byte offset reached,
/// and whether whitespace was just skipped.
pub open spec fn raw_fold(tg: EnglishTagger, toks: Seq<Seq<char>>, i: int) -> (Seq<TokenV>, int, bool)
    decreases i,
{
    if i <= 0 {
        (seq![sent_start_view()], 0, false)
    } else {
        let (out, pos, ws) = raw_fold(tg, toks, i - 1);
        let t = toks[i - 1];
        if is_ws_token(t) {
            (out, sat_add(pos, encode_utf8(t).len() as int), true)
        } else {
            (
                out.push(
                    TokenV {
                        token: t,
                        readings: tag_readings(tg, t),
                        whitespace_before: ws,
                        start_pos: pos,
                        is_sent_start: false,
                        is_sent_end: false,
                    },
                ),
                sat_add(pos, encode_utf8(t).len() as int),
                false,
            )
        }
    }
}

/// `setSentEnd`: a `SENT_END` reading with the lemma of the last reading; an
/// untagged lone reading is dropped first.
pub open spec fn sent_end_view(t: TokenV) -> TokenV {
    let lemma = if t.readings.len() > 0 {
        t.readings.last().lemma
    } else {
        None
    };
    let kept = if t.readings.len() == 1 && t.readings[0].pos is None {
        Seq::empty()
    } else {
        t.readings
    };
    TokenV {
        readings: kept.push(ReadingV { token: t.token, lemma, pos: Some("SENT_END"@) }),
        is_sent_end: true,
        ..t
    }
}

/// The raw analysis of a tokenized sentence.
pub open spec fn spec_raw(tg: EnglishTagger, toks: Seq<Seq<char>>) -> Seq<TokenV> {
    let out = raw_fold(tg, toks, toks.len() as int).0;
    if !out.last().is_sent_start {
        out.update(out.len() - 1, sent_end_view(out.last()))
    } else {
        out
    }
}

proof fn lemma_raw_fold_nonempty(tg: EnglishTagger, toks: Seq<Seq<char>>, i: int)
    ensures
        raw_fold(tg, toks, i).0.len() >= 1,
        raw_fold(tg, toks, i).0[0] == sent_start_view(),
        0 <= raw_fold(tg, toks, i).1 <= usize::MAX,
    decreases i,
{
    if i > 0 {
        lemma_raw_fold_nonempty(tg, toks, i - 1);
    }
}

/// Analyzes sentences with one tagger.
pub struct Analyzer<'a> {
    tokenizer: EnglishWordTokenizer<&'a EnglishTagger>,
    tagger: &'a EnglishTagger,
}

impl<'a> Analyzer<'a> {
    #[verifier::type_invariant]
    closed spec fn inv(self) -> bool {
        self.tokenizer.word_tagger() == self.tagger
    }

    /// The tagger used.
    pub closed spec fn tagger_spec(self) -> EnglishTagger {
        *self.tagger
    }

    pub fn new(tagger: &'a EnglishTagger) -> (r: Analyzer<'a>)
        ensures
            r.tagger_spec() == *tagger,
    {
        Analyzer { tokenizer: EnglishWordTokenizer::new(tagger), tagger }
    }

    /// The positions built from a token list (before `SENT_END` is added).
    fn fold_tokens(&self, raw_tokens: &Vec<String>) -> (r: Vec<AnalyzedTokenReadings>)
        ensures
            sentence_view(r@) == raw_fold(
                self.tagger_spec(),
                raw_tokens@.map_values(|s: String| s@),
                raw_tokens@.len() as int,
            ).0,
    {
        let ghost toks = raw_tokens@.map_values(|s: String| s@);
        let ghost tg = self.tagger_spec();
        let mut out: Vec<AnalyzedTokenReadings> = Vec::new();
        let st = sent_start_token();
        out.push(st);
        assert(sentence_view(out@) =~= seq![sent_start_view()]);
        let mut pos: usize = 0;
        let mut whitespace_before = false;
        let mut i: usize = 0;
        while i < raw_tokens.len()
            invariant
                i <= raw_tokens@.len(),
                toks == raw_tokens@.map_values(|s: String| s@),
                tg == self.tagger_spec(),
                sentence_view(out@) == raw_fold(tg, toks, i as int).0,
                pos as int == raw_fold(tg, toks, i as int).1,
                whitespace_before == raw_fold(tg, toks, i as int).2,
            decreases raw_tokens.len() - i,
        {
            let tok = &raw_tokens[i];
            assert(toks[i as int] == tok@);
            let tc = string_chars(tok);
            let len = tok.as_str().as_bytes().len();
            let next = pos.saturating_add(len);
            if is_whitespace_token(&tc) {
                whitespace_before = true;
            } else {
                let readings = self.tag(tok.as_str());
                let ghost o0 = sentence_view(out@);
                let w = AnalyzedTokenReadings::word(tok.as_str(), readings, whitespace_before, pos);
                out.push(w);
                assert(sentence_view(out@) =~= o0.push(token_view(w)));
                whitespace_before = false;
            }
            pos = next;
            i += 1;
        }
        out
    }

    /// The raw analysis of one sentence (tagging only, no disambiguation):
    /// the tokens as the dictionary's answers decide them, each with its
    /// readings; start positions are byte offsets.
    pub fn raw(&self, sentence: &str) -> (r: Vec<AnalyzedTokenReadings>)
        ensures
            sentence_view(r@) == spec_raw(
                self.tagger_spec(),
                spec_tokenize(dict_answers(self.tagger_spec()), sentence@),
            ),
    {
        proof {
            use_type_invariant(self);
        }
        let raw_tokens = self.tokenizer.tokenize(sentence);
        let ghost toks = raw_tokens@.map_values(|s: String| s@);
        let ghost answers = dict_answers(self.tagger_spec());
        assert(answers_of(self.tokenizer.word_tagger()) =~= answers);
        let mut out = self.fold_tokens(&raw_tokens);
        proof {
            lemma_raw_fold_nonempty(self.tagger_spec(), toks, toks.len() as int);
        }
        let last = out.len() - 1;
        if !out[last].is_sent_start {
            let ghost o0 = sentence_view(out@);
            let mut t = out.remove(last);
            set_sent_end(&mut t);
            out.push(t);
            assert(sentence_view(out@) =~= o0.update(last as int, sent_end_view(o0[last as int])));
        }
        assert(sentence_view(out@) == spec_raw(self.tagger_spec(), spec_tokenize(answers, sentence@)));
        out
    }

    /// The readings of one surface token.
    pub fn tag(&self, surface: &str) -> (r: Vec<AnalyzedToken>)
        ensures
            reading_views(r@) == tag_readings(self.tagger_spec(), surface@),
    {
        let readings = self.tagger.tag_word(surface);
        let mut out: Vec<AnalyzedToken> = Vec::new();
        if readings.len() == 0 {
            out.push(AnalyzedToken::new(surface, None, None));
            assert(reading_views(out@) =~= tag_readings(self.tagger_spec(), surface@));
            return out;
        }
        let ghost target = tag_readings(self.tagger_spec(), surface@);
        let mut i: usize = 0;
        while i < readings.len()
            invariant
                i <= readings@.len(),
                readings@.map_values(|x: (String, String)| crate::tagger::reading_view(x)) == self.tagger_spec().spec_tag(surface@),
                readings@.len() > 0,
                target == tag_readings(self.tagger_spec(), surface@),
                reading_views(out@) == target.take(i as int),
            decreases readings.len() - i,
        {
            let ghost o0 = reading_views(out@);
            assert(self.tagger_spec().spec_tag(surface@)[i as int] == crate::tagger::reading_view(readings@[i as int]));
            let a = AnalyzedToken::new(surface, Some(readings[i].0.as_str()), Some(readings[i].1.as_str()));
            out.push(a);
            assert(reading_views(out@) =~= o0.push(reading_view(a)));
            assert(target.take(i + 1) =~= target.take(i as int).push(target[i as int]));
            i += 1;
        }
        assert(target.take(i as int) =~= target);
        out
    }
}

/// The sentence-start position.
fn sent_start_token() -> (r: AnalyzedTokenReadings)
    ensures
        token_view(r) == sent_start_view(),
{
    let r = AnalyzedTokenReadings::sent_start();
    assert(reading_views(r.readings@) =~= seq![ReadingV { token: Seq::empty(), lemma: None, pos: Some("SENT_START"@) }]);
    r
}

/// A nonempty token of whitespace only.
pub fn is_whitespace_token(t: &[char]) -> (r: bool)
    ensures
        r == is_ws_token(t@),
{
    if t.len() == 0 {
        return false;
    }
    let mut i: usize = 0;
    while i < t.len()
        invariant
            i <= t@.len(),
            t@.len() > 0,
            forall|k: int| 0 <= k < i ==> uc_whitespace(#[trigger] t@[k]),
        decreases t.len() - i,
    {
        if !is_whitespace_char(t[i]) {
            return false;
        }
        i += 1;
    }
    true
}

/// Marks the last token of a sentence (see [`sent_end_view`]).
pub fn set_sent_end(t: &mut AnalyzedTokenReadings)
    ensures
        token_view(*final(t)) == sent_end_view(token_view(*old(t))),
{
    let n = t.readings.len();
    let lemma = if n > 0 {
        crate::analyzed::copy_opt(&t.readings[n - 1].lemma)
    } else {
        None
    };
    let ghost lv = if n > 0 {
        opt_view(t.readings@[n - 1].lemma)
    } else {
        None
    };
    assert(opt_view(lemma) == lv);
    let ghost r0 = reading_views(t.readings@);
    if n == 1 && t.readings[0].has_no_tag() {
        t.readings = Vec::new();
        assert(reading_views(t.readings@) =~= Seq::<ReadingV>::empty());
    }
    let ghost r1 = reading_views(t.readings@);
    let lemma_ref: Option<&str> = match &lemma {
        Some(l) => Some(l.as_str()),
        None => None,
    };
    let a = AnalyzedToken::new(t.token.as_str(), lemma_ref, Some("SENT_END"));
    t.readings.push(a);
    assert(reading_views(t.readings@) =~= r1.push(reading_view(a)));
    t.is_sent_end = true;
}

} // verus!
