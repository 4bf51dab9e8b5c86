//! The analyzed sentence the matchers run over: each token position carries
//! its surface form, one or more readings (lemma and POS tag), whether
//! whitespace preceded it and its byte offset in the sentence. A sentence
//! starts with a synthetic `SENT_START` position.

use vstd::prelude::*;
use crate::regex::opt_view;
use crate::text::{chars_to_string, str_chars};
use crate::segmenter::utf8_width;
use vstd::utf8::encode_scalar;

verus! {

/// One reading of a token: lemma and POS tag (`None` tag: no reading).
#[derive(Debug)]
pub struct AnalyzedToken {
    pub token: String,
    pub lemma: Option<String>,
    pub pos: Option<String>,
}

/// The characters of an optional string slice.
pub open spec fn opt_str_view(s: Option<&str>) -> Option<Seq<char>> {
    match s {
        Some(v) => Some(v@),
        None => None,
    }
}

pub fn opt_string(s: Option<&str>) -> (r: Option<String>)
    ensures
        opt_view(r) == opt_str_view(s),
{
    match s {
        Some(v) => Some(v.to_owned()),
        None => None,
    }
}

/// A copy of an optional string.
pub fn copy_opt(s: &Option<String>) -> (r: Option<String>)
    ensures
        opt_view(r) == opt_view(*s),
{
    match s {
        Some(v) => Some(copy_string(v)),
        None => None,
    }
}

/// A copy of a string.
pub fn copy_string(s: &String) -> (r: String)
    ensures
        r@ == s@,
{
    s.clone()
}

/// A reading as texts.
pub struct ReadingV {
    pub token: Seq<char>,
    pub lemma: Option<Seq<char>>,
    pub pos: Option<Seq<char>>,
}

pub open spec fn reading_view(r: AnalyzedToken) -> ReadingV {
    ReadingV { token: r.token@, lemma: opt_view(r.lemma), pos: opt_view(r.pos) }
}

pub open spec fn reading_views(rs: Seq<AnalyzedToken>) -> Seq<ReadingV> {
    rs.map_values(|r: AnalyzedToken| reading_view(r))
}

/// A token position as texts and numbers.
pub struct TokenV {
    pub token: Seq<char>,
    pub readings: Seq<ReadingV>,
    pub whitespace_before: bool,
    pub start_pos: int,
    pub is_sent_start: bool,
    pub is_sent_end: bool,
}

pub open spec fn token_view(t: AnalyzedTokenReadings) -> TokenV {
    TokenV {
        token: t.token@,
        readings: reading_views(t.readings@),
        whitespace_before: t.whitespace_before,
        start_pos: t.start_pos as int,
        is_sent_start: t.is_sent_start,
        is_sent_end: t.is_sent_end,
    }
}

/// A sentence as texts and numbers.
pub open spec fn sentence_view(s: Seq<AnalyzedTokenReadings>) -> Seq<TokenV> {
    s.map_values(|t: AnalyzedTokenReadings| token_view(t))
}

impl AnalyzedToken {
    pub fn new(token: &str, lemma: Option<&str>, pos: Option<&str>) -> (r: AnalyzedToken)
        ensures
            r.token@ == token@,
            opt_view(r.lemma) == opt_str_view(lemma),
            opt_view(r.pos) == opt_str_view(pos),
    {
        AnalyzedToken { token: token.to_owned(), lemma: opt_string(lemma), pos: opt_string(pos) }
    }

    /// The reading carries no POS tag.
    pub fn has_no_tag(&self) -> (r: bool)
        ensures
            r == (self.pos is None),
    {
        self.pos.is_none()
    }

    /// A copy with the same texts.
    pub fn duplicate(&self) -> (r: AnalyzedToken)
        ensures
            reading_view(r) == reading_view(*self),
    {
        AnalyzedToken {
            token: copy_string(&self.token),
            lemma: copy_opt(&self.lemma),
            pos: copy_opt(&self.pos),
        }
    }
}

/// A token position with all its readings and its whitespace context.
#[derive(Debug)]
pub struct AnalyzedTokenReadings {
    pub token: String,
    pub readings: Vec<AnalyzedToken>,
    pub whitespace_before: bool,
    /// Byte offset of the token in the sentence text.
    pub start_pos: usize,
    pub is_sent_start: bool,
    pub is_sent_end: bool,
}

impl AnalyzedTokenReadings {
    pub fn word(
        token: &str,
        readings: Vec<AnalyzedToken>,
        whitespace_before: bool,
        start_pos: usize,
    ) -> (r: AnalyzedTokenReadings)
        ensures
            r.token@ == token@,
            r.readings == readings,
            r.whitespace_before == whitespace_before,
            r.start_pos == start_pos,
            !r.is_sent_start,
            !r.is_sent_end,
    {
        AnalyzedTokenReadings {
            token: token.to_owned(),
            readings,
            whitespace_before,
            start_pos,
            is_sent_start: false,
            is_sent_end: false,
        }
    }

    /// The synthetic sentence-start position: empty surface, one reading
    /// tagged `SENT_START`.
    pub fn sent_start() -> (r: AnalyzedTokenReadings)
        ensures
            r.token@ == Seq::<char>::empty(),
            r.readings@.len() == 1,
            r.readings@[0].token@ == Seq::<char>::empty(),
            r.readings@[0].lemma is None,
            opt_view(r.readings@[0].pos) == Some("SENT_START"@),
            !r.whitespace_before,
            r.start_pos == 0,
            r.is_sent_start,
            !r.is_sent_end,
    {
        let mut readings: Vec<AnalyzedToken> = Vec::new();
        readings.push(AnalyzedToken::new("", None, Some("SENT_START")));
        proof {
            reveal_strlit("");
        }
        AnalyzedTokenReadings {
            token: String::new(),
            readings,
            whitespace_before: false,
            start_pos: 0,
            is_sent_start: true,
            is_sent_end: false,
        }
    }
}


/// The character index of `t` at which byte offset `b` of its UTF-8 encoding
/// falls, when `b` starts a character or is the end of `t`.
pub open spec fn char_index(t: Seq<char>, b: int) -> Option<int>
    decreases t.len(),
{
    if b == 0 {
        Some(0)
    } else if b < 0 || t.len() == 0 {
        None
    } else {
        match char_index(t.drop_first(), b - encode_scalar(t[0] as u32).len()) {
            Some(k) => Some(k + 1),
            None => None,
        }
    }
}

/// `o` moved `i` places on.
pub open spec fn shifted(o: Option<int>, i: int) -> Option<int> {
    match o {
        Some(k) => Some(k + i),
        None => None,
    }
}

/// A character index lies in the text.
pub proof fn lemma_char_index_bounds(t: Seq<char>, b: int)
    ensures
        char_index(t, b) matches Some(k) ==> 0 <= k <= t.len(),
    decreases t.len(),
{
    if b != 0 && b > 0 && t.len() > 0 {
        lemma_char_index_bounds(t.drop_first(), b - encode_scalar(t[0] as u32).len());
    }
}

/// A later byte offset falls at a later character.
pub proof fn lemma_char_index_mono(t: Seq<char>, b1: int, b2: int)
    requires
        b1 <= b2,
        char_index(t, b1) is Some,
        char_index(t, b2) is Some,
    ensures
        char_index(t, b1)->0 <= char_index(t, b2)->0,
    decreases t.len(),
{
    lemma_char_index_bounds(t, b2);
    if b1 != 0 {
        let w = encode_scalar(t[0] as u32).len() as int;
        lemma_char_index_mono(t.drop_first(), b1 - w, b2 - w);
    }
}

/// [`char_index`] computed.
pub fn char_index_exec(t: &[char], b: usize) -> (r: Option<usize>)
    ensures
        match r {
            Some(k) => char_index(t@, b as int) == Some(k as int),
            None => char_index(t@, b as int) is None,
        },
{
    let mut i: usize = 0;
    let mut off: usize = 0;
    assert(t@.skip(0) =~= t@);
    while off < b && i < t.len()
        invariant
            i <= t@.len(),
            off <= b,
            char_index(t@, b as int) == shifted(char_index(t@.skip(i as int), b - off), i as int),
        decreases t.len() - i,
    {
        let w = utf8_width(t[i]);
        assert(t@.skip(i as int).drop_first() =~= t@.skip(i + 1));
        assert(t@.skip(i as int)[0] == t@[i as int]);
        if w > b - off {
            assert(char_index(t@.skip(i + 1), b - off - w) is None);
            return None;
        }
        off = off + w;
        i += 1;
    }
    if off == b {
        Some(i)
    } else {
        assert(t@.skip(i as int).len() == 0);
        None
    }
}

} // verus!
