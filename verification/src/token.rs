//! A single `<token>` of a rule pattern.
//!
//! A token matches one reading when the space-before gate holds and
//! `(string test XOR negate) AND (POS test XOR negate_pos)` (without a string
//! test: `!negate AND (POS test XOR negate_pos)`). It matches a token position
//! when some reading matches and no reading matches one of its exceptions.
//! Exceptions scoped to the previous or next token are tested on that
//! neighbour, and the members of an `<and>` group must all match the same
//! position.

use vstd::prelude::*;
use crate::analyzed::{
    reading_view, sentence_view, token_view, AnalyzedToken, AnalyzedTokenReadings, ReadingV, TokenV,
};
use crate::dict::{chars_eq_ignore_ascii_case, eq_ignore_ascii_case};
use crate::regex::{compile, compile_chars, regex_compiles, regex_is_match, CompiledRegex};
use crate::text::{chars_eq, lit, lower_str, str_chars, string_chars, to_lowercase_chars};

verus! {

/// String test on a token's surface form (or its lemma, when inflected).
pub enum StringMatcher {
    Literal { text: String, case_sensitive: bool },
    Regex(CompiledRegex),
}

/// The full-match form of a token regex: case-insensitive unless
/// `case_sensitive`, `.` matching newlines, anchored at both ends.
pub open spec fn full_regex(pattern: Seq<char>, case_sensitive: bool) -> Seq<char> {
    (if case_sensitive {
        Seq::empty()
    } else {
        "(?i)"@
    }) + "(?s)^(?:"@ + pattern + ")$"@
}

/// The full-match form of a POS regex.
pub open spec fn full_pos_regex(pattern: Seq<char>) -> Seq<char> {
    "(?s)^(?:"@ + pattern + ")$"@
}

/// Whether the string test accepts `s`.
pub open spec fn sm_matches(sm: StringMatcher, s: Seq<char>) -> bool {
    match sm {
        StringMatcher::Literal { text, case_sensitive } => if case_sensitive {
            text@ == s
        } else {
            eq_ignore_ascii_case(text@, s) || lower_str(text@) == lower_str(s)
        },
        StringMatcher::Regex(re) => regex_is_match(re.src(), s) == Some(true),
    }
}

fn wrap_regex(pattern: &[char], prefix: &str) -> (r: Vec<char>)
    ensures
        r@ == prefix@ + "(?s)^(?:"@ + pattern@ + ")$"@,
{
    let mut v = lit(prefix);
    crate::text::append_chars(&mut v, &lit("(?s)^(?:"));
    crate::text::append_chars(&mut v, pattern);
    crate::text::append_chars(&mut v, &lit(")$"));
    v
}

impl StringMatcher {
    pub fn literal(text: &str, case_sensitive: bool) -> (r: StringMatcher)
        ensures
            (r matches StringMatcher::Literal { text: t, case_sensitive: c } && t@ == text@ && c
                == case_sensitive),
    {
        StringMatcher::Literal { text: text.to_owned(), case_sensitive }
    }

    /// A full-match regex; `Err` (with the expression) when it does not compile.
    pub fn regex(pattern: &str, case_sensitive: bool) -> (r: Result<StringMatcher, String>)
        ensures
            match r {
                Ok(m) => m matches StringMatcher::Regex(re) && re.src() == full_regex(
                    pattern@,
                    case_sensitive,
                ) && regex_compiles(full_regex(pattern@, case_sensitive)),
                Err(_) => !regex_compiles(full_regex(pattern@, case_sensitive)),
            },
    {
        let full = wrap_regex(
            &str_chars(pattern),
            if case_sensitive {
                ""
            } else {
                "(?i)"
            },
        );
        proof {
            reveal_strlit("");
        }
        match compile_chars(&full) {
            Some(re) => Ok(StringMatcher::Regex(re)),
            None => Err(crate::text::chars_to_string(&full)),
        }
    }

    pub fn matches_chars(&self, s: &[char]) -> (r: bool)
        ensures
            r == sm_matches(*self, s@),
    {
        match self {
            StringMatcher::Literal { text, case_sensitive } => {
                let t = string_chars(text);
                if *case_sensitive {
                    chars_eq(&t, s)
                } else {
                    chars_eq_ignore_ascii_case(&t, s) || chars_eq(
                        &to_lowercase_chars(&t),
                        &to_lowercase_chars(s),
                    )
                }
            },
            StringMatcher::Regex(re) => {
                let st = crate::text::chars_to_string(s);
                match re.is_match(st.as_str()) {
                    Some(b) => b,
                    None => false,
                }
            },
        }
    }

    /// Whether the string test accepts `s`.
    pub fn matches(&self, s: &str) -> (r: bool)
        ensures
            r == sm_matches(*self, s@),
    {
        self.matches_chars(&str_chars(s))
    }
}

/// POS test on a reading's tag.
pub enum PosMatcher {
    Exact(String),
    Regex(CompiledRegex),
    /// The special `UNKNOWN` tag: a reading without a tag.
    Unknown,
}

/// Whether the POS test accepts reading `r`.
pub open spec fn pm_matches(pm: PosMatcher, r: ReadingV) -> bool {
    match pm {
        PosMatcher::Unknown => r.pos is None,
        PosMatcher::Exact(p) => r.pos matches Some(tp) && tp == p@,
        PosMatcher::Regex(re) => r.pos matches Some(tp) && regex_is_match(re.src(), tp) == Some(
            true,
        ),
    }
}

impl PosMatcher {
    /// `UNKNOWN` is the untagged test; otherwise an exact tag or, when
    /// `is_regex`, a full-match regex (`Err` when it does not compile).
    pub fn new(postag: &str, is_regex: bool) -> (r: Result<PosMatcher, String>)
        ensures
            postag@ == "UNKNOWN"@ ==> r matches Ok(PosMatcher::Unknown),
            postag@ != "UNKNOWN"@ && !is_regex ==> (r matches Ok(PosMatcher::Exact(p)) && p@
                == postag@),
            postag@ != "UNKNOWN"@ && is_regex ==> match r {
                Ok(m) => m matches PosMatcher::Regex(re) && re.src() == full_pos_regex(postag@)
                    && regex_compiles(full_pos_regex(postag@)),
                Err(_) => !regex_compiles(full_pos_regex(postag@)),
            },
    {
        let pc = str_chars(postag);
        if chars_eq(&pc, &lit("UNKNOWN")) {
            return Ok(PosMatcher::Unknown);
        }
        if is_regex {
            let full = wrap_regex(&pc, "");
            proof {
                reveal_strlit("");
            }
            match compile_chars(&full) {
                Some(re) => Ok(PosMatcher::Regex(re)),
                None => Err(crate::text::chars_to_string(&full)),
            }
        } else {
            Ok(PosMatcher::Exact(postag.to_owned()))
        }
    }

    /// Whether the POS test accepts `token`.
    pub fn matches_reading(&self, token: &AnalyzedToken) -> (r: bool)
        ensures
            r == pm_matches(*self, reading_view(*token)),
    {
        match self {
            PosMatcher::Unknown => token.has_no_tag(),
            PosMatcher::Exact(p) => match &token.pos {
                None => false,
                Some(tp) => chars_eq(&string_chars(p), &string_chars(tp)),
            },
            PosMatcher::Regex(re) => match &token.pos {
                None => false,
                Some(tp) => match re.is_match(tp.as_str()) {
                    Some(b) => b,
                    None => false,
                },
            },
        }
    }
}

pub struct TokenMatcher {
    pub string: Option<StringMatcher>,
    pub inflected: bool,
    pub negate: bool,
    pub pos: Option<PosMatcher>,
    pub negate_pos: bool,
    /// `Some(true)` requires whitespace before; `Some(false)` requires none.
    pub spacebefore: Option<bool>,
    pub exceptions: Vec<TokenMatcher>,
    /// Exceptions tested on the previous position (`scope="previous"`).
    pub prev_exceptions: Vec<TokenMatcher>,
    /// Exceptions tested on the next position (`scope="next"`).
    pub next_exceptions: Vec<TokenMatcher>,
    /// The other members of an `<and>` group headed by this token.
    pub and_group: Vec<TokenMatcher>,
    /// Repetition bounds and gap after the token (`max < 0`: unlimited,
    /// `skip < 0`: up to the end of the sentence).
    pub min: i32,
    pub max: i32,
    pub skip: i32,
}

/// The text a token tests: the lemma when inflected (the surface when the
/// reading has none), else the surface.
pub open spec fn test_text(tm: TokenMatcher, r: ReadingV) -> Seq<char> {
    if tm.inflected {
        match r.lemma {
            Some(l) => l,
            None => r.token,
        }
    } else {
        r.token
    }
}

/// `PatternToken.isMatched` for one reading.
pub open spec fn tm_is_matched(tm: TokenMatcher, r: ReadingV, ws: bool) -> bool {
    let space_ok = match tm.spacebefore {
        Some(want) => ws == want,
        None => true,
    };
    let pos_ok = (match tm.pos {
        None => true,
        Some(p) => pm_matches(p, r),
    }) != tm.negate_pos;
    space_ok && match tm.string {
        Some(sm) => (sm_matches(sm, test_text(tm, r)) != tm.negate) && pos_ok,
        None => !tm.negate && pos_ok,
    }
}

/// Some exception of `tm` matches reading `r`.
pub open spec fn tm_exception_matched(tm: TokenMatcher, r: ReadingV, ws: bool) -> bool {
    exists|i: int| 0 <= i < tm.exceptions@.len() && tm_is_matched(#[trigger] tm.exceptions@[i], r, ws)
}

/// The token keeps reading `r`: it matches and no exception blocks it.
pub open spec fn tm_keeps_reading(tm: TokenMatcher, r: ReadingV, ws: bool) -> bool {
    tm_is_matched(tm, r, ws) && !tm_exception_matched(tm, r, ws)
}

/// Whole-position match: some reading matches and no reading is excepted.
pub open spec fn tm_matches_position(tm: TokenMatcher, atr: TokenV) -> bool {
    (exists|i: int|
        0 <= i < atr.readings.len() && tm_is_matched(
            tm,
            #[trigger] atr.readings[i],
            atr.whitespace_before,
        )) && !(exists|i: int|
        0 <= i < atr.readings.len() && tm_exception_matched(
            tm,
            #[trigger] atr.readings[i],
            atr.whitespace_before,
        ))
}

/// Some reading of `atr` matches one of `es`.
pub open spec fn any_matches(es: Seq<TokenMatcher>, atr: TokenV) -> bool {
    exists|j: int, k: int|
        #![trigger es[j], atr.readings[k]]
        0 <= j < es.len() && 0 <= k < atr.readings.len() && tm_is_matched(
            es[j],
            atr.readings[k],
            atr.whitespace_before,
        )
}

/// The token matches position `i` of `toks`, its exceptions on the
/// neighbouring positions included.
pub open spec fn tm_fits_at(tm: TokenMatcher, toks: Seq<TokenV>, i: int) -> bool {
    &&& tm_matches_position(tm, toks[i])
    &&& !(i > 0 && any_matches(tm.prev_exceptions@, toks[i - 1]))
    &&& !(i + 1 < toks.len() && any_matches(tm.next_exceptions@, toks[i + 1]))
}

/// The token and every member of its `<and>` group fit position `i`.
pub open spec fn tm_matches_at(tm: TokenMatcher, toks: Seq<TokenV>, i: int) -> bool {
    &&& tm_fits_at(tm, toks, i)
    &&& forall|j: int| 0 <= j < tm.and_group@.len() ==> tm_fits_at(#[trigger] tm.and_group@[j], toks, i)
}

impl Default for TokenMatcher {
    /// A token that matches every reading once.
    fn default() -> (r: TokenMatcher)
        ensures
            r.string is None,
            !r.inflected && !r.negate && !r.negate_pos,
            r.pos is None,
            r.spacebefore is None,
            r.exceptions@.len() == 0,
            r.prev_exceptions@.len() == 0 && r.next_exceptions@.len() == 0,
            r.and_group@.len() == 0,
            r.min == 1 && r.max == 1 && r.skip == 0,
    {
        TokenMatcher {
            string: None,
            inflected: false,
            negate: false,
            pos: None,
            negate_pos: false,
            spacebefore: None,
            exceptions: Vec::new(),
            prev_exceptions: Vec::new(),
            next_exceptions: Vec::new(),
            and_group: Vec::new(),
            min: 1,
            max: 1,
            skip: 0,
        }
    }
}

impl TokenMatcher {
    fn test_token(&self, r: &AnalyzedToken) -> (t: Vec<char>)
        ensures
            t@ == test_text(*self, reading_view(*r)),
    {
        if self.inflected {
            match &r.lemma {
                Some(l) => string_chars(l),
                None => string_chars(&r.token),
            }
        } else {
            string_chars(&r.token)
        }
    }

    fn pos_matched(&self, r: &AnalyzedToken) -> (b: bool)
        ensures
            b == match self.pos {
                None => true,
                Some(p) => pm_matches(p, reading_view(*r)),
            },
    {
        match &self.pos {
            None => true,
            Some(p) => p.matches_reading(r),
        }
    }

    /// `PatternToken.isMatched` for one reading (exceptions aside).
    pub fn is_matched(&self, r: &AnalyzedToken, whitespace_before: bool) -> (b: bool)
        ensures
            b == tm_is_matched(*self, reading_view(*r), whitespace_before),
    {
        if let Some(want) = self.spacebefore {
            if whitespace_before != want {
                return false;
            }
        }
        let pos_ok = self.pos_matched(r) != self.negate_pos;
        match &self.string {
            Some(sm) => (sm.matches_chars(&self.test_token(r)) != self.negate) && pos_ok,
            None => !self.negate && pos_ok,
        }
    }

    fn exception_matched(&self, r: &AnalyzedToken, whitespace_before: bool) -> (b: bool)
        ensures
            b == tm_exception_matched(*self, reading_view(*r), whitespace_before),
    {
        let mut i: usize = 0;
        while i < self.exceptions.len()
            invariant
                i <= self.exceptions@.len(),
                forall|k: int|
                    0 <= k < i ==> !tm_is_matched(
                        #[trigger] self.exceptions@[k],
                        reading_view(*r),
                        whitespace_before,
                    ),
            decreases self.exceptions.len() - i,
        {
            if self.exceptions[i].is_matched(r, whitespace_before) {
                return true;
            }
            i += 1;
        }
        false
    }

    /// The token keeps reading `r`: it matches and no exception blocks it.
    pub fn keeps_reading(&self, r: &AnalyzedToken, whitespace_before: bool) -> (b: bool)
        ensures
            b == tm_keeps_reading(*self, reading_view(*r), whitespace_before),
    {
        self.is_matched(r, whitespace_before) && !self.exception_matched(r, whitespace_before)
    }

    /// Whole-position match: some reading matches and no exception matches.
    pub fn matches_position(&self, atr: &AnalyzedTokenReadings) -> (b: bool)
        ensures
            b == tm_matches_position(*self, token_view(*atr)),
    {
        let mut matched = false;
        let mut excepted = false;
        let mut i: usize = 0;
        while i < atr.readings.len()
            invariant
                i <= atr.readings@.len(),
                matched == exists|k: int|
                    0 <= k < i && tm_is_matched(
                        *self,
                        #[trigger] token_view(*atr).readings[k],
                        atr.whitespace_before,
                    ),
                excepted == exists|k: int|
                    0 <= k < i && tm_exception_matched(
                        *self,
                        #[trigger] token_view(*atr).readings[k],
                        atr.whitespace_before,
                    ),
            decreases atr.readings.len() - i,
        {
            assert(token_view(*atr).readings[i as int] == reading_view(atr.readings@[i as int]));
            if self.is_matched(&atr.readings[i], atr.whitespace_before) {
                matched = true;
            }
            if self.exception_matched(&atr.readings[i], atr.whitespace_before) {
                excepted = true;
            }
            i += 1;
        }
        matched && !excepted
    }

    /// Whether a reading of `atr` matches one of `es`.
    fn any_matches_exec(es: &Vec<TokenMatcher>, atr: &AnalyzedTokenReadings) -> (b: bool)
        ensures
            b == any_matches(es@, token_view(*atr)),
    {
        let ghost tv = token_view(*atr);
        let mut j: usize = 0;
        while j < es.len()
            invariant
                j <= es@.len(),
                tv == token_view(*atr),
                forall|jj: int, k: int|
                    #![trigger es@[jj], tv.readings[k]]
                    0 <= jj < j && 0 <= k < tv.readings.len() ==> !tm_is_matched(
                        es@[jj],
                        tv.readings[k],
                        tv.whitespace_before,
                    ),
            decreases es.len() - j,
        {
            let mut k: usize = 0;
            while k < atr.readings.len()
                invariant
                    j < es@.len(),
                    k <= atr.readings@.len(),
                    tv == token_view(*atr),
                    forall|kk: int|
                        0 <= kk < k ==> !tm_is_matched(
                            es@[j as int],
                            #[trigger] tv.readings[kk],
                            tv.whitespace_before,
                        ),
                decreases atr.readings.len() - k,
            {
                assert(tv.readings[k as int] == reading_view(atr.readings@[k as int]));
                if es[j].is_matched(&atr.readings[k], atr.whitespace_before) {
                    assert(tm_is_matched(es@[j as int], tv.readings[k as int], tv.whitespace_before));
                    return true;
                }
                k += 1;
            }
            j += 1;
        }
        false
    }

    /// The token matches position `i`, its neighbour exceptions included.
    pub fn fits_at(&self, tokens: &[AnalyzedTokenReadings], i: usize) -> (b: bool)
        requires
            i < tokens@.len(),
        ensures
            b == tm_fits_at(*self, sentence_view(tokens@), i as int),
    {
        if !self.matches_position(&tokens[i]) {
            return false;
        }
        if i > 0 && Self::any_matches_exec(&self.prev_exceptions, &tokens[i - 1]) {
            return false;
        }
        if i + 1 < tokens.len() && Self::any_matches_exec(&self.next_exceptions, &tokens[i + 1]) {
            return false;
        }
        true
    }

    /// The token and every member of its `<and>` group match position `i`.
    pub fn matches_at(&self, tokens: &[AnalyzedTokenReadings], i: usize) -> (b: bool)
        requires
            i < tokens@.len(),
        ensures
            b == tm_matches_at(*self, sentence_view(tokens@), i as int),
    {
        if !self.fits_at(tokens, i) {
            return false;
        }
        let mut j: usize = 0;
        while j < self.and_group.len()
            invariant
                i < tokens@.len(),
                j <= self.and_group@.len(),
                forall|jj: int|
                    0 <= jj < j ==> tm_fits_at(
                        #[trigger] self.and_group@[jj],
                        sentence_view(tokens@),
                        i as int,
                    ),
            decreases self.and_group.len() - j,
        {
            if !self.and_group[j].fits_at(tokens, i) {
                return false;
            }
            j += 1;
        }
        true
    }
}

} // verus!
