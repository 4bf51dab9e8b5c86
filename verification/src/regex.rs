//! Java-flavoured regular expressions, evaluated by `fancy-regex`.
//!
//! A compiled expression is held together with its source text; what a search
//! returns is named by uninterpreted functions of the source and the searched
//! text, so every caller's contract can speak of it exactly.

use vstd::prelude::*;
use vstd::string::StringSliceAdditionalSpecFns;
use crate::text::chars_to_string;

verus! {

#[verifier::external_type_specification]
#[verifier::external_body]
pub struct ExFancyRegex(fancy_regex::Regex);

/// Whether `fancy_regex::Regex::new` accepts the pattern.
pub uninterp spec fn regex_compiles(pattern: Seq<char>) -> bool;

/// `Regex::is_match`: `Some(found)`, or `None` when the engine reports an error
/// (backtracking limit).
pub uninterp spec fn regex_is_match(pattern: Seq<char>, text: Seq<char>) -> Option<bool>;

/// `Regex::find_iter` up to the first engine error: `(start byte, end byte,
/// matched text)` of each successive non-overlapping match.
pub uninterp spec fn regex_find_all(pattern: Seq<char>, text: Seq<char>) -> Seq<
    (int, int, Seq<char>),
>;

/// `Regex::captures`: `None` when there is no match (or on an engine error);
/// otherwise groups `1..` of the first match, each `None` when it did not
/// participate.
pub uninterp spec fn regex_captures(pattern: Seq<char>, text: Seq<char>) -> Option<
    Seq<Option<Seq<char>>>,
>;

/// `Regex::try_replacen(text, 0, replacement)`: every match replaced, `None`
/// on an engine error.
pub uninterp spec fn regex_replace_all(
    pattern: Seq<char>,
    text: Seq<char>,
    replacement: Seq<char>,
) -> Option<Seq<char>>;

/// View of an optional string.
pub open spec fn opt_view(g: Option<String>) -> Option<Seq<char>> {
    match g {
        Some(s) => Some(s@),
        None => None,
    }
}

/// One match of a search: byte offsets into the searched text and the text.
pub struct RegexMatch {
    pub start: usize,
    pub end: usize,
    pub text: String,
}

pub open spec fn match_view(m: RegexMatch) -> (int, int, Seq<char>) {
    (m.start as int, m.end as int, m.text@)
}

/// A compiled expression together with its source text.
pub struct CompiledRegex {
    source: String,
    re: fancy_regex::Regex,
}

impl CompiledRegex {
    /// The source pattern this expression was compiled from.
    pub closed spec fn src(self) -> Seq<char> {
        self.source@
    }

    /// The source pattern, as characters.
    pub fn source_chars(&self) -> (r: Vec<char>)
        ensures
            r@ == self.src(),
    {
        crate::text::string_chars(&self.source)
    }
}

/// Wraps `fancy_regex::Regex::new`.
#[verifier::external_body]
pub(crate) fn compile(pattern: &str) -> (r: Option<CompiledRegex>)
    ensures
        r is Some <==> regex_compiles(pattern@),
        r matches Some(c) ==> c.src() == pattern@,
{
    match fancy_regex::Regex::new(pattern) {
        Ok(re) => Some(CompiledRegex { source: pattern.to_string(), re }),
        Err(_) => None,
    }
}

/// Compiles a pattern given as characters.
pub fn compile_chars(pattern: &[char]) -> (r: Option<CompiledRegex>)
    ensures
        r is Some <==> regex_compiles(pattern@),
        r matches Some(c) ==> c.src() == pattern@,
{
    let s = chars_to_string(pattern);
    compile(s.as_str())
}

impl CompiledRegex {
    /// Wraps `Regex::is_match`.
    #[verifier::external_body]
    pub(crate) fn is_match(&self, text: &str) -> (r: Option<bool>)
        ensures
            r == regex_is_match(self.src(), text@),
    {
        self.re.is_match(text).ok()
    }

    /// Wraps `Regex::find_iter`, stopping at the first engine error. The
    /// matches are successive and non-overlapping, each lying inside the text
    /// and carrying the text between its offsets.
    #[verifier::external_body]
    pub(crate) fn find_all(&self, text: &str) -> (r: Vec<RegexMatch>)
        ensures
            r@.map_values(|m: RegexMatch| match_view(m)) == regex_find_all(self.src(), text@),
            forall|i: int|
                0 <= i < r@.len() ==> {
                    &&& r@[i].start <= r@[i].end <= text.spec_bytes().len()
                    &&& vstd::utf8::encode_utf8(r@[i].text@) == text.spec_bytes().subrange(
                        r@[i].start as int,
                        r@[i].end as int,
                    )
                },
            forall|i: int| 0 <= i < r@.len() - 1 ==> r@[i].end <= r@[i + 1].start,
    {
        self.re
            .find_iter(text)
            .map_while(|m| m.ok())
            .map(|m| RegexMatch { start: m.start(), end: m.end(), text: m.as_str().to_string() })
            .collect()
    }

    /// Wraps `Regex::captures`: groups `1..` of the first match.
    #[verifier::external_body]
    pub(crate) fn captures(&self, text: &str) -> (r: Option<Vec<Option<String>>>)
        ensures
            match r {
                None => regex_captures(self.src(), text@) is None,
                Some(v) => regex_captures(self.src(), text@) == Some(
                    v@.map_values(|g: Option<String>| opt_view(g)),
                ),
            },
    {
        match self.re.captures(text) {
            Ok(Some(caps)) => Some(
                (1..caps.len()).map(|i| caps.get(i).map(|g| g.as_str().to_string())).collect(),
            ),
            _ => None,
        }
    }

    /// Wraps `Regex::try_replacen(text, 0, replacement)`.
    #[verifier::external_body]
    pub(crate) fn replace_all(&self, text: &str, replacement: &str) -> (r: Option<String>)
        ensures
            match r {
                None => regex_replace_all(self.src(), text@, replacement@) is None,
                Some(s) => regex_replace_all(self.src(), text@, replacement@) == Some(s@),
            },
    {
        self.re.try_replacen(text, 0, replacement).ok().map(|c| c.into_owned())
    }
}

} // verus!
