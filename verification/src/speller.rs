//! Morfologik speller membership: the misspelling decision for one word over a
//! spelling dictionary (`en_US.dict`).
//!
//! A word is misspelled iff it holds no digit, is not in the dictionary, and
//! (unless it is mixed-case) its lowercase form is not in the dictionary either.

use vstd::prelude::*;
use vstd::string::StringSliceAdditionalSpecFns;
use crate::dict::Dictionary;
use crate::fsa::{header_check, parsed_from, FsaError, lemma_parsed_same};
use crate::dict::lemma_same_contains;
use crate::dict::info_settings;
use crate::casing::{
    all_uppercase_chars, capitalized_chars, not_all_lowercase_chars, spec_all_uppercase,
    spec_capitalized, spec_not_all_lowercase,
};
use crate::text::{
    chars_to_string, is_numeric_char, lower_str, str_chars, to_lowercase_chars, uc_numeric,
};

verus! {

/// A decimal digit or any numeric character.
pub open spec fn digit_like(c: char) -> bool {
    ('0' <= c <= '9') || uc_numeric(c)
}

/// No character is a digit.
pub open spec fn spec_contains_no_digit(s: Seq<char>) -> bool {
    forall|i: int| 0 <= i < s.len() ==> !digit_like(#[trigger] s[i])
}

/// `Speller.isMixedCase`: not all-uppercase, not capitalized, not all-lowercase.
pub open spec fn spec_speller_mixed(s: Seq<char>) -> bool {
    !spec_all_uppercase(s) && !spec_capitalized(s) && spec_not_all_lowercase(s)
}

/// `Speller.containsNoDigit`.
pub fn contains_no_digit(s: &str) -> (r: bool)
    ensures
        r == spec_contains_no_digit(s@),
{
    let v = str_chars(s);
    let mut i: usize = 0;
    while i < v.len()
        invariant
            v@ == s@,
            i <= v.len(),
            forall|k: int| 0 <= k < i ==> !digit_like(#[trigger] v@[k]),
        decreases v.len() - i,
    {
        let c = v[i];
        if ('0' <= c && c <= '9') || is_numeric_char(c) {
            assert(digit_like(v@[i as int]));
            return false;
        }
        i += 1;
    }
    true
}

/// `Speller.isMixedCase` (e.g. `tHe`, `McDonald`, `iPhone`).
pub fn is_mixed_case(s: &str) -> (r: bool)
    ensures
        r == spec_speller_mixed(s@),
{
    let v = str_chars(s);
    !all_uppercase_chars(&v) && !capitalized_chars(&v) && not_all_lowercase_chars(&v)
}

pub struct Speller {
    dict: Dictionary,
}

impl Speller {
    pub closed spec fn dictionary(self) -> Dictionary {
        self.dict
    }

    /// The misspelling decision for `w`.
    pub open spec fn spec_misspelled(self, w: Seq<char>) -> bool {
        let d = self.dictionary();
        if w.len() == 0 || !spec_contains_no_digit(w) {
            false
        } else if d.spec_contains(vstd::utf8::encode_utf8(w)) {
            false
        } else {
            spec_speller_mixed(w) || !d.spec_contains(vstd::utf8::encode_utf8(lower_str(w)))
        }
    }

    /// Load from the `en_US.dict` bytes + its `.info` text.
    pub fn load(dict_bytes: &[u8], info_text: &str) -> (r: Result<Speller, FsaError>)
        ensures
            match header_check(dict_bytes@) {
                Err(e) => r == Err::<Speller, FsaError>(e),
                Ok(_) => r is Ok && {
                    let d = r->Ok_0.dictionary();
                    &&& parsed_from(d.automaton(), dict_bytes@)
                    &&& (d.sep(), d.enc(), d.freq()) == info_settings(info_text@)
                },
            },
    {
        let dict = Dictionary::load(dict_bytes, info_text)?;
        Ok(Speller { dict })
    }

    /// Dictionary membership: the word spells a complete entry.
    pub fn is_in_dictionary(&self, word: &str) -> (r: bool)
        ensures
            r == self.dictionary().spec_contains(word.spec_bytes()),
    {
        self.dict.contains(word)
    }

    /// Stored word frequency, for ranking suggestions.
    pub fn frequency(&self, word: &str) -> (r: i32)
        ensures
            r == self.dictionary().spec_frequency(word.spec_bytes()),
    {
        self.dict.frequency(word)
    }

    /// `Speller.isMisspelled` for a case-converting, number-ignoring dictionary:
    /// a word of the dictionary, or one with a digit, is never misspelled.
    pub fn is_misspelled(&self, word: &str) -> (r: bool)
        ensures
            r == self.spec_misspelled(word@),
            !spec_contains_no_digit(word@) ==> !r,
            self.dictionary().spec_contains(vstd::utf8::encode_utf8(word@)) ==> !r,
    {
        let v = str_chars(word);
        if v.len() == 0 || !contains_no_digit(word) {
            return false;
        }
        if self.is_in_dictionary(word) {
            return false;
        }
        if is_mixed_case(word) {
            return true;
        }
        let lower = chars_to_string(&to_lowercase_chars(&v));
        !self.is_in_dictionary(lower.as_str())
    }
}

/// A speller and a dictionary loaded from the same bytes and `.info` text
/// agree on every word.
pub proof fn lemma_speller_agrees(s: Speller, d: Dictionary, bytes: Seq<u8>, info: Seq<char>, w: Seq<u8>)
    requires
        parsed_from(s.dictionary().automaton(), bytes),
        parsed_from(d.automaton(), bytes),
        (s.dictionary().sep(), s.dictionary().enc(), s.dictionary().freq()) == info_settings(info),
        (d.sep(), d.enc(), d.freq()) == info_settings(info),
    ensures
        s.dictionary().spec_contains(w) == d.spec_contains(w),
{
    lemma_parsed_same(s.dictionary().automaton(), d.automaton(), bytes);
    lemma_same_contains(s.dictionary(), d, w);
}

} // verus!
