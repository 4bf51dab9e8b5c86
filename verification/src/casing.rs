//! The `StringTools` case predicates the tagger branches on.

use vstd::prelude::*;
use crate::text::{
    char_to_uppercase, is_alphabetic_char, is_lowercase_char, is_uppercase_char, str_chars,
    uc_alphabetic, uc_lowercase, uc_uppercase, upper_char, chars_to_string,
};

verus! {

/// A lowercase letter.
pub open spec fn lower_letter(c: char) -> bool {
    uc_alphabetic(c) && uc_lowercase(c)
}

/// A letter that is not lowercase.
pub open spec fn nonlower_letter(c: char) -> bool {
    uc_alphabetic(c) && !uc_lowercase(c)
}

/// No lowercase letter appears (true for words without letters).
pub open spec fn spec_all_uppercase(s: Seq<char>) -> bool {
    forall|i: int| 0 <= i < s.len() ==> !lower_letter(#[trigger] s[i])
}

/// First character uppercase and no later letter uppercase.
pub open spec fn spec_capitalized(s: Seq<char>) -> bool {
    s.len() > 0 && uc_uppercase(s[0]) && forall|i: int|
        1 <= i < s.len() ==> !nonlower_letter(#[trigger] s[i])
}

/// Some letter is not lowercase.
pub open spec fn spec_not_all_lowercase(s: Seq<char>) -> bool {
    exists|i: int| 0 <= i < s.len() && nonlower_letter(#[trigger] s[i])
}

/// Neither all-uppercase nor capitalized, but with some uppercase letter.
pub open spec fn spec_mixed_case(s: Seq<char>) -> bool {
    !spec_all_uppercase(s) && !spec_capitalized(s) && spec_not_all_lowercase(s)
}

/// The first character uppercased, the rest unchanged.
pub open spec fn spec_upper_first(s: Seq<char>) -> Seq<char> {
    if s.len() == 0 {
        Seq::empty()
    } else {
        upper_char(s[0]) + s.drop_first()
    }
}

pub fn all_uppercase_chars(s: &[char]) -> (r: bool)
    ensures
        r == spec_all_uppercase(s@),
{
    let mut i: usize = 0;
    while i < s.len()
        invariant
            i <= s.len(),
            forall|k: int| 0 <= k < i ==> !lower_letter(#[trigger] s@[k]),
        decreases s.len() - i,
    {
        if is_alphabetic_char(s[i]) && is_lowercase_char(s[i]) {
            assert(lower_letter(s@[i as int]));
            return false;
        }
        i += 1;
    }
    true
}

pub fn capitalized_chars(s: &[char]) -> (r: bool)
    ensures
        r == spec_capitalized(s@),
{
    if s.len() == 0 || !is_uppercase_char(s[0]) {
        return false;
    }
    let mut i: usize = 1;
    while i < s.len()
        invariant
            1 <= i <= s.len(),
            forall|k: int| 1 <= k < i ==> !nonlower_letter(#[trigger] s@[k]),
        decreases s.len() - i,
    {
        if is_alphabetic_char(s[i]) && !is_lowercase_char(s[i]) {
            assert(nonlower_letter(s@[i as int]));
            return false;
        }
        i += 1;
    }
    true
}

pub fn not_all_lowercase_chars(s: &[char]) -> (r: bool)
    ensures
        r == spec_not_all_lowercase(s@),
{
    let mut i: usize = 0;
    while i < s.len()
        invariant
            i <= s.len(),
            forall|k: int| 0 <= k < i ==> !nonlower_letter(#[trigger] s@[k]),
        decreases s.len() - i,
    {
        if is_alphabetic_char(s[i]) && !is_lowercase_char(s[i]) {
            assert(nonlower_letter(s@[i as int]));
            return true;
        }
        i += 1;
    }
    false
}

pub fn mixed_case_chars(s: &[char]) -> (r: bool)
    ensures
        r == spec_mixed_case(s@),
{
    !all_uppercase_chars(s) && !capitalized_chars(s) && not_all_lowercase_chars(s)
}

/// No lowercase letter appears (true for words with no letters at all).
pub fn is_all_uppercase(s: &str) -> (r: bool)
    ensures
        r == spec_all_uppercase(s@),
{
    all_uppercase_chars(&str_chars(s))
}

/// First char is uppercase and no later letter is uppercase.
pub fn is_capitalized_word(s: &str) -> (r: bool)
    ensures
        r == spec_capitalized(s@),
{
    capitalized_chars(&str_chars(s))
}

/// Some letter is not lowercase (i.e. at least one uppercase letter).
pub fn is_not_all_lowercase(s: &str) -> (r: bool)
    ensures
        r == spec_not_all_lowercase(s@),
{
    not_all_lowercase_chars(&str_chars(s))
}

/// `!isAllUppercase && !isCapitalizedWord && isNotAllLowercase`.
pub fn is_mixed_case(s: &str) -> (r: bool)
    ensures
        r == spec_mixed_case(s@),
{
    mixed_case_chars(&str_chars(s))
}

/// Uppercase only the first character of a character string.
pub fn upper_first_chars(s: &[char]) -> (r: Vec<char>)
    ensures
        r@ == spec_upper_first(s@),
{
    if s.len() == 0 {
        return Vec::new();
    }
    let mut r = char_to_uppercase(s[0]);
    let mut i: usize = 1;
    while i < s.len()
        invariant
            1 <= i <= s.len(),
            r@ == upper_char(s@[0]) + s@.subrange(1, i as int),
        decreases s.len() - i,
    {
        r.push(s[i]);
        i += 1;
    }
    assert(s@.subrange(1, s.len() as int) =~= s@.drop_first());
    r
}

/// Uppercase only the first character (Java `changeFirstCharCase(s, true)`).
pub fn uppercase_first_char(s: &str) -> (r: String)
    ensures
        r@ == spec_upper_first(s@),
{
    chars_to_string(&upper_first_chars(&str_chars(s)))
}

} // verus!
