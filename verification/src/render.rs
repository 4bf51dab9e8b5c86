//! Text transformations used when a grammar rule's message and suggestions
//! are rendered: replacement templates, whitespace collapsing and the case
//! conversions of `<match>` elements.

use vstd::prelude::*;
use crate::casing::{spec_upper_first, upper_first_chars};
use crate::text::{
    char_to_lowercase, char_to_uppercase, chars_to_string, is_alphabetic_char, is_lowercase_char,
    is_uppercase_char, is_whitespace_char, lower_char, str_chars, to_uppercase_chars,
    uc_alphabetic, uc_lowercase, uc_uppercase, uc_whitespace, upper_char, upper_str,
};

verus! {

pub open spec fn is_ascii_digit(c: char) -> bool {
    '0' <= c <= '9'
}

/// The number of ASCII digits at the start of `s`.
pub open spec fn digit_run(s: Seq<char>) -> nat
    decreases s.len(),
{
    if s.len() > 0 && is_ascii_digit(s[0]) {
        1 + digit_run(s.drop_first())
    } else {
        0
    }
}

pub proof fn lemma_digit_run(s: Seq<char>)
    ensures
        digit_run(s) <= s.len(),
        forall|k: int| 0 <= k < digit_run(s) ==> is_ascii_digit(#[trigger] s[k]),
        digit_run(s) < s.len() ==> !is_ascii_digit(s[digit_run(s) as int]),
    decreases s.len(),
{
    if s.len() > 0 && is_ascii_digit(s[0]) {
        lemma_digit_run(s.drop_first());
        assert forall|k: int| 0 <= k < digit_run(s) implies is_ascii_digit(#[trigger] s[k]) by {
            if k > 0 {
                assert(s[k] == s.drop_first()[k - 1]);
            }
        }
    }
}

/// A Java `Matcher.replaceAll` template in the expander syntax of the regex
/// engine: `\x` is the literal `x`, `$` with digits is a numbered group written
/// `${N}`, and a `$` without digits is the literal dollar `$$`.
pub open spec fn spec_java_replacement(r: Seq<char>) -> Seq<char>
    decreases r.len(),
{
    if r.len() == 0 {
        Seq::empty()
    } else if r[0] == '\\' {
        if r.len() >= 2 {
            seq![r[1]] + spec_java_replacement(r.skip(2))
        } else {
            Seq::empty()
        }
    } else if r[0] == '$' {
        proof {
            lemma_digit_run(r.drop_first());
        }
        let d = digit_run(r.drop_first());
        if d == 0 {
            seq!['$', '$'] + spec_java_replacement(r.drop_first())
        } else {
            seq!['$', '{'] + r.subrange(1, 1 + d as int) + seq!['}'] + spec_java_replacement(
                r.skip(1 + d as int),
            )
        }
    } else {
        seq![r[0]] + spec_java_replacement(r.drop_first())
    }
}

pub fn java_replacement_chars(r: &[char]) -> (out: Vec<char>)
    ensures
        out@ == spec_java_replacement(r@),
{
    let mut out: Vec<char> = Vec::new();
    let mut i: usize = 0;
    assert(r@.skip(0) =~= r@);
    while i < r.len()
        invariant
            i <= r.len(),
            out@ + spec_java_replacement(r@.skip(i as int)) == spec_java_replacement(r@),
        decreases r.len() - i,
    {
        let ghost rest = r@.skip(i as int);
        let ghost o0 = out@;
        if r[i] == '\\' {
            if i + 1 < r.len() {
                out.push(r[i + 1]);
                assert(rest.skip(2) =~= r@.skip(i + 2));
                assert(o0 + (seq![rest[1]] + spec_java_replacement(r@.skip(i + 2))) =~= out@
                    + spec_java_replacement(r@.skip(i + 2)));
                i += 2;
            } else {
                assert(out@ + Seq::<char>::empty() =~= out@);
                assert(r@.skip(r.len() as int) =~= Seq::<char>::empty());
                i = r.len();
            }
        } else if r[i] == '$' {
            proof {
                lemma_digit_run(rest.drop_first());
            }
            let start = i + 1;
            let mut j = start;
            while j < r.len() && '0' <= r[j] && r[j] <= '9'
                invariant
                    start <= j <= r.len(),
                    forall|k: int| start <= k < j ==> is_ascii_digit(#[trigger] r@[k]),
                decreases r.len() - j,
            {
                j += 1;
            }
            assert(digit_run(rest.drop_first()) == j - start) by {
                let d = digit_run(rest.drop_first()) as int;
                if d < j - start {
                    assert(rest.drop_first()[d] == r@[start + d]);
                } else if d > j - start {
                    assert(rest.drop_first()[j - start] == r@[j as int]);
                }
            }
            if j == start {
                out.push('$');
                out.push('$');
                assert(rest.drop_first() =~= r@.skip(i + 1));
                assert(o0 + (seq!['$', '$'] + spec_java_replacement(r@.skip(i + 1))) =~= out@
                    + spec_java_replacement(r@.skip(i + 1)));
                i += 1;
            } else {
                out.push('$');
                out.push('{');
                let mut k = start;
                while k < j
                    invariant
                        start <= k <= j <= r.len(),
                        out@ == o0 + seq!['$', '{'] + r@.subrange(start as int, k as int),
                    decreases j - k,
                {
                    out.push(r[k]);
                    assert(r@.subrange(start as int, k + 1) =~= r@.subrange(start as int, k as int).push(r@[k as int]));
                    k += 1;
                }
                out.push('}');
                assert(rest.subrange(1, 1 + (j - start)) =~= r@.subrange(start as int, j as int));
                assert(rest.skip(1 + (j - start)) =~= r@.skip(j as int));
                assert(o0 + (seq!['$', '{'] + r@.subrange(start as int, j as int) + seq!['}']
                    + spec_java_replacement(r@.skip(j as int))) =~= out@ + spec_java_replacement(
                    r@.skip(j as int),
                ));
                i = j;
            }
        } else {
            out.push(r[i]);
            assert(rest.drop_first() =~= r@.skip(i + 1));
            assert(o0 + (seq![rest[0]] + spec_java_replacement(r@.skip(i + 1))) =~= out@
                + spec_java_replacement(r@.skip(i + 1)));
            i += 1;
        }
    }
    assert(r@.skip(i as int) =~= Seq::<char>::empty());
    assert(out@ + Seq::<char>::empty() =~= out@);
    out
}

/// Translate a Java replacement template (see [`spec_java_replacement`]).
pub fn java_to_fancy_replacement(r: &str) -> (out: String)
    ensures
        out@ == spec_java_replacement(r@),
{
    chars_to_string(&java_replacement_chars(&str_chars(r)))
}

/// Runs of whitespace collapsed to one space; `prev` says whether the text
/// before `s` ended in whitespace.
pub open spec fn collapse_ws(s: Seq<char>, prev: bool) -> Seq<char>
    decreases s.len(),
{
    if s.len() == 0 {
        Seq::empty()
    } else if uc_whitespace(s[0]) {
        (if prev {
            Seq::empty()
        } else {
            seq![' ']
        }) + collapse_ws(s.drop_first(), true)
    } else {
        seq![s[0]] + collapse_ws(s.drop_first(), false)
    }
}

/// Every run of whitespace becomes a single space.
pub open spec fn spec_normalize_spaces(s: Seq<char>) -> Seq<char> {
    collapse_ws(s, false)
}

pub fn normalize_spaces_chars(s: &[char]) -> (r: Vec<char>)
    ensures
        r@ == spec_normalize_spaces(s@),
{
    let mut out: Vec<char> = Vec::new();
    let mut prev = false;
    let mut i: usize = 0;
    assert(s@.skip(0) =~= s@);
    while i < s.len()
        invariant
            i <= s.len(),
            out@ + collapse_ws(s@.skip(i as int), prev) == spec_normalize_spaces(s@),
        decreases s.len() - i,
    {
        let ghost o0 = out@;
        let ghost rest = s@.skip(i as int);
        assert(rest.drop_first() =~= s@.skip(i + 1));
        if is_whitespace_char(s[i]) {
            if !prev {
                out.push(' ');
            }
            assert(o0 + ((if prev {
                Seq::empty()
            } else {
                seq![' ']
            }) + collapse_ws(s@.skip(i + 1), true)) =~= out@ + collapse_ws(s@.skip(i + 1), true));
            prev = true;
        } else {
            out.push(s[i]);
            assert(o0 + (seq![rest[0]] + collapse_ws(s@.skip(i + 1), false)) =~= out@
                + collapse_ws(s@.skip(i + 1), false));
            prev = false;
        }
        i += 1;
    }
    assert(s@.skip(i as int) =~= Seq::<char>::empty());
    assert(out@ + Seq::<char>::empty() =~= out@);
    out
}

/// Collapse every run of whitespace to a single space.
pub fn normalize_spaces(s: &str) -> (r: String)
    ensures
        r@ == spec_normalize_spaces(s@),
{
    chars_to_string(&normalize_spaces_chars(&str_chars(s)))
}

/// The first character uppercased when it is a lowercase letter.
pub open spec fn spec_capitalize_first(s: Seq<char>) -> Seq<char> {
    if s.len() > 0 && uc_lowercase(s[0]) {
        upper_char(s[0]) + s.drop_first()
    } else {
        s
    }
}

fn rest_after(prefix: Vec<char>, s: &[char], from: usize) -> (r: Vec<char>)
    requires
        from <= s.len(),
    ensures
        r@ == prefix@ + s@.skip(from as int),
{
    let mut r = prefix;
    let ghost p = r@;
    let mut i = from;
    while i < s.len()
        invariant
            from <= i <= s.len(),
            r@ == p + s@.subrange(from as int, i as int),
        decreases s.len() - i,
    {
        r.push(s[i]);
        assert(s@.subrange(from as int, i + 1) =~= s@.subrange(from as int, i as int).push(s@[i as int]));
        i += 1;
    }
    assert(s@.subrange(from as int, s.len() as int) =~= s@.skip(from as int));
    r
}

pub fn capitalize_first_chars(s: &[char]) -> (r: Vec<char>)
    ensures
        r@ == spec_capitalize_first(s@),
{
    if s.len() > 0 && is_lowercase_char(s[0]) {
        let r = rest_after(char_to_uppercase(s[0]), s, 1);
        assert(s@.skip(1) =~= s@.drop_first());
        r
    } else {
        let r = rest_after(Vec::new(), s, 0);
        assert(Seq::<char>::empty() + s@.skip(0) =~= s@);
        r
    }
}

/// The first character lowercased.
pub open spec fn spec_lower_first(s: Seq<char>) -> Seq<char> {
    if s.len() == 0 {
        Seq::empty()
    } else {
        lower_char(s[0]) + s.drop_first()
    }
}

pub fn lower_first_chars(s: &[char]) -> (r: Vec<char>)
    ensures
        r@ == spec_lower_first(s@),
{
    if s.len() == 0 {
        return Vec::new();
    }
    let r = rest_after(char_to_lowercase(s[0]), s, 1);
    assert(s@.skip(1) =~= s@.drop_first());
    r
}

/// Some letter, and every letter uppercase.
pub open spec fn all_letters_upper(s: Seq<char>) -> bool {
    (exists|i: int| 0 <= i < s.len() && uc_alphabetic(#[trigger] s[i])) && forall|i: int|
        0 <= i < s.len() && uc_alphabetic(#[trigger] s[i]) ==> uc_uppercase(s[i])
}

/// `case_conversion="preserve"`: `s` in the case shape of `original`.
pub open spec fn spec_preserve_case(original: Seq<char>, s: Seq<char>) -> Seq<char> {
    if all_letters_upper(original) {
        upper_str(s)
    } else if original.len() > 0 && uc_uppercase(original[0]) {
        spec_upper_first(s)
    } else {
        s
    }
}

fn all_letters_upper_exec(s: &[char]) -> (r: bool)
    ensures
        r == all_letters_upper(s@),
{
    let mut seen = false;
    let mut i: usize = 0;
    while i < s.len()
        invariant
            i <= s.len(),
            seen == exists|k: int| 0 <= k < i && uc_alphabetic(#[trigger] s@[k]),
            forall|k: int| 0 <= k < i && uc_alphabetic(#[trigger] s@[k]) ==> uc_uppercase(s@[k]),
        decreases s.len() - i,
    {
        if is_alphabetic_char(s[i]) {
            if !is_uppercase_char(s[i]) {
                return false;
            }
            seen = true;
        }
        i += 1;
    }
    seen
}

pub fn preserve_case_chars(original: &[char], s: &[char]) -> (r: Vec<char>)
    ensures
        r@ == spec_preserve_case(original@, s@),
{
    if all_letters_upper_exec(original) {
        to_uppercase_chars(s)
    } else if original.len() > 0 && is_uppercase_char(original[0]) {
        upper_first_chars(s)
    } else {
        let r = rest_after(Vec::new(), s, 0);
        assert(Seq::<char>::empty() + s@.skip(0) =~= s@);
        r
    }
}

} // verus!
