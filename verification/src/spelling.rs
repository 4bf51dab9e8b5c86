//! The spelling rule: unknown words of an analyzed sentence, with suggestions.
//!
//! A word is flagged when the speller does not know it, after skipping tokens
//! without a letter and URL / e-mail / handle tokens, accepting the words of
//! the ignore lists, always flagging the prohibited words, and accepting a
//! hyphenated compound whose every part is known.

use vstd::prelude::*;
use crate::text::{
    contains_char, contains_chars, has_prefix, is_alphabetic_char, lit, str_chars,
    to_lowercase_chars, contains_seq, starts_with, lower_str, uc_alphabetic, uc_uppercase,
    is_uppercase_char, sub_chars, chars_vec, append_chars, chars_to_string,
};
use crate::strset::{item_views, StringSet};
use crate::speller::Speller;
use crate::dict::Dictionary;
use crate::fsa::{header_check, parsed_from, FsaError};
use crate::dict::info_settings;
use vstd::string::StringSliceAdditionalSpecFns;
use crate::analyzed::{
    char_index, char_index_exec, lemma_char_index_bounds, sentence_view, AnalyzedTokenReadings,
    TokenV,
};
use crate::grammar::{GrammarMatch, GrammarMatchV, gm_views};
use crate::text::{
    lines, lines_chars, trim, trim_chars, split_on, split_chars, uc_whitespace,
    is_whitespace_char, string_chars,
};
use vstd::utf8::encode_utf8;
use crate::xml::string_views;

verus! {

/// A URL, e-mail address, mention or hashtag/cashtag.
pub open spec fn spec_url_or_email(w: Seq<char>) -> bool {
    let lw = lower_str(w);
    ||| w.contains('@')
    ||| (w.len() > 0 && (w[0] == '#' || w[0] == '$'))
    ||| contains_seq(lw, "://"@)
    ||| starts_with(lw, "www."@)
    ||| starts_with(lw, "ftp."@)
    ||| starts_with(lw, "mailto:"@)
}

/// A token worth spell-checking: it holds a letter and is no URL or e-mail.
pub open spec fn spec_candidate(w: Seq<char>) -> bool {
    (exists|i: int| 0 <= i < w.len() && uc_alphabetic(#[trigger] w[i])) && !spec_url_or_email(w)
}

pub fn url_or_email_chars(w: &[char]) -> (r: bool)
    ensures
        r == spec_url_or_email(w@),
{
    if contains_char(w, '@') {
        return true;
    }
    if w.len() > 0 && (w[0] == '#' || w[0] == '$') {
        return true;
    }
    let lw = to_lowercase_chars(w);
    contains_chars(&lw, &lit("://")) || has_prefix(&lw, &lit("www.")) || has_prefix(
        &lw,
        &lit("ftp."),
    ) || has_prefix(&lw, &lit("mailto:"))
}

/// Whether `w` is a URL, e-mail address, mention or hashtag/cashtag.
pub fn is_url_or_email(w: &str) -> (r: bool)
    ensures
        r == spec_url_or_email(w@),
{
    url_or_email_chars(&str_chars(w))
}

pub fn has_letter(w: &[char]) -> (r: bool)
    ensures
        r == exists|i: int| 0 <= i < w@.len() && uc_alphabetic(#[trigger] w@[i]),
{
    let mut i: usize = 0;
    while i < w.len()
        invariant
            i <= w.len(),
            forall|k: int| 0 <= k < i ==> !uc_alphabetic(#[trigger] w@[k]),
        decreases w.len() - i,
    {
        if is_alphabetic_char(w[i]) {
            return true;
        }
        i += 1;
    }
    false
}

pub fn candidate_chars(w: &[char]) -> (r: bool)
    ensures
        r == spec_candidate(w@),
{
    has_letter(w) && !url_or_email_chars(w)
}

/// Whether `w` should be spell-checked at all.
pub fn is_candidate(w: &str) -> (r: bool)
    ensures
        r == spec_candidate(w@),
{
    candidate_chars(&str_chars(w))
}

// ---------------------------------------------------------------------------
// Candidates at edit distance one
// ---------------------------------------------------------------------------

pub open spec fn lower_az() -> Seq<char> {
    seq![
        'a', 'b', 'c', 'd', 'e', 'f', 'g', 'h', 'i', 'j', 'k', 'l', 'm', 'n', 'o', 'p', 'q', 'r',
        's', 't', 'u', 'v', 'w', 'x', 'y', 'z',
    ]
}

pub open spec fn upper_az() -> Seq<char> {
    seq![
        'A', 'B', 'C', 'D', 'E', 'F', 'G', 'H', 'I', 'J', 'K', 'L', 'M', 'N', 'O', 'P', 'Q', 'R',
        'S', 'T', 'U', 'V', 'W', 'X', 'Y', 'Z',
    ]
}

/// `alpha` followed by the characters of `s` it lacks, in order, each once.
pub open spec fn add_new(alpha: Seq<char>, s: Seq<char>) -> Seq<char>
    decreases s.len(),
{
    if s.len() == 0 {
        alpha
    } else {
        add_new(
            if alpha.contains(s[0]) {
                alpha
            } else {
                alpha.push(s[0])
            },
            s.drop_first(),
        )
    }
}

/// The letters tried: `a`..`z`, the word's own letters, and `A`..`Z` when the
/// word starts with an uppercase letter.
pub open spec fn edit_alphabet(w: Seq<char>) -> Seq<char> {
    let a1 = add_new(lower_az(), w);
    if w.len() > 0 && uc_uppercase(w[0]) {
        add_new(a1, upper_az())
    } else {
        a1
    }
}

pub open spec fn deletions(w: Seq<char>) -> Seq<Seq<char>> {
    Seq::new(w.len(), |i: int| w.take(i) + w.skip(i + 1))
}

pub open spec fn transpositions(w: Seq<char>) -> Seq<Seq<char>> {
    Seq::new(
        if w.len() > 0 {
            (w.len() - 1) as nat
        } else {
            0
        },
        |i: int| w.update(i, w[i + 1]).update(i + 1, w[i]),
    )
}

/// Position `i` replaced by each of the first `k` letters that differ from it.
pub open spec fn repl_row(w: Seq<char>, alpha: Seq<char>, i: int, k: int) -> Seq<Seq<char>>
    decreases k,
{
    if k <= 0 {
        Seq::empty()
    } else {
        repl_row(w, alpha, i, k - 1) + if alpha[k - 1] != w[i] {
            seq![w.update(i, alpha[k - 1])]
        } else {
            Seq::empty()
        }
    }
}

/// The replacements at positions `0..i`.
pub open spec fn replacements(w: Seq<char>, alpha: Seq<char>, i: int) -> Seq<Seq<char>>
    decreases i,
{
    if i <= 0 {
        Seq::empty()
    } else {
        replacements(w, alpha, i - 1) + repl_row(w, alpha, i - 1, alpha.len() as int)
    }
}

pub open spec fn ins_row(w: Seq<char>, alpha: Seq<char>, i: int) -> Seq<Seq<char>> {
    Seq::new(alpha.len(), |k: int| w.take(i).push(alpha[k]) + w.skip(i))
}

/// The insertions before positions `0..i`.
pub open spec fn insertions(w: Seq<char>, alpha: Seq<char>, i: int) -> Seq<Seq<char>>
    decreases i,
{
    if i <= 0 {
        Seq::empty()
    } else {
        insertions(w, alpha, i - 1) + ins_row(w, alpha, i - 1)
    }
}

/// Deletions, transpositions, replacements, then insertions.
pub open spec fn spec_edits1(w: Seq<char>) -> Seq<Seq<char>> {
    let a = edit_alphabet(w);
    deletions(w) + transpositions(w) + replacements(w, a, w.len() as int) + insertions(
        w,
        a,
        w.len() + 1 as int,
    )
}

fn add_new_exec(alpha: &mut Vec<char>, s: &[char])
    ensures
        final(alpha)@ == add_new(old(alpha)@, s@),
{
    let ghost target = add_new(alpha@, s@);
    let mut i: usize = 0;
    assert(s@.skip(0) =~= s@);
    while i < s.len()
        invariant
            i <= s@.len(),
            add_new(alpha@, s@.skip(i as int)) == target,
        decreases s.len() - i,
    {
        assert(s@.skip(i as int)[0] == s@[i as int]);
        assert(s@.skip(i as int).drop_first() =~= s@.skip(i + 1));
        if !contains_char(alpha, s[i]) {
            alpha.push(s[i]);
        }
        i += 1;
    }
    assert(s@.skip(i as int) =~= Seq::<char>::empty());
}

fn edit_alphabet_exec(w: &[char]) -> (r: Vec<char>)
    ensures
        r@ == edit_alphabet(w@),
{
    let mut a = vec![
        'a', 'b', 'c', 'd', 'e', 'f', 'g', 'h', 'i', 'j', 'k', 'l', 'm', 'n', 'o', 'p', 'q', 'r',
        's', 't', 'u', 'v', 'w', 'x', 'y', 'z',
    ];
    assert(a@ =~= lower_az());
    add_new_exec(&mut a, w);
    if w.len() > 0 && is_uppercase_char(w[0]) {
        let upper = vec![
            'A', 'B', 'C', 'D', 'E', 'F', 'G', 'H', 'I', 'J', 'K', 'L', 'M', 'N', 'O', 'P', 'Q',
            'R', 'S', 'T', 'U', 'V', 'W', 'X', 'Y', 'Z',
        ];
        assert(upper@ =~= upper_az());
        add_new_exec(&mut a, &upper);
    }
    a
}

fn push_item(out: &mut Vec<Vec<char>>, item: Vec<char>)
    ensures
        item_views(final(out)@) == item_views(old(out)@).push(item@),
{
    out.push(item);
    assert(item_views(out@) =~= item_views(old(out)@).push(item@));
}

/// Each letter inserted before position `i`.
fn push_insertions(out: &mut Vec<Vec<char>>, chars: &Vec<char>, alpha: &Vec<char>, i: usize)
    requires
        i <= chars@.len(),
    ensures
        item_views(final(out)@) == item_views(old(out)@) + ins_row(chars@, alpha@, i as int),
{
    let ghost before = item_views(out@);
    let n = chars.len();
    let mut k: usize = 0;
    while k < alpha.len()
        invariant
            i <= n == chars@.len(),
            k <= alpha@.len(),
            item_views(out@) == before + ins_row(chars@, alpha@, i as int).take(k as int),
        decreases alpha.len() - k,
    {
        let mut c = sub_chars(chars, 0, i);
        c.push(alpha[k]);
        append_chars(&mut c, &sub_chars(chars, i, n));
        push_item(out, c);
        assert(ins_row(chars@, alpha@, i as int).take(k + 1) =~= ins_row(chars@, alpha@, i as int).take(
            k as int,
        ).push(chars@.take(i as int).push(alpha@[k as int]) + chars@.skip(i as int)));
        k += 1;
    }
    assert(ins_row(chars@, alpha@, i as int).take(k as int) =~= ins_row(chars@, alpha@, i as int));
}

/// All words at edit distance one from `w`: each deletion, each swap of
/// neighbours, each replacement by another letter of [`edit_alphabet`], and
/// each insertion of such a letter, in that order.
pub fn edits1(w: &str) -> (r: Vec<String>)
    ensures
        string_views(r@) == spec_edits1(w@),
{
    let chars = str_chars(w);
    let n = chars.len();
    let alpha = edit_alphabet_exec(&chars);
    let ghost wv = chars@;
    let ghost av = alpha@;
    let mut out: Vec<Vec<char>> = Vec::new();
    let mut i: usize = 0;
    while i < n
        invariant
            i <= n == wv.len(),
            wv == chars@,
            item_views(out@) == deletions(wv).take(i as int),
        decreases n - i,
    {
        let mut d = sub_chars(&chars, 0, i);
        append_chars(&mut d, &sub_chars(&chars, i + 1, n));
        assert(d@ == wv.take(i as int) + wv.skip(i + 1));
        push_item(&mut out, d);
        assert(deletions(wv).take(i + 1) =~= deletions(wv).take(i as int).push(
            wv.take(i as int) + wv.skip(i + 1),
        ));
        i += 1;
    }
    assert(deletions(wv).take(n as int) =~= deletions(wv));
    let ghost p1 = item_views(out@);
    let m: usize = if n > 0 {
        n - 1
    } else {
        0
    };
    let mut i: usize = 0;
    while i < m
        invariant
            i <= m,
            m == transpositions(wv).len(),
            n == wv.len(),
            wv == chars@,
            item_views(out@) == p1 + transpositions(wv).take(i as int),
        decreases m - i,
    {
        let mut t = chars_vec(&chars);
        let a = chars[i];
        let b = chars[i + 1];
        t.set(i, b);
        t.set(i + 1, a);
        push_item(&mut out, t);
        assert(transpositions(wv).take(i + 1) =~= transpositions(wv).take(i as int).push(
            wv.update(i as int, wv[i + 1]).update(i + 1, wv[i as int]),
        ));
        i += 1;
    }
    assert(transpositions(wv).take(m as int) =~= transpositions(wv));
    let ghost p2 = item_views(out@);
    let mut i: usize = 0;
    while i < n
        invariant
            i <= n == wv.len(),
            wv == chars@,
            av == alpha@,
            item_views(out@) == p2 + replacements(wv, av, i as int),
        decreases n - i,
    {
        let ghost before = item_views(out@);
        let mut k: usize = 0;
        while k < alpha.len()
            invariant
                i < n == wv.len(),
                k <= av.len(),
                wv == chars@,
                av == alpha@,
                item_views(out@) == before + repl_row(wv, av, i as int, k as int),
            decreases alpha.len() - k,
        {
            if alpha[k] != chars[i] {
                let mut c = chars_vec(&chars);
                c.set(i, alpha[k]);
                push_item(&mut out, c);
            }
            assert(repl_row(wv, av, i as int, k + 1) =~= repl_row(wv, av, i as int, k as int) + if av[k as int] != wv[i as int] {
                seq![wv.update(i as int, av[k as int])]
            } else {
                Seq::empty()
            });
            k += 1;
        }
        assert(replacements(wv, av, i + 1) =~= replacements(wv, av, i as int) + repl_row(
            wv,
            av,
            i as int,
            av.len() as int,
        ));
        i += 1;
    }
    let ghost p3 = item_views(out@);
    let mut i: usize = 0;
    while i < n
        invariant
            i <= n == wv.len(),
            wv == chars@,
            av == alpha@,
            item_views(out@) == p3 + insertions(wv, av, i as int),
        decreases n - i,
    {
        push_insertions(&mut out, &chars, &alpha, i);
        assert(insertions(wv, av, i + 1) =~= insertions(wv, av, i as int) + ins_row(
            wv,
            av,
            i as int,
        ));
        i += 1;
    }
    push_insertions(&mut out, &chars, &alpha, n);
    assert(insertions(wv, av, n + 1) =~= insertions(wv, av, n as int) + ins_row(wv, av, n as int));
    assert(item_views(out@) =~= spec_edits1(wv));
    strings_of_items(out)
}

/// The words as strings.
fn strings_of_items(v: Vec<Vec<char>>) -> (r: Vec<String>)
    ensures
        string_views(r@) == item_views(v@),
{
    let mut out: Vec<String> = Vec::new();
    let mut i: usize = 0;
    while i < v.len()
        invariant
            i <= v@.len(),
            string_views(out@) == item_views(v@).take(i as int),
        decreases v.len() - i,
    {
        let st = chars_to_string(&v[i]);
        let ghost o = string_views(out@);
        out.push(st);
        assert(string_views(out@) =~= o.push(st@));
        assert(item_views(v@).take(i + 1) =~= item_views(v@).take(i as int).push(v@[i as int]@));
        i += 1;
    }
    assert(item_views(v@).take(i as int) =~= item_views(v@));
    out
}

// ---------------------------------------------------------------------------
// Word lists
// ---------------------------------------------------------------------------

/// The word a word-list line contributes: the first tab-separated field of the
/// trimmed line, trimmed, when it is one nonempty word; blank lines and `#`
/// comments contribute nothing.
pub open spec fn list_entry(line: Seq<char>) -> Option<Seq<char>> {
    let t = trim(line);
    if t.len() == 0 || t[0] == '#' {
        None
    } else {
        let w = trim(split_on(t, '\t')[0]);
        if one_word(w) {
            Some(w)
        } else {
            None
        }
    }
}

/// Nonempty, without whitespace.
pub open spec fn one_word(w: Seq<char>) -> bool {
    w.len() > 0 && forall|i: int| 0 <= i < w.len() ==> !uc_whitespace(#[trigger] w[i])
}

/// The words a word-list text contributes.
pub open spec fn listed_words(text: Seq<char>) -> Set<Seq<char>> {
    Set::new(|w: Seq<char>| exists|i: int| 0 <= i < lines(text).len() && list_entry(#[trigger] lines(text)[i]) == Some(w))
}

/// The whitespace-separated words of `rest`, `cur` being the word under way.
pub open spec fn words_acc(cur: Seq<char>, rest: Seq<char>) -> Seq<Seq<char>>
    decreases rest.len(),
{
    if rest.len() == 0 {
        if cur.len() > 0 {
            seq![cur]
        } else {
            Seq::empty()
        }
    } else if uc_whitespace(rest[0]) {
        (if cur.len() > 0 {
            seq![cur]
        } else {
            Seq::empty()
        }) + words_acc(Seq::empty(), rest.drop_first())
    } else {
        words_acc(cur.push(rest[0]), rest.drop_first())
    }
}

/// `str::split_whitespace`.
pub open spec fn spec_words(s: Seq<char>) -> Seq<Seq<char>> {
    words_acc(Seq::empty(), s)
}

/// The term of a multiword line: the first tab-separated field, trimmed.
pub open spec fn multiword_term(line: Seq<char>) -> Option<Seq<char>> {
    let t = trim(line);
    if t.len() == 0 || t[0] == '#' {
        None
    } else {
        Some(trim(split_on(t, '\t')[0]))
    }
}

/// The capitalized words of the multiword terms.
pub open spec fn multiword_words(text: Seq<char>) -> Set<Seq<char>> {
    Set::new(
        |w: Seq<char>|
            exists|i: int, j: int|
                #![trigger lines(text)[i], spec_words(multiword_term(lines(text)[i])->0)[j]]
                0 <= i < lines(text).len() && multiword_term(lines(text)[i]) is Some && 0 <= j
                    < spec_words(multiword_term(lines(text)[i])->0).len() && spec_words(
                    multiword_term(lines(text)[i])->0,
                )[j] == w && w.len() > 0 && uc_uppercase(w[0]),
    )
}

fn list_entry_exec(line: &[char]) -> (r: Option<Vec<char>>)
    ensures
        match r {
            Some(w) => list_entry(line@) == Some(w@),
            None => list_entry(line@) is None,
        },
{
    let t = trim_chars(line);
    if t.len() == 0 || t[0] == '#' {
        return None;
    }
    let fields = split_chars(&t, '\t');
    proof {
        crate::text::lemma_split_on_nonempty(t@, '\t');
    }
    assert(fields@.map_values(|v: Vec<char>| v@)[0] == fields@[0]@);
    let w = trim_chars(&fields[0]);
    assert(w@ == trim(split_on(trim(line@), '\t')[0]));
    if w.len() == 0 {
        return None;
    }
    let mut i: usize = 0;
    while i < w.len()
        invariant
            i <= w@.len(),
            forall|k: int| 0 <= k < i ==> !uc_whitespace(#[trigger] w@[k]),
            w@ == trim(split_on(trim(line@), '\t')[0]),
            trim(line@).len() > 0 && trim(line@)[0] != '#',
        decreases w.len() - i,
    {
        if is_whitespace_char(w[i]) {
            assert(!one_word(w@)) by {
                assert(uc_whitespace(w@[i as int]));
            }
            return None;
        }
        i += 1;
    }
    Some(w)
}

/// Adds the words of a word-list text (`ignore.txt`, `spelling.txt`,
/// `prohibit.txt`): one entry per line, blank lines and `#` comments skipped,
/// the first tab-separated field taken, phrases left out.
pub fn add_word_list(text: &str, set: &mut StringSet)
    ensures
        final(set)@ == old(set)@.union(listed_words(text@)),
{
    let ls = lines_chars(&str_chars(text));
    let ghost lv = lines(text@);
    let ghost s0 = set@;
    let mut i: usize = 0;
    while i < ls.len()
        invariant
            i <= ls@.len(),
            ls@.map_values(|v: Vec<char>| v@) == lv,
            lv == lines(text@),
            set@ == s0.union(Set::new(|w: Seq<char>| exists|k: int| 0 <= k < i && list_entry(#[trigger] lv[k]) == Some(w))),
        decreases ls.len() - i,
    {
        assert(ls@.map_values(|v: Vec<char>| v@)[i as int] == ls@[i as int]@);
        let ghost before = set@;
        match list_entry_exec(&ls[i]) {
            Some(w) => {
                set.insert_chars(&w);
            },
            None => {},
        }
        assert(set@ =~= s0.union(Set::new(|w: Seq<char>| exists|k: int| 0 <= k < i + 1 && list_entry(#[trigger] lv[k]) == Some(w)))) by {
            assert forall|w: Seq<char>| (exists|k: int| 0 <= k < i + 1 && list_entry(#[trigger] lv[k]) == Some(w)) implies set@.contains(w) by {
                let k = choose|k: int| 0 <= k < i + 1 && list_entry(#[trigger] lv[k]) == Some(w);
                if k < i {
                    assert(before.contains(w));
                }
            }
        }
        i += 1;
    }
    assert(set@ =~= s0.union(listed_words(text@)));
}

/// `str::split_whitespace` on characters.
pub fn words_chars(s: &[char]) -> (r: Vec<Vec<char>>)
    ensures
        item_views(r@) == spec_words(s@),
{
    let mut out: Vec<Vec<char>> = Vec::new();
    let mut cur: Vec<char> = Vec::new();
    let mut i: usize = 0;
    assert(s@.skip(0) =~= s@);
    while i < s.len()
        invariant
            i <= s@.len(),
            item_views(out@) + words_acc(cur@, s@.skip(i as int)) == spec_words(s@),
        decreases s.len() - i,
    {
        let ghost rest = s@.skip(i as int);
        assert(rest[0] == s@[i as int]);
        assert(rest.drop_first() =~= s@.skip(i + 1));
        if is_whitespace_char(s[i]) {
            if cur.len() > 0 {
                let ghost o = item_views(out@);
                let ghost c = cur@;
                push_item(&mut out, cur);
                cur = Vec::new();
                assert(o + (seq![c] + words_acc(Seq::empty(), rest.drop_first())) =~= item_views(out@) + words_acc(cur@, rest.drop_first()));
            } else {
                assert(cur@ =~= Seq::<char>::empty());
                assert(Seq::<Seq<char>>::empty() + words_acc(Seq::empty(), rest.drop_first()) =~= words_acc(cur@, rest.drop_first()));
            }
        } else {
            cur.push(s[i]);
        }
        i += 1;
    }
    assert(s@.skip(i as int) =~= Seq::<char>::empty());
    if cur.len() > 0 {
        let ghost o = item_views(out@);
        push_item(&mut out, cur);
    } else {
        assert(item_views(out@) + Seq::<Seq<char>>::empty() =~= item_views(out@));
    }
    out
}

fn multiword_term_exec(line: &[char]) -> (r: Option<Vec<char>>)
    ensures
        match r {
            Some(w) => multiword_term(line@) == Some(w@),
            None => multiword_term(line@) is None,
        },
{
    let t = trim_chars(line);
    if t.len() == 0 || t[0] == '#' {
        return None;
    }
    let fields = split_chars(&t, '\t');
    proof {
        crate::text::lemma_split_on_nonempty(t@, '\t');
    }
    assert(fields@.map_values(|v: Vec<char>| v@)[0] == fields@[0]@);
    Some(trim_chars(&fields[0]))
}

/// Adds the capitalized words of each term of a `multiwords.txt` text
/// (`term<TAB>tag`, blank lines and `#` comments skipped).
pub fn add_multiwords(text: &str, set: &mut StringSet)
    ensures
        final(set)@ == old(set)@.union(multiword_words(text@)),
{
    let ls = lines_chars(&str_chars(text));
    let ghost lv = lines(text@);
    let ghost s0 = set@;
    let mut i: usize = 0;
    while i < ls.len()
        invariant
            i <= ls@.len(),
            ls@.map_values(|v: Vec<char>| v@) == lv,
            lv == lines(text@),
            set@ == s0.union(Set::new(|w: Seq<char>| exists|k: int, j: int|
                #![trigger lv[k], spec_words(multiword_term(lv[k])->0)[j]]
                0 <= k < i && multiword_term(lv[k]) is Some && 0 <= j
                    < spec_words(multiword_term(lv[k])->0).len() && spec_words(
                    multiword_term(lv[k])->0,
                )[j] == w && w.len() > 0 && uc_uppercase(w[0]))),
        decreases ls.len() - i,
    {
        assert(ls@.map_values(|v: Vec<char>| v@)[i as int] == ls@[i as int]@);
        let ghost before = set@;
        match multiword_term_exec(&ls[i]) {
            Some(term) => {
                let ws = words_chars(&term);
                let mut j: usize = 0;
                while j < ws.len()
                    invariant
                        i < lv.len(),
                        j <= ws@.len(),
                        item_views(ws@) == spec_words(term@),
                        multiword_term(lv[i as int]) == Some(term@),
                        set@ == before.union(Set::new(|w: Seq<char>| exists|q: int| 0 <= q < j && spec_words(term@)[q] == w && w.len() > 0 && uc_uppercase(w[0]))),
                    decreases ws.len() - j,
                {
                    assert(item_views(ws@)[j as int] == ws@[j as int]@);
                    let ghost b2 = set@;
                    if ws[j].len() > 0 && is_uppercase_char(ws[j][0]) {
                        set.insert_chars(&ws[j]);
                    }
                    assert(set@ =~= before.union(Set::new(|w: Seq<char>| exists|q: int| 0 <= q < j + 1 && spec_words(term@)[q] == w && w.len() > 0 && uc_uppercase(w[0])))) by {
                        assert forall|w: Seq<char>| (exists|q: int| 0 <= q < j + 1 && spec_words(term@)[q] == w && w.len() > 0 && uc_uppercase(w[0])) implies set@.contains(w) by {
                            let q = choose|q: int| 0 <= q < j + 1 && spec_words(term@)[q] == w && w.len() > 0 && uc_uppercase(w[0]);
                            if q < j {
                                assert(b2.contains(w));
                            }
                        }
                    }
                    j += 1;
                }
                assert(set@ =~= s0.union(Set::new(|w: Seq<char>| exists|k: int, j: int|
                    #![trigger lv[k], spec_words(multiword_term(lv[k])->0)[j]]
                    0 <= k < i + 1 && multiword_term(lv[k]) is Some && 0 <= j
                        < spec_words(multiword_term(lv[k])->0).len() && spec_words(
                        multiword_term(lv[k])->0,
                    )[j] == w && w.len() > 0 && uc_uppercase(w[0])))) by {
                    assert forall|w: Seq<char>| set@.contains(w) implies s0.contains(w) || exists|k: int, j: int|
                        #![trigger lv[k], spec_words(multiword_term(lv[k])->0)[j]]
                        0 <= k < i + 1 && multiword_term(lv[k]) is Some && 0 <= j
                            < spec_words(multiword_term(lv[k])->0).len() && spec_words(
                            multiword_term(lv[k])->0,
                        )[j] == w && w.len() > 0 && uc_uppercase(w[0]) by {
                        if !before.contains(w) {
                            let q = choose|q: int| 0 <= q < ws@.len() && spec_words(term@)[q] == w && w.len() > 0 && uc_uppercase(w[0]);
                            assert(lv[i as int] == lv[i as int] && spec_words(multiword_term(lv[i as int])->0)[q] == w);
                        }
                    }
                    assert forall|w: Seq<char>| (exists|k: int, j: int|
                        #![trigger lv[k], spec_words(multiword_term(lv[k])->0)[j]]
                        0 <= k < i + 1 && multiword_term(lv[k]) is Some && 0 <= j
                            < spec_words(multiword_term(lv[k])->0).len() && spec_words(
                            multiword_term(lv[k])->0,
                        )[j] == w && w.len() > 0 && uc_uppercase(w[0])) implies set@.contains(w) by {
                        let (k, q) = choose|k: int, j: int|
                            #![trigger lv[k], spec_words(multiword_term(lv[k])->0)[j]]
                            0 <= k < i + 1 && multiword_term(lv[k]) is Some && 0 <= j
                                < spec_words(multiword_term(lv[k])->0).len() && spec_words(
                                multiword_term(lv[k])->0,
                            )[j] == w && w.len() > 0 && uc_uppercase(w[0]);
                        if k < i {
                            assert(before.contains(w));
                        }
                    }
                }
            },
            None => {
                assert(set@ =~= s0.union(Set::new(|w: Seq<char>| exists|k: int, j: int|
                    #![trigger lv[k], spec_words(multiword_term(lv[k])->0)[j]]
                    0 <= k < i + 1 && multiword_term(lv[k]) is Some && 0 <= j
                        < spec_words(multiword_term(lv[k])->0).len() && spec_words(
                        multiword_term(lv[k])->0,
                    )[j] == w && w.len() > 0 && uc_uppercase(w[0])))) by {
                    assert forall|w: Seq<char>| (exists|k: int, j: int|
                        #![trigger lv[k], spec_words(multiword_term(lv[k])->0)[j]]
                        0 <= k < i + 1 && multiword_term(lv[k]) is Some && 0 <= j
                            < spec_words(multiword_term(lv[k])->0).len() && spec_words(
                            multiword_term(lv[k])->0,
                        )[j] == w && w.len() > 0 && uc_uppercase(w[0])) implies set@.contains(w) by {
                        let (k, q) = choose|k: int, j: int|
                            #![trigger lv[k], spec_words(multiword_term(lv[k])->0)[j]]
                            0 <= k < i + 1 && multiword_term(lv[k]) is Some && 0 <= j
                                < spec_words(multiword_term(lv[k])->0).len() && spec_words(
                                multiword_term(lv[k])->0,
                            )[j] == w && w.len() > 0 && uc_uppercase(w[0]);
                        if k < i {
                            assert(before.contains(w));
                        }
                    }
                }
            },
        }
        i += 1;
    }
    assert(set@ =~= s0.union(multiword_words(text@)));
}

// ---------------------------------------------------------------------------
// Suggestions
// ---------------------------------------------------------------------------

pub open spec fn found_view(v: Seq<(i32, String)>) -> Seq<(i32, Seq<char>)> {
    v.map_values(|p: (i32, String)| (p.0, p.1@))
}

pub open spec fn found_names(f: Seq<(i32, Seq<char>)>) -> Seq<Seq<char>> {
    f.map_values(|p: (i32, Seq<char>)| p.1)
}

/// A candidate is kept, with its frequency, when it is another word, not kept
/// yet, and in the dictionary.
pub open spec fn consider(d: Dictionary, w: Seq<char>, f: Seq<(i32, Seq<char>)>, c: Seq<char>) -> Seq<
    (i32, Seq<char>),
> {
    if c != w && !found_names(f).contains(c) && d.spec_contains(encode_utf8(c)) {
        f.push((d.spec_frequency(encode_utf8(c)), c))
    } else {
        f
    }
}

/// Every candidate considered in turn.
pub open spec fn collect_all(d: Dictionary, w: Seq<char>, f: Seq<(i32, Seq<char>)>, cs: Seq<Seq<char>>) -> Seq<
    (i32, Seq<char>),
>
    decreases cs.len(),
{
    if cs.len() == 0 {
        f
    } else {
        collect_all(d, w, consider(d, w, f, cs[0]), cs.drop_first())
    }
}

/// The candidates at edit distance one of each word of `es`, in order.
pub open spec fn flat_edits(es: Seq<Seq<char>>) -> Seq<Seq<char>>
    decreases es.len(),
{
    if es.len() == 0 {
        Seq::empty()
    } else {
        spec_edits1(es[0]) + flat_edits(es.drop_first())
    }
}

/// Candidates considered in turn, stopping once `budget` of them have been,
/// or once twelve are kept.
pub open spec fn collect_bounded(
    d: Dictionary,
    w: Seq<char>,
    f: Seq<(i32, Seq<char>)>,
    cs: Seq<Seq<char>>,
    budget: int,
) -> Seq<(i32, Seq<char>)>
    decreases cs.len(),
{
    if cs.len() == 0 {
        f
    } else {
        let g = consider(d, w, f, cs[0]);
        if budget - 1 == 0 || g.len() >= 12 {
            g
        } else {
            collect_bounded(d, w, g, cs.drop_first(), budget - 1)
        }
    }
}

/// The dictionary words found at distance one, or, when there are none, at
/// distance two within a budget of 400000 candidates.
pub open spec fn spec_found(d: Dictionary, w: Seq<char>) -> Seq<(i32, Seq<char>)> {
    let e1 = spec_edits1(w);
    let f1 = collect_all(d, w, Seq::empty(), e1);
    if f1.len() == 0 {
        collect_bounded(d, w, f1, flat_edits(e1), 400000)
    } else {
        f1
    }
}

/// Lexicographic order of code points (the order of `String`).
pub open spec fn lex_lt(a: Seq<char>, b: Seq<char>) -> bool
    decreases a.len(),
{
    if a.len() == 0 {
        b.len() > 0
    } else if b.len() == 0 {
        false
    } else if a[0] != b[0] {
        (a[0] as u32) < (b[0] as u32)
    } else {
        lex_lt(a.drop_first(), b.drop_first())
    }
}

/// `a` ranks before `b`: more frequent, or as frequent and alphabetically first.
pub open spec fn rank_before(a: (i32, Seq<char>), b: (i32, Seq<char>)) -> bool {
    a.0 > b.0 || (a.0 == b.0 && lex_lt(a.1, b.1))
}

pub open spec fn rank_insert(s: Seq<(i32, Seq<char>)>, m: (i32, Seq<char>)) -> Seq<(i32, Seq<char>)>
    decreases s.len(),
{
    if s.len() == 0 {
        seq![m]
    } else if rank_before(m, s.last()) {
        rank_insert(s.drop_last(), m).push(s.last())
    } else {
        s.push(m)
    }
}

/// The stable sort by rank.
pub open spec fn rank_sort(v: Seq<(i32, Seq<char>)>) -> Seq<(i32, Seq<char>)>
    decreases v.len(),
{
    if v.len() == 0 {
        Seq::empty()
    } else {
        rank_insert(rank_sort(v.drop_last()), v.last())
    }
}

/// At most eight suggestions for `w`, best ranked first.
pub open spec fn spec_suggest(d: Dictionary, w: Seq<char>) -> Seq<Seq<char>> {
    let sorted = rank_sort(spec_found(d, w));
    found_names(sorted.take(if sorted.len() < 8 { sorted.len() as int } else { 8 }))
}

/// Every kept candidate is another word than `w` and a word of the dictionary.
pub open spec fn all_good(d: Dictionary, w: Seq<char>, f: Seq<(i32, Seq<char>)>) -> bool {
    forall|i: int|
        0 <= i < f.len() ==> (#[trigger] f[i]).1 != w && d.spec_contains(encode_utf8(f[i].1))
}

proof fn lemma_consider_good(d: Dictionary, w: Seq<char>, f: Seq<(i32, Seq<char>)>, c: Seq<char>)
    requires
        all_good(d, w, f),
    ensures
        all_good(d, w, consider(d, w, f, c)),
{
    let g = consider(d, w, f, c);
    assert forall|i: int| 0 <= i < g.len() implies (#[trigger] g[i]).1 != w && d.spec_contains(
        encode_utf8(g[i].1),
    ) by {
        if i < f.len() {
            assert(g[i] == f[i]);
        }
    }
}

proof fn lemma_collect_all_good(
    d: Dictionary,
    w: Seq<char>,
    f: Seq<(i32, Seq<char>)>,
    cs: Seq<Seq<char>>,
)
    requires
        all_good(d, w, f),
    ensures
        all_good(d, w, collect_all(d, w, f, cs)),
    decreases cs.len(),
{
    if cs.len() > 0 {
        lemma_consider_good(d, w, f, cs[0]);
        lemma_collect_all_good(d, w, consider(d, w, f, cs[0]), cs.drop_first());
    }
}

proof fn lemma_collect_bounded_good(
    d: Dictionary,
    w: Seq<char>,
    f: Seq<(i32, Seq<char>)>,
    cs: Seq<Seq<char>>,
    budget: int,
)
    requires
        all_good(d, w, f),
    ensures
        all_good(d, w, collect_bounded(d, w, f, cs, budget)),
    decreases cs.len(),
{
    if cs.len() > 0 {
        lemma_consider_good(d, w, f, cs[0]);
        lemma_collect_bounded_good(d, w, consider(d, w, f, cs[0]), cs.drop_first(), budget - 1);
    }
}

proof fn lemma_rank_sort_good(d: Dictionary, w: Seq<char>, v: Seq<(i32, Seq<char>)>)
    requires
        all_good(d, w, v),
    ensures
        all_good(d, w, rank_sort(v)),
    decreases v.len(),
{
    if v.len() > 0 {
        let rest = v.drop_last();
        assert(all_good(d, w, rest)) by {
            assert forall|i: int| 0 <= i < rest.len() implies (#[trigger] rest[i]).1 != w
                && d.spec_contains(encode_utf8(rest[i].1)) by {
                assert(rest[i] == v[i]);
            }
        }
        assert(v.last() == v[v.len() - 1]);
        lemma_rank_sort_good(d, w, rest);
        lemma_rank_insert_good(d, w, rank_sort(rest), v.last());
    }
}

proof fn lemma_rank_insert_good(
    d: Dictionary,
    w: Seq<char>,
    s: Seq<(i32, Seq<char>)>,
    m: (i32, Seq<char>),
)
    requires
        all_good(d, w, s),
        m.1 != w && d.spec_contains(encode_utf8(m.1)),
    ensures
        all_good(d, w, rank_insert(s, m)),
    decreases s.len(),
{
    if s.len() > 0 {
        let rest = s.drop_last();
        assert(all_good(d, w, rest)) by {
            assert forall|i: int| 0 <= i < rest.len() implies (#[trigger] rest[i]).1 != w
                && d.spec_contains(encode_utf8(rest[i].1)) by {
                assert(rest[i] == s[i]);
            }
        }
        assert(s.last() == s[s.len() - 1]);
        let r = rank_insert(s, m);
        if rank_before(m, s.last()) {
            lemma_rank_insert_good(d, w, rest, m);
            let t = rank_insert(rest, m);
            assert forall|i: int| 0 <= i < r.len() implies (#[trigger] r[i]).1 != w
                && d.spec_contains(encode_utf8(r[i].1)) by {
                if i < t.len() {
                    assert(r[i] == t[i]);
                }
            }
        } else {
            assert forall|i: int| 0 <= i < r.len() implies (#[trigger] r[i]).1 != w
                && d.spec_contains(encode_utf8(r[i].1)) by {
                if i < s.len() {
                    assert(r[i] == s[i]);
                }
            }
        }
    }
}

/// No two kept candidates have the same word.
pub open spec fn names_distinct(f: Seq<(i32, Seq<char>)>) -> bool {
    forall|i: int, j: int| 0 <= i < j < f.len() ==> (#[trigger] f[i]).1 != (#[trigger] f[j]).1
}

proof fn lemma_push_distinct(f: Seq<(i32, Seq<char>)>, e: (i32, Seq<char>))
    requires
        names_distinct(f),
        !found_names(f).contains(e.1),
    ensures
        names_distinct(f.push(e)),
{
    let g = f.push(e);
    assert forall|i: int, j: int| 0 <= i < j < g.len() implies (#[trigger] g[i]).1 != (
    #[trigger] g[j]).1 by {
        assert(g[i] == f[i]);
        if j < f.len() {
            assert(g[j] == f[j]);
        } else {
            assert(found_names(f)[i] == f[i].1);
        }
    }
}

proof fn lemma_drop_last_distinct(f: Seq<(i32, Seq<char>)>)
    requires
        names_distinct(f),
        f.len() > 0,
    ensures
        names_distinct(f.drop_last()),
        !found_names(f.drop_last()).contains(f.last().1),
{
    let r = f.drop_last();
    assert forall|i: int, j: int| 0 <= i < j < r.len() implies (#[trigger] r[i]).1 != (
    #[trigger] r[j]).1 by {
        assert(r[i] == f[i]);
        assert(r[j] == f[j]);
    }
    if found_names(r).contains(f.last().1) {
        let i = choose|i: int| 0 <= i < found_names(r).len() && found_names(r)[i] == f.last().1;
        assert(r[i] == f[i]);
        assert(f.last() == f[f.len() - 1]);
    }
}

proof fn lemma_consider_distinct(d: Dictionary, w: Seq<char>, f: Seq<(i32, Seq<char>)>, c: Seq<char>)
    requires
        names_distinct(f),
    ensures
        names_distinct(consider(d, w, f, c)),
{
    if c != w && !found_names(f).contains(c) && d.spec_contains(encode_utf8(c)) {
        lemma_push_distinct(f, (d.spec_frequency(encode_utf8(c)), c));
    }
}

proof fn lemma_collect_all_distinct(
    d: Dictionary,
    w: Seq<char>,
    f: Seq<(i32, Seq<char>)>,
    cs: Seq<Seq<char>>,
)
    requires
        names_distinct(f),
    ensures
        names_distinct(collect_all(d, w, f, cs)),
    decreases cs.len(),
{
    if cs.len() > 0 {
        lemma_consider_distinct(d, w, f, cs[0]);
        lemma_collect_all_distinct(d, w, consider(d, w, f, cs[0]), cs.drop_first());
    }
}

proof fn lemma_collect_bounded_distinct(
    d: Dictionary,
    w: Seq<char>,
    f: Seq<(i32, Seq<char>)>,
    cs: Seq<Seq<char>>,
    budget: int,
)
    requires
        names_distinct(f),
    ensures
        names_distinct(collect_bounded(d, w, f, cs, budget)),
    decreases cs.len(),
{
    if cs.len() > 0 {
        lemma_consider_distinct(d, w, f, cs[0]);
        lemma_collect_bounded_distinct(d, w, consider(d, w, f, cs[0]), cs.drop_first(), budget - 1);
    }
}

/// The words after an insertion are those before it and the inserted one.
proof fn lemma_rank_insert_names(s: Seq<(i32, Seq<char>)>, m: (i32, Seq<char>), x: Seq<char>)
    ensures
        found_names(rank_insert(s, m)).contains(x) ==> found_names(s).contains(x) || m.1 == x,
    decreases s.len(),
{
    let r = rank_insert(s, m);
    if found_names(r).contains(x) {
        let i = choose|i: int| 0 <= i < found_names(r).len() && found_names(r)[i] == x;
        assert(r[i].1 == x);
        if s.len() == 0 {
            assert(r[i] == m);
        } else {
            let rest = s.drop_last();
            assert(s.last() == s[s.len() - 1]);
            if rank_before(m, s.last()) {
                let t = rank_insert(rest, m);
                if i < t.len() {
                    assert(r[i] == t[i]);
                    assert(found_names(t)[i] == x);
                    lemma_rank_insert_names(rest, m, x);
                    if found_names(rest).contains(x) {
                        let j = choose|j: int| 0 <= j < found_names(rest).len() && found_names(rest)[j] == x;
                        assert(rest[j] == s[j]);
                        assert(found_names(s)[j] == x);
                    }
                } else {
                    assert(r[i] == s.last());
                    assert(found_names(s)[s.len() - 1] == x);
                }
            } else {
                if i < s.len() {
                    assert(r[i] == s[i]);
                    assert(found_names(s)[i] == x);
                } else {
                    assert(r[i] == m);
                }
            }
        }
    }
}

proof fn lemma_rank_insert_distinct(s: Seq<(i32, Seq<char>)>, m: (i32, Seq<char>))
    requires
        names_distinct(s),
        !found_names(s).contains(m.1),
    ensures
        names_distinct(rank_insert(s, m)),
    decreases s.len(),
{
    if s.len() == 0 {
        lemma_push_distinct(s, m);
        assert(rank_insert(s, m) =~= s.push(m));
    } else if rank_before(m, s.last()) {
        let rest = s.drop_last();
        lemma_drop_last_distinct(s);
        if found_names(rest).contains(m.1) {
            let j = choose|j: int| 0 <= j < found_names(rest).len() && found_names(rest)[j] == m.1;
            assert(rest[j] == s[j]);
            assert(found_names(s)[j] == m.1);
        }
        lemma_rank_insert_distinct(rest, m);
        let t = rank_insert(rest, m);
        lemma_rank_insert_names(rest, m, s.last().1);
        assert(s.last() == s[s.len() - 1]);
        assert(found_names(s)[s.len() - 1] == s.last().1);
        lemma_push_distinct(t, s.last());
    } else {
        lemma_push_distinct(s, m);
    }
}

proof fn lemma_rank_sort_names(v: Seq<(i32, Seq<char>)>, x: Seq<char>)
    ensures
        found_names(rank_sort(v)).contains(x) ==> found_names(v).contains(x),
    decreases v.len(),
{
    if v.len() > 0 {
        let rest = v.drop_last();
        lemma_rank_insert_names(rank_sort(rest), v.last(), x);
        lemma_rank_sort_names(rest, x);
        if found_names(rank_sort(v)).contains(x) {
            assert(v.last() == v[v.len() - 1]);
            if found_names(rest).contains(x) {
                let j = choose|j: int| 0 <= j < found_names(rest).len() && found_names(rest)[j] == x;
                assert(rest[j] == v[j]);
                assert(found_names(v)[j] == x);
            } else {
                assert(found_names(v)[v.len() - 1] == x);
            }
        }
    }
}

proof fn lemma_rank_sort_distinct(v: Seq<(i32, Seq<char>)>)
    requires
        names_distinct(v),
    ensures
        names_distinct(rank_sort(v)),
    decreases v.len(),
{
    if v.len() > 0 {
        let rest = v.drop_last();
        lemma_drop_last_distinct(v);
        lemma_rank_sort_distinct(rest);
        lemma_rank_sort_names(rest, v.last().1);
        lemma_rank_insert_distinct(rank_sort(rest), v.last());
    }
}

/// At most eight suggestions, none of them the word itself, each a word of
/// the dictionary, and no word twice.
pub proof fn lemma_suggestions(d: Dictionary, w: Seq<char>)
    ensures
        spec_suggest(d, w).len() <= 8,
        spec_suggest(d, w).no_duplicates(),
        forall|i: int|
            0 <= i < spec_suggest(d, w).len() ==> #[trigger] spec_suggest(d, w)[i] != w
                && d.spec_contains(encode_utf8(spec_suggest(d, w)[i])),
{
    let e1 = spec_edits1(w);
    let f1 = collect_all(d, w, Seq::empty(), e1);
    lemma_collect_all_good(d, w, Seq::empty(), e1);
    lemma_collect_all_distinct(d, w, Seq::empty(), e1);
    if f1.len() == 0 {
        lemma_collect_bounded_good(d, w, f1, flat_edits(e1), 400000);
        lemma_collect_bounded_distinct(d, w, f1, flat_edits(e1), 400000);
    }
    let found = spec_found(d, w);
    lemma_rank_sort_good(d, w, found);
    lemma_rank_sort_distinct(found);
    let sorted = rank_sort(found);
    let n: int = if sorted.len() < 8 {
        sorted.len() as int
    } else {
        8
    };
    let top = sorted.take(n);
    assert forall|i: int| 0 <= i < spec_suggest(d, w).len() implies #[trigger] spec_suggest(d, w)[i]
        != w && d.spec_contains(encode_utf8(spec_suggest(d, w)[i])) by {
        assert(top[i] == sorted[i]);
        assert(spec_suggest(d, w)[i] == top[i].1);
    }
    let r = spec_suggest(d, w);
    assert forall|i: int, j: int| 0 <= i < r.len() && 0 <= j < r.len() && i != j implies r[i]
        != r[j] by {
        assert(r[i] == top[i].1 && top[i] == sorted[i]);
        assert(r[j] == top[j].1 && top[j] == sorted[j]);
        if i < j {
            assert(sorted[i].1 != sorted[j].1);
        } else {
            assert(sorted[j].1 != sorted[i].1);
        }
    }
}

/// The frequency the dictionary stores for word `x`.
pub open spec fn word_frequency(d: Dictionary, x: Seq<char>) -> i32 {
    d.spec_frequency(encode_utf8(x))
}

/// Every kept candidate carries its word's stored frequency.
pub open spec fn freqs_ok(d: Dictionary, f: Seq<(i32, Seq<char>)>) -> bool {
    forall|i: int| 0 <= i < f.len() ==> (#[trigger] f[i]).0 == word_frequency(d, f[i].1)
}

proof fn lemma_consider_freqs(d: Dictionary, w: Seq<char>, f: Seq<(i32, Seq<char>)>, c: Seq<char>)
    requires
        freqs_ok(d, f),
    ensures
        freqs_ok(d, consider(d, w, f, c)),
{
    let g = consider(d, w, f, c);
    assert forall|i: int| 0 <= i < g.len() implies (#[trigger] g[i]).0 == word_frequency(d, g[i].1) by {
        if i < f.len() {
            assert(g[i] == f[i]);
        }
    }
}

proof fn lemma_collect_all_freqs(d: Dictionary, w: Seq<char>, f: Seq<(i32, Seq<char>)>, cs: Seq<Seq<char>>)
    requires
        freqs_ok(d, f),
    ensures
        freqs_ok(d, collect_all(d, w, f, cs)),
    decreases cs.len(),
{
    if cs.len() > 0 {
        lemma_consider_freqs(d, w, f, cs[0]);
        lemma_collect_all_freqs(d, w, consider(d, w, f, cs[0]), cs.drop_first());
    }
}

proof fn lemma_collect_bounded_freqs(
    d: Dictionary,
    w: Seq<char>,
    f: Seq<(i32, Seq<char>)>,
    cs: Seq<Seq<char>>,
    budget: int,
)
    requires
        freqs_ok(d, f),
    ensures
        freqs_ok(d, collect_bounded(d, w, f, cs, budget)),
    decreases cs.len(),
{
    if cs.len() > 0 {
        lemma_consider_freqs(d, w, f, cs[0]);
        lemma_collect_bounded_freqs(d, w, consider(d, w, f, cs[0]), cs.drop_first(), budget - 1);
    }
}

/// What holds of every entry of `s` and of `m` holds of every entry of their
/// ranked insertion.
proof fn lemma_rank_insert_all(
    s: Seq<(i32, Seq<char>)>,
    m: (i32, Seq<char>),
    p: spec_fn((i32, Seq<char>)) -> bool,
)
    requires
        forall|i: int| 0 <= i < s.len() ==> p(#[trigger] s[i]),
        p(m),
    ensures
        forall|i: int| 0 <= i < rank_insert(s, m).len() ==> p(#[trigger] rank_insert(s, m)[i]),
    decreases s.len(),
{
    let r = rank_insert(s, m);
    if s.len() > 0 {
        let rest = s.drop_last();
        assert forall|i: int| 0 <= i < rest.len() implies p(#[trigger] rest[i]) by {
            assert(rest[i] == s[i]);
        }
        assert(s.last() == s[s.len() - 1]);
        if rank_before(m, s.last()) {
            lemma_rank_insert_all(rest, m, p);
            let t = rank_insert(rest, m);
            assert forall|i: int| 0 <= i < r.len() implies p(#[trigger] r[i]) by {
                if i < t.len() {
                    assert(r[i] == t[i]);
                }
            }
        } else {
            assert forall|i: int| 0 <= i < r.len() implies p(#[trigger] r[i]) by {
                if i < s.len() {
                    assert(r[i] == s[i]);
                }
            }
        }
    } else {
        assert(r =~= seq![m]);
    }
}

proof fn lemma_rank_sort_all(v: Seq<(i32, Seq<char>)>, p: spec_fn((i32, Seq<char>)) -> bool)
    requires
        forall|i: int| 0 <= i < v.len() ==> p(#[trigger] v[i]),
    ensures
        forall|i: int| 0 <= i < rank_sort(v).len() ==> p(#[trigger] rank_sort(v)[i]),
        rank_sort(v).len() == v.len(),
    decreases v.len(),
{
    if v.len() > 0 {
        let rest = v.drop_last();
        assert forall|i: int| 0 <= i < rest.len() implies p(#[trigger] rest[i]) by {
            assert(rest[i] == v[i]);
        }
        assert(v.last() == v[v.len() - 1]);
        lemma_rank_sort_all(rest, p);
        lemma_rank_insert_all(rank_sort(rest), v.last(), p);
        lemma_rank_insert_len(rank_sort(rest), v.last());
    }
}

proof fn lemma_rank_insert_len(s: Seq<(i32, Seq<char>)>, m: (i32, Seq<char>))
    ensures
        rank_insert(s, m).len() == s.len() + 1,
    decreases s.len(),
{
    if s.len() > 0 && rank_before(m, s.last()) {
        lemma_rank_insert_len(s.drop_last(), m);
    }
}

/// Code-point order is total on different strings.
proof fn lemma_lex_total(a: Seq<char>, b: Seq<char>)
    ensures
        a != b ==> lex_lt(a, b) || lex_lt(b, a),
        !(lex_lt(a, b) && lex_lt(b, a)),
    decreases a.len(),
{
    if a.len() > 0 && b.len() > 0 && a[0] == b[0] {
        lemma_lex_total(a.drop_first(), b.drop_first());
        if a.drop_first() == b.drop_first() {
            assert(a =~= b) by {
                assert forall|i: int| 0 <= i < a.len() implies a[i] == b[i] by {
                    if i > 0 {
                        assert(a[i] == a.drop_first()[i - 1]);
                        assert(b[i] == b.drop_first()[i - 1]);
                    }
                }
            }
        }
    } else if a.len() > 0 && b.len() > 0 {
        vstd::utf8::char_is_scalar(a[0]);
        vstd::utf8::char_is_scalar(b[0]);
        vstd::utf8::char_u32_cast(a[0], a[0] as u32);
        vstd::utf8::char_u32_cast(b[0], b[0] as u32);
        assert((a[0] as u32) != (b[0] as u32));
    } else if a.len() == 0 && b.len() == 0 {
        assert(a =~= b);
    }
}

/// `a` may stand right before `b` in a ranked list.
pub open spec fn ranked_pair(a: (i32, Seq<char>), b: (i32, Seq<char>)) -> bool {
    a.0 > b.0 || (a.0 == b.0 && !lex_lt(b.1, a.1))
}

pub open spec fn adjacent_ranked(s: Seq<(i32, Seq<char>)>) -> bool {
    forall|i: int| 0 <= i < s.len() - 1 ==> ranked_pair(#[trigger] s[i], s[i + 1])
}

proof fn lemma_rank_insert_sorted(s: Seq<(i32, Seq<char>)>, m: (i32, Seq<char>))
    requires
        adjacent_ranked(s),
    ensures
        adjacent_ranked(rank_insert(s, m)),
        s.len() > 0 ==> rank_insert(s, m).last() == m || rank_insert(s, m).last() == s.last(),
        s.len() == 0 ==> rank_insert(s, m).last() == m,
    decreases s.len(),
{
    let r = rank_insert(s, m);
    lemma_rank_insert_len(s, m);
    if s.len() == 0 {
        assert(r =~= seq![m]);
    } else {
        let rest = s.drop_last();
        let l = s.last();
        assert(l == s[s.len() - 1]);
        assert forall|i: int| 0 <= i < rest.len() - 1 implies ranked_pair(#[trigger] rest[i], rest[i + 1]) by {
            assert(rest[i] == s[i]);
            assert(rest[i + 1] == s[i + 1]);
        }
        if rank_before(m, l) {
            lemma_rank_insert_sorted(rest, m);
            let t = rank_insert(rest, m);
            lemma_rank_insert_len(rest, m);
            lemma_lex_total(m.1, l.1);
            if rest.len() > 0 {
                assert(rest.last() == s[s.len() - 2]);
            }
            assert(ranked_pair(t.last(), l));
            assert forall|i: int| 0 <= i < r.len() - 1 implies ranked_pair(#[trigger] r[i], r[i + 1]) by {
                if i < t.len() - 1 {
                    assert(r[i] == t[i]);
                    assert(r[i + 1] == t[i + 1]);
                } else {
                    assert(r[i] == t.last());
                    assert(r[i + 1] == l);
                }
            }
        } else {
            assert forall|i: int| 0 <= i < r.len() - 1 implies ranked_pair(#[trigger] r[i], r[i + 1]) by {
                if i < s.len() - 1 {
                    assert(r[i] == s[i]);
                    assert(r[i + 1] == s[i + 1]);
                } else {
                    assert(r[i] == l);
                    assert(r[i + 1] == m);
                }
            }
        }
    }
}

proof fn lemma_rank_sort_sorted(v: Seq<(i32, Seq<char>)>)
    ensures
        adjacent_ranked(rank_sort(v)),
    decreases v.len(),
{
    if v.len() > 0 {
        lemma_rank_sort_sorted(v.drop_last());
        lemma_rank_insert_sorted(rank_sort(v.drop_last()), v.last());
    } else {
        assert(rank_sort(v) =~= Seq::<(i32, Seq<char>)>::empty());
    }
}

/// Along a ranked list the first component never grows.
proof fn lemma_ranked_freq(s: Seq<(i32, Seq<char>)>, i: int, j: int)
    requires
        adjacent_ranked(s),
        0 <= i <= j < s.len(),
    ensures
        s[i].0 >= s[j].0,
    decreases j - i,
{
    if i < j {
        assert(ranked_pair(s[j - 1], s[j]));
        lemma_ranked_freq(s, i, j - 1);
    }
}

proof fn lemma_rank_insert_has(s: Seq<(i32, Seq<char>)>, m: (i32, Seq<char>), x: Seq<char>)
    ensures
        (found_names(s).contains(x) || m.1 == x) ==> found_names(rank_insert(s, m)).contains(x),
    decreases s.len(),
{
    let r = rank_insert(s, m);
    lemma_rank_insert_len(s, m);
    if found_names(s).contains(x) || m.1 == x {
        if s.len() == 0 {
            assert(r =~= seq![m]);
            assert(found_names(r)[0] == x);
        } else {
            let rest = s.drop_last();
            let t = rank_insert(rest, m);
            if rank_before(m, s.last()) {
                lemma_rank_insert_len(rest, m);
                if s.last().1 == x {
                    assert(r[r.len() - 1] == s.last());
                    assert(found_names(r)[r.len() - 1] == x);
                } else {
                    if found_names(s).contains(x) {
                        let j = choose|j: int| 0 <= j < found_names(s).len() && found_names(s)[j] == x;
                        if j == s.len() - 1 {
                            assert(s[j] == s.last());
                        }
                        assert(rest[j] == s[j]);
                        assert(found_names(rest)[j] == x);
                    }
                    lemma_rank_insert_has(rest, m, x);
                    let k = choose|k: int| 0 <= k < found_names(t).len() && found_names(t)[k] == x;
                    assert(r[k] == t[k]);
                    assert(found_names(r)[k] == x);
                }
            } else {
                if m.1 == x {
                    assert(r[r.len() - 1] == m);
                    assert(found_names(r)[r.len() - 1] == x);
                } else {
                    let j = choose|j: int| 0 <= j < found_names(s).len() && found_names(s)[j] == x;
                    assert(r[j] == s[j]);
                    assert(found_names(r)[j] == x);
                }
            }
        }
    }
}

proof fn lemma_rank_sort_has(v: Seq<(i32, Seq<char>)>, x: Seq<char>)
    ensures
        found_names(v).contains(x) ==> found_names(rank_sort(v)).contains(x),
    decreases v.len(),
{
    if v.len() > 0 && found_names(v).contains(x) {
        let rest = v.drop_last();
        let j = choose|j: int| 0 <= j < found_names(v).len() && found_names(v)[j] == x;
        if j < rest.len() {
            assert(rest[j] == v[j]);
            assert(found_names(rest)[j] == x);
        } else {
            assert(v.last() == v[j]);
        }
        lemma_rank_sort_has(rest, x);
        lemma_rank_insert_has(rank_sort(rest), v.last(), x);
    }
}

/// Suggestions come most frequent first, equally frequent ones in code-point
/// order; each is a candidate found near the word; and a found candidate is
/// left out only when eight suggestions are given, each at least as frequent
/// as it.
pub proof fn lemma_suggestions_ranked(d: Dictionary, w: Seq<char>)
    ensures
        ({
            let s = spec_suggest(d, w);
            let found = found_names(spec_found(d, w));
            &&& forall|i: int|
                0 <= i < s.len() - 1 ==> word_frequency(d, #[trigger] s[i]) >= word_frequency(d, s[i + 1])
                    && (word_frequency(d, s[i]) == word_frequency(d, s[i + 1]) ==> lex_lt(s[i], s[i + 1]))
            &&& forall|i: int| 0 <= i < s.len() ==> found.contains(#[trigger] s[i])
            &&& forall|c: Seq<char>|
                #[trigger] found.contains(c) && !s.contains(c) ==> s.len() == 8 && forall|i: int|
                    0 <= i < s.len() ==> word_frequency(d, #[trigger] s[i]) >= word_frequency(d, c)
        }),
{
    let e1 = spec_edits1(w);
    let f1 = collect_all(d, w, Seq::empty(), e1);
    lemma_collect_all_freqs(d, w, Seq::empty(), e1);
    lemma_collect_all_distinct(d, w, Seq::empty(), e1);
    if f1.len() == 0 {
        lemma_collect_bounded_freqs(d, w, f1, flat_edits(e1), 400000);
        lemma_collect_bounded_distinct(d, w, f1, flat_edits(e1), 400000);
    }
    let found = spec_found(d, w);
    let p = |e: (i32, Seq<char>)| e.0 == word_frequency(d, e.1);
    assert forall|i: int| 0 <= i < found.len() implies p(#[trigger] found[i]) by {}
    lemma_rank_sort_all(found, p);
    lemma_rank_sort_distinct(found);
    lemma_rank_sort_sorted(found);
    let sorted = rank_sort(found);
    let n: int = if sorted.len() < 8 {
        sorted.len() as int
    } else {
        8
    };
    let s = spec_suggest(d, w);
    assert(s.len() == n);
    assert forall|i: int| 0 <= i < s.len() implies s[i] == sorted[i].1 && sorted[i].0 == word_frequency(d, s[i]) by {
        assert(p(sorted[i]));
    }
    assert forall|i: int| 0 <= i < s.len() - 1 implies word_frequency(d, #[trigger] s[i]) >= word_frequency(
        d,
        s[i + 1],
    ) && (word_frequency(d, s[i]) == word_frequency(d, s[i + 1]) ==> lex_lt(s[i], s[i + 1])) by {
        assert(ranked_pair(sorted[i], sorted[i + 1]));
        assert(sorted[i].1 != sorted[i + 1].1);
        lemma_lex_total(sorted[i].1, sorted[i + 1].1);
    }
    assert forall|i: int| 0 <= i < s.len() implies found_names(found).contains(#[trigger] s[i]) by {
        assert(found_names(sorted)[i] == s[i]);
        lemma_rank_sort_names(found, s[i]);
    }
    assert forall|c: Seq<char>| #[trigger] found_names(found).contains(c) && !s.contains(c) implies s.len() == 8
        && forall|i: int| 0 <= i < s.len() ==> word_frequency(d, #[trigger] s[i]) >= word_frequency(d, c) by {
        lemma_rank_sort_has(found, c);
        let j = choose|j: int| 0 <= j < found_names(sorted).len() && found_names(sorted)[j] == c;
        if j < n {
            assert(s[j] == c);
        }
        assert(p(sorted[j]));
        assert forall|i: int| 0 <= i < s.len() implies word_frequency(d, #[trigger] s[i]) >= word_frequency(d, c) by {
            lemma_ranked_freq(sorted, i, j);
        }
    }
}

proof fn lemma_rank_insert_at(s: Seq<(i32, Seq<char>)>, m: (i32, Seq<char>), j: int)
    requires
        0 <= j <= s.len(),
        forall|k: int| j <= k < s.len() ==> rank_before(m, #[trigger] s[k]),
        j == 0 || !rank_before(m, s[j - 1]),
    ensures
        rank_insert(s, m) == s.subrange(0, j) + seq![m] + s.subrange(j, s.len() as int),
    decreases s.len(),
{
    if s.len() == 0 {
        assert(s.subrange(0, j) + seq![m] + s.subrange(j, s.len() as int) =~= seq![m]);
    } else if j == s.len() {
        assert(s.subrange(0, j) + seq![m] + s.subrange(j, s.len() as int) =~= s.push(m));
    } else {
        assert(rank_before(m, s[s.len() - 1]));
        assert(s.last() == s[s.len() - 1]);
        let t = s.drop_last();
        assert forall|k: int| j <= k < t.len() implies rank_before(m, #[trigger] t[k]) by {
            assert(t[k] == s[k]);
        }
        if j > 0 {
            assert(t[j - 1] == s[j - 1]);
        }
        lemma_rank_insert_at(t, m, j);
        assert(t.subrange(0, j) + seq![m] + t.subrange(j, t.len() as int) + seq![s.last()]
            =~= s.subrange(0, j) + seq![m] + s.subrange(j, s.len() as int));
    }
}

fn lex_lt_exec(a: &[char], b: &[char]) -> (r: bool)
    ensures
        r == lex_lt(a@, b@),
{
    let mut i: usize = 0;
    assert(a@.skip(0) =~= a@);
    assert(b@.skip(0) =~= b@);
    while i < a.len() && i < b.len() && a[i] == b[i]
        invariant
            i <= a@.len(),
            i <= b@.len(),
            lex_lt(a@, b@) == lex_lt(a@.skip(i as int), b@.skip(i as int)),
        decreases a.len() - i,
    {
        assert(a@.skip(i as int).drop_first() =~= a@.skip(i + 1));
        assert(b@.skip(i as int).drop_first() =~= b@.skip(i + 1));
        i += 1;
    }
    if i == a.len() {
        i < b.len()
    } else if i == b.len() {
        false
    } else {
        assert(a@.skip(i as int)[0] == a@[i as int]);
        assert(b@.skip(i as int)[0] == b@[i as int]);
        (a[i] as u32) < (b[i] as u32)
    }
}

fn rank_before_exec(a: &(i32, String), b: &(i32, String)) -> (r: bool)
    ensures
        r == rank_before((a.0, a.1@), (b.0, b.1@)),
{
    a.0 > b.0 || (a.0 == b.0 && lex_lt_exec(&string_chars(&a.1), &string_chars(&b.1)))
}

/// The stable sort by rank.
fn sort_found(v: Vec<(i32, String)>) -> (r: Vec<(i32, String)>)
    ensures
        found_view(r@) == rank_sort(found_view(v@)),
{
    let ghost orig = found_view(v@);
    let mut rest = v;
    let mut sorted: Vec<(i32, String)> = Vec::new();
    let ghost mut taken: int = 0;
    while rest.len() > 0
        invariant
            0 <= taken <= orig.len(),
            found_view(rest@) == orig.subrange(taken, orig.len() as int),
            found_view(sorted@) == rank_sort(orig.subrange(0, taken)),
        decreases rest.len(),
    {
        let ghost r0 = rest@;
        assert(found_view(r0).len() == r0.len());
        let m = rest.remove(0);
        let ghost mv = (m.0, m.1@);
        assert(mv == orig[taken]) by {
            assert(found_view(r0)[0] == (r0[0].0, r0[0].1@));
            assert(orig.subrange(taken, orig.len() as int)[0] == orig[taken]);
        }
        let mut j = sorted.len();
        while j > 0 && rank_before_exec(&m, &sorted[j - 1])
            invariant
                j <= sorted@.len(),
                forall|k: int| j <= k < sorted@.len() ==> rank_before(mv, #[trigger] found_view(sorted@)[k]),
                mv == (m.0, m.1@),
            decreases j,
        {
            j -= 1;
        }
        let ghost sv = found_view(sorted@);
        proof {
            if j > 0 {
                assert(sv[j - 1] == (sorted@[j - 1].0, sorted@[j - 1].1@));
            }
            lemma_rank_insert_at(sv, mv, j as int);
        }
        sorted.insert(j, m);
        proof {
            assert(found_view(sorted@) =~= sv.subrange(0, j as int) + seq![mv] + sv.subrange(
                j as int,
                sv.len() as int,
            ));
            assert(orig.subrange(0, taken + 1).drop_last() =~= orig.subrange(0, taken));
            assert(orig.subrange(0, taken + 1).last() == orig[taken]);
            taken = taken + 1;
            assert(found_view(rest@) =~= orig.subrange(taken, orig.len() as int)) by {
                assert(found_view(rest@) =~= found_view(r0).drop_first());
                assert(orig.subrange(taken - 1, orig.len() as int).drop_first() =~= orig.subrange(
                    taken,
                    orig.len() as int,
                ));
            }
        }
    }
    assert(orig.subrange(0, taken) =~= orig);
    sorted
}

fn consider_exec(
    sp: &Speller,
    w: &[char],
    cand: &String,
    found: &mut Vec<(i32, String)>,
    seen: &mut StringSet,
)
    requires
        old(seen)@ == found_names(found_view(old(found)@)).to_set(),
    ensures
        found_view(final(found)@) == consider(sp.dictionary(), w@, found_view(old(found)@), cand@),
        final(seen)@ == found_names(found_view(final(found)@)).to_set(),
{
    let c = string_chars(cand);
    if !crate::text::chars_eq(&c, w) && !seen.contains_chars(&c) && sp.is_in_dictionary(
        cand.as_str(),
    ) {
        let ghost f0 = found_view(found@);
        seen.insert_chars(&c);
        let freq = sp.frequency(cand.as_str());
        found.push((freq, cand.clone()));
        assert(found_view(found@) =~= f0.push((freq, cand@)));
        assert(found_names(found_view(found@)) =~= found_names(f0).push(cand@));
        let ghost n0 = found_names(f0);
        let ghost n1 = found_names(found_view(found@));
        assert(n1.to_set() =~= n0.to_set().insert(cand@)) by {
            assert forall|x: Seq<char>| n0.to_set().insert(cand@).contains(x) implies n1.contains(x) by {
                if x == cand@ {
                    assert(n1[n0.len() as int] == x);
                } else {
                    let k = choose|k: int| 0 <= k < n0.len() && n0[k] == x;
                    assert(n1[k] == x);
                }
            }
            assert forall|x: Seq<char>| n1.contains(x) implies n0.to_set().insert(cand@).contains(x) by {
                let k = choose|k: int| 0 <= k < n1.len() && n1[k] == x;
                if k < n0.len() {
                    assert(n0[k] == x);
                }
            }
        }
    }
}

// ---------------------------------------------------------------------------
// The rule
// ---------------------------------------------------------------------------

/// The words of several word-list texts.
pub open spec fn texts_words(ts: Seq<Seq<char>>) -> Set<Seq<char>> {
    Set::new(|w: Seq<char>| exists|i: int| 0 <= i < ts.len() && #[trigger] listed_words(ts[i]).contains(w))
}

pub open spec fn str_views(ts: Seq<&str>) -> Seq<Seq<char>> {
    ts.map_values(|t: &str| t@)
}

/// The spelling rule: a speller, the words accepted besides, and the words
/// always flagged.
pub struct SpellRule {
    speller: Speller,
    ignore: StringSet,
    prohibit: StringSet,
}

impl SpellRule {
    pub closed spec fn speller_spec(self) -> Speller {
        self.speller
    }

    pub open spec fn dictionary(self) -> Dictionary {
        self.speller_spec().dictionary()
    }

    /// Words accepted as correct.
    pub closed spec fn ignored_set(self) -> Set<Seq<char>> {
        self.ignore@
    }

    /// Words always flagged.
    pub closed spec fn prohibited_set(self) -> Set<Seq<char>> {
        self.prohibit@
    }

    pub open spec fn spec_ignored(self, w: Seq<char>) -> bool {
        self.ignored_set().contains(w) || self.ignored_set().contains(lower_str(w))
    }

    pub open spec fn spec_known(self, w: Seq<char>) -> bool {
        w.len() > 0 && (self.spec_ignored(w) || !self.speller_spec().spec_misspelled(w))
    }

    pub open spec fn spec_hyphen_known(self, w: Seq<char>) -> bool {
        let p = split_on(w, '-');
        p.len() > 1 && forall|i: int| 0 <= i < p.len() ==> self.spec_known(#[trigger] p[i])
    }

    /// Whether a candidate word is flagged.
    pub open spec fn spec_flagged(self, w: Seq<char>) -> bool {
        if self.prohibited_set().contains(w) {
            true
        } else if !self.speller_spec().spec_misspelled(w) {
            false
        } else {
            !(w.contains('-') && self.spec_hyphen_known(w))
        }
    }

    /// A word of the accept lists is never reported; a prohibited word is
    /// reported wherever a word can be: a candidate that is not accepted,
    /// not the sentence start, and lying in the sentence text from a
    /// character boundary.
    pub proof fn lemma_accepted_and_prohibited(self, t: TokenV, text: Seq<char>, base: int)
        ensures
            self.spec_ignored(t.token) ==> self.spell_finding(t, text, base) is None,
            self.prohibited_set().contains(t.token) && !self.spec_ignored(t.token) && spec_candidate(
                t.token,
            ) && !t.is_sent_start && t.token.len() > 0 && t.start_pos + encode_utf8(t.token).len()
                <= encode_utf8(text).len() && char_index(text, t.start_pos) is Some
                ==> self.spell_finding(t, text, base) is Some,
    {
    }

    /// The finding for one token of the sentence `text` (token positions are
    /// byte offsets in it; `base` is the sentence's character offset in the
    /// whole text), if it is flagged. The finding's offset and length are in
    /// characters.
    pub open spec fn spell_finding(self, t: TokenV, text: Seq<char>, base: int) -> Option<GrammarMatchV> {
        if t.is_sent_start || t.token.len() == 0 {
            None
        } else if !spec_candidate(t.token) || self.spec_ignored(t.token) {
            None
        } else if !self.spec_flagged(t.token) {
            None
        } else if t.start_pos + encode_utf8(t.token).len() > encode_utf8(text).len() {
            None
        } else if char_index(text, t.start_pos) is None {
            None
        } else {
            Some(
                GrammarMatchV {
                    offset: base + char_index(text, t.start_pos)->0,
                    length: t.token.len() as int,
                    message: "Possible spelling mistake found."@,
                    replacements: spec_suggest(self.dictionary(), t.token),
                    rule_id: "MORFOLOGIK_RULE_EN_US"@,
                    category_id: "TYPOS"@,
                },
            )
        }
    }

    pub open spec fn spell_findings(self, toks: Seq<TokenV>, text: Seq<char>, base: int) -> Seq<GrammarMatchV>
        decreases toks.len(),
    {
        if toks.len() == 0 {
            Seq::empty()
        } else {
            self.spell_findings(toks.drop_last(), text, base) + match self.spell_finding(
                toks.last(),
                text,
                base,
            ) {
                Some(m) => seq![m],
                None => Seq::empty(),
            }
        }
    }

    /// Builds the rule from the dictionary bytes and `.info` text and the
    /// word-list texts: `ignore_texts` (`ignore.txt`, `spelling*.txt`) and the
    /// capitalized words of `multiwords_text` are accepted, the words of
    /// `prohibit_text` always flagged.
    pub fn load(
        dict_bytes: &[u8],
        info_text: &str,
        ignore_texts: &[&str],
        multiwords_text: &str,
        prohibit_text: &str,
    ) -> (r: Result<SpellRule, FsaError>)
        ensures
            match header_check(dict_bytes@) {
                Err(e) => r == Err::<SpellRule, FsaError>(e),
                Ok(_) => r is Ok && {
                    let sr = r->Ok_0;
                    &&& parsed_from(sr.dictionary().automaton(), dict_bytes@)
                    &&& (sr.dictionary().sep(), sr.dictionary().enc(), sr.dictionary().freq())
                        == info_settings(info_text@)
                    &&& sr.ignored_set() == texts_words(str_views(ignore_texts@)).union(
                        multiword_words(multiwords_text@),
                    )
                    &&& sr.prohibited_set() == listed_words(prohibit_text@)
                },
            },
    {
        let speller = match Speller::load(dict_bytes, info_text) {
            Ok(s) => s,
            Err(e) => return Err(e),
        };
        let mut ignore = StringSet::new();
        let ghost tv = str_views(ignore_texts@);
        let mut i: usize = 0;
        assert(ignore@ =~= texts_words(tv.take(0)));
        while i < ignore_texts.len()
            invariant
                i <= ignore_texts@.len(),
                tv == str_views(ignore_texts@),
                ignore@ == texts_words(tv.take(i as int)),
            decreases ignore_texts.len() - i,
        {
            add_word_list(ignore_texts[i], &mut ignore);
            assert(tv[i as int] == ignore_texts@[i as int]@);
            assert(ignore@ =~= texts_words(tv.take(i + 1))) by {
                assert(tv.take(i + 1)[i as int] == tv[i as int]);
                assert forall|w: Seq<char>| #[trigger] texts_words(tv.take(i + 1)).contains(w) implies ignore@.contains(w) by {
                    let k = choose|k: int| 0 <= k < i + 1 && #[trigger] listed_words(tv.take(i + 1)[k]).contains(w);
                    if k < i {
                        assert(tv.take(i + 1)[k] == tv.take(i as int)[k]);
                        assert(texts_words(tv.take(i as int)).contains(w));
                    }
                }
                assert forall|w: Seq<char>| ignore@.contains(w) implies #[trigger] texts_words(tv.take(i + 1)).contains(w) by {
                    if texts_words(tv.take(i as int)).contains(w) {
                        let k = choose|k: int| 0 <= k < i && #[trigger] listed_words(tv.take(i as int)[k]).contains(w);
                        assert(tv.take(i + 1)[k] == tv.take(i as int)[k]);
                    }
                }
            }
            i += 1;
        }
        assert(tv.take(i as int) =~= tv);
        add_multiwords(multiwords_text, &mut ignore);
        let mut prohibit = StringSet::new();
        add_word_list(prohibit_text, &mut prohibit);
        assert(prohibit@ =~= listed_words(prohibit_text@));
        Ok(SpellRule { speller, ignore, prohibit })
    }

    /// A word is ignored when it, or its lowercase form, is accepted.
    pub fn is_ignored(&self, w: &str) -> (r: bool)
        ensures
            r == self.spec_ignored(w@),
    {
        let c = str_chars(w);
        self.ignore.contains_chars(&c) || self.ignore.contains_chars(&to_lowercase_chars(&c))
    }

    /// A nonempty word that is accepted or spelled correctly.
    pub fn is_known(&self, w: &str) -> (r: bool)
        ensures
            r == self.spec_known(w@),
    {
        str_chars(w).len() > 0 && (self.is_ignored(w) || !self.speller.is_misspelled(w))
    }

    /// A hyphenated compound whose every part is known.
    pub fn hyphen_parts_known(&self, w: &str) -> (r: bool)
        ensures
            r == self.spec_hyphen_known(w@),
    {
        let parts = split_chars(&str_chars(w), '-');
        let ghost pv = parts@.map_values(|v: Vec<char>| v@);
        if parts.len() <= 1 {
            return false;
        }
        let mut i: usize = 0;
        while i < parts.len()
            invariant
                i <= parts@.len(),
                pv == parts@.map_values(|v: Vec<char>| v@),
                pv == split_on(w@, '-'),
                forall|k: int| 0 <= k < i ==> self.spec_known(#[trigger] pv[k]),
            decreases parts.len() - i,
        {
            assert(pv[i as int] == parts@[i as int]@);
            let p = chars_to_string(&parts[i]);
            if !self.is_known(p.as_str()) {
                return false;
            }
            i += 1;
        }
        true
    }

    /// At most eight dictionary words near `w`, most frequent first.
    pub fn suggest(&self, w: &str) -> (r: Vec<String>)
        ensures
            string_views(r@) == spec_suggest(self.dictionary(), w@),
    {
        let wc = str_chars(w);
        let ghost d = self.dictionary();
        let mut found: Vec<(i32, String)> = Vec::new();
        let mut seen = StringSet::new();
        assert(found_names(found_view(found@)).to_set() =~= Set::<Seq<char>>::empty());
        let e1 = edits1(w);
        let ghost e1v = string_views(e1@);
        let ghost f1 = collect_all(d, w@, Seq::empty(), e1v);
        let mut i: usize = 0;
        assert(e1v.skip(0) =~= e1v);
        assert(found_view(found@) =~= Seq::<(i32, Seq<char>)>::empty());
        while i < e1.len()
            invariant
                i <= e1@.len(),
                e1v == string_views(e1@),
                wc@ == w@,
                d == self.dictionary(),
                d == self.speller.dictionary(),
                collect_all(d, w@, found_view(found@), e1v.skip(i as int)) == f1,
                seen@ == found_names(found_view(found@)).to_set(),
            decreases e1.len() - i,
        {
            assert(e1v.skip(i as int)[0] == e1@[i as int]@);
            assert(e1v.skip(i as int).drop_first() =~= e1v.skip(i + 1));
            consider_exec(&self.speller, &wc, &e1[i], &mut found, &mut seen);
            i += 1;
        }
        assert(e1v.skip(i as int) =~= Seq::<Seq<char>>::empty());
        if found.len() == 0 {
            let ghost target = collect_bounded(d, w@, f1, flat_edits(e1v), 400000);
            let mut budget: usize = 400000;
            let mut done = false;
            let mut j: usize = 0;
            while j < e1.len() && !done
                invariant
                    j <= e1@.len(),
                    e1v == string_views(e1@),
                    wc@ == w@,
                    d == self.speller.dictionary(),
                    !done ==> budget > 0 && collect_bounded(
                        d,
                        w@,
                        found_view(found@),
                        flat_edits(e1v.skip(j as int)),
                        budget as int,
                    ) == target,
                    done ==> found_view(found@) == target,
                    seen@ == found_names(found_view(found@)).to_set(),
                decreases e1.len() - j,
            {
                let e2 = edits1(e1[j].as_str());
                let ghost e2v = string_views(e2@);
                let ghost tail = flat_edits(e1v.skip(j + 1));
                proof {
                    assert(e1v.skip(j as int)[0] == e1@[j as int]@);
                    assert(e1v.skip(j as int).drop_first() =~= e1v.skip(j + 1));
                    assert(e2v.skip(0) + tail =~= flat_edits(e1v.skip(j as int)));
                }
                let mut k: usize = 0;
                while k < e2.len() && !done
                    invariant
                        k <= e2@.len(),
                        e2v == string_views(e2@),
                        wc@ == w@,
                        d == self.speller.dictionary(),
                        !done ==> budget > 0 && collect_bounded(
                            d,
                            w@,
                            found_view(found@),
                            e2v.skip(k as int) + tail,
                            budget as int,
                        ) == target,
                        done ==> found_view(found@) == target,
                        seen@ == found_names(found_view(found@)).to_set(),
                    decreases e2.len() - k,
                {
                    proof {
                        assert((e2v.skip(k as int) + tail)[0] == e2@[k as int]@);
                        assert((e2v.skip(k as int) + tail).drop_first() =~= e2v.skip(k + 1) + tail);
                    }
                    consider_exec(&self.speller, &wc, &e2[k], &mut found, &mut seen);
                    budget -= 1;
                    if budget == 0 || found.len() >= 12 {
                        done = true;
                    }
                    k += 1;
                }
                proof {
                    if !done {
                        assert(e2v.skip(k as int) + tail =~= tail);
                    }
                }
                j += 1;
            }
            proof {
                if !done {
                    assert(e1v.skip(j as int) =~= Seq::<Seq<char>>::empty());
                }
            }
        }
        let sorted = sort_found(found);
        let ghost sv = found_view(sorted@);
        let n: usize = if sorted.len() < 8 {
            sorted.len()
        } else {
            8
        };
        let mut out: Vec<String> = Vec::new();
        let mut q: usize = 0;
        while q < n
            invariant
                q <= n <= sorted@.len(),
                sv == found_view(sorted@),
                string_views(out@) == found_names(sv.take(n as int)).take(q as int),
            decreases n - q,
        {
            let ghost o = string_views(out@);
            let name = sorted[q].1.clone();
            out.push(name);
            assert(string_views(out@) =~= o.push(name@));
            assert(found_names(sv.take(n as int)).take(q + 1) =~= found_names(sv.take(n as int)).take(
                q as int,
            ).push(sv[q as int].1));
            q += 1;
        }
        assert(found_names(sv.take(n as int)).take(q as int) =~= found_names(sv.take(n as int)));
        out
    }
}

impl SpellRule {
    /// Whether a candidate word is flagged: prohibited, or misspelled and not
    /// a compound of known parts.
    pub fn is_flagged(&self, w: &str) -> (r: bool)
        ensures
            r == self.spec_flagged(w@),
    {
        let c = str_chars(w);
        if self.prohibit.contains_chars(&c) {
            true
        } else if !self.speller.is_misspelled(w) {
            false
        } else {
            !(contains_char(&c, '-') && self.hyphen_parts_known(w))
        }
    }

    /// The flagged words of one analyzed sentence of `sentence_text`, whose
    /// first character is at `base` in the whole text.
    pub fn check_sentence(
        &self,
        tokens: &[AnalyzedTokenReadings],
        sentence_text: &str,
        base: usize,
    ) -> (r: Vec<GrammarMatch>)
        requires
            base + sentence_text@.len() <= usize::MAX,
        ensures
            gm_views(r@) == self.spell_findings(sentence_view(tokens@), sentence_text@, base as int),
    {
        let text = str_chars(sentence_text);
        let nbytes = sentence_text.as_bytes().len();
        let ghost toks = sentence_view(tokens@);
        let mut out: Vec<GrammarMatch> = Vec::new();
        let mut i: usize = 0;
        while i < tokens.len()
            invariant
                i <= tokens@.len(),
                toks == sentence_view(tokens@),
                text@ == sentence_text@,
                nbytes == encode_utf8(text@).len(),
                base + text@.len() <= usize::MAX,
                gm_views(out@) == self.spell_findings(toks.take(i as int), text@, base as int),
            decreases tokens.len() - i,
        {
            let tok = &tokens[i];
            let ghost tv = toks[i as int];
            assert(tv == crate::analyzed::token_view(*tok));
            assert(toks.take(i + 1).drop_last() =~= toks.take(i as int));
            assert(toks.take(i + 1).last() == tv);
            let ghost prev = gm_views(out@);
            let wc = string_chars(&tok.token);
            let w = tok.token.as_str();
            let wlen = w.as_bytes().len();
            let skip = tok.is_sent_start || wc.len() == 0 || !candidate_chars(&wc) || self.is_ignored(w)
                || !self.is_flagged(w) || tok.start_pos > nbytes || wlen > nbytes - tok.start_pos;
            let at = if skip {
                None
            } else {
                char_index_exec(&text, tok.start_pos)
            };
            if let Some(cs) = at {
                proof {
                    lemma_char_index_bounds(text@, tok.start_pos as int);
                }
                let m = GrammarMatch {
                    offset: base + cs,
                    length: wc.len(),
                    message: "Possible spelling mistake found.".to_owned(),
                    replacements: self.suggest(w),
                    rule_id: "MORFOLOGIK_RULE_EN_US".to_owned(),
                    category_id: "TYPOS".to_owned(),
                };
                out.push(m);
                assert(gm_views(out@) =~= prev.push(crate::grammar::gm_view(m)));
            } else {
                assert(self.spell_finding(tv, text@, base as int) is None);
            }
            i += 1;
        }
        assert(toks.take(i as int) =~= toks);
        out
    }
}

} // verus!
