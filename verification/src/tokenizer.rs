//! English word tokenizer: word-character runs or single other characters,
//! contraction splitting, hyphen handling, and URL / e-mail re-joining.
//!
//! A token holding `-` or an apostrophe is kept whole iff the tagger knows it
//! (or it is on a short allowlist); otherwise it is split at apostrophes. The
//! tagger is injected through [`WordTagger`].

use vstd::prelude::*;
use crate::regex::{compile, regex_captures, regex_compiles, regex_find_all, regex_is_match,
    CompiledRegex, RegexMatch, match_view, opt_view};
use crate::dict::{ascii_lower, chars_eq_ignore_ascii_case, eq_ignore_ascii_case};
use crate::text::{
    all_whitespace, chars_eq, chars_to_string, chars_vec, contains_char, is_whitespace_token,
    lit, str_chars, string_chars, sub_chars,
};
use crate::analyzed::{char_index, char_index_exec, lemma_char_index_bounds};

verus! {

/// The tagger dependency: does the dictionary recognise a word? Each
/// implementation names its answer to every word by `spec_is_tagged`; one
/// that does not define it is taken to recognise no word.
pub trait WordTagger {
    /// Whether the tagger recognises `word`.
    open spec fn spec_is_tagged(&self, word: Seq<char>) -> bool {
        false
    }

    fn is_tagged(&self, word: &str) -> (r: bool)
        ensures
            r == self.spec_is_tagged(word@),
    ;
}

/// A tagger that recognises nothing.
pub struct NullTagger;

impl WordTagger for NullTagger {
    open spec fn spec_is_tagged(&self, word: Seq<char>) -> bool {
        false
    }

    fn is_tagged(&self, _word: &str) -> (r: bool) {
        false
    }
}

/// The tagger's answers, as far as they were asked: a word maps to whether it
/// was recognised.
pub open spec fn known(answers: Map<Seq<char>, bool>, w: Seq<char>) -> bool {
    answers.contains_key(w) && answers[w]
}

/// The tagger's answer to every word.
pub open spec fn answers_of<T: WordTagger>(t: T) -> Map<Seq<char>, bool> {
    Map::new(|w: Seq<char>| true, |w: Seq<char>| t.spec_is_tagged(w))
}

/// `big` agrees with every answer recorded in `small`.
pub open spec fn extends(big: Map<Seq<char>, bool>, small: Map<Seq<char>, bool>) -> bool {
    forall|w: Seq<char>| #[trigger] small.contains_key(w) ==> big.contains_key(w) && big[w] == small[w]
}

/// Word-character runs, or any single other character.
pub const TOKEN_PATTERN: &'static str = "[±§©@€£¥\\$\\p{L}\\d\\-\\x{0300}-\\x{036F}\\x{00A8}°%‰‱&\\x{FFFD}\\x{00AD}\\x{00AC}\\x{FF0C}\\x{FF1F}]+|[^±§©@€£¥\\$\\p{L}\\d\\-\\x{0300}-\\x{036F}\\x{00A8}°%‰‱&\\x{FFFD}\\x{00AD}\\x{00AC}\\x{FF0C}\\x{FF1F}]";

/// Fixed contracted forms kept as one token.
pub const CONTRACTION_1: &'static str = "(?i)^(fo['']c['']sle|rec[''][ds]|OK['']d|cc[''][ds]|DJ['']d|[pd]m['']d|rsvp['']d)$";

/// `n't` negations.
pub const CONTRACTION_2: &'static str = "(?i)^(['']?)(are|is|were|was|do|does|did|have|has|had|wo|would|ca|could|sha|should|must|ai|ought|might|need|may|am|dare|das|dass|hai|used|use)(n['']t)$";

/// `'m`, `'re`, `'ll`, `'ve`, `'d`, `'s` endings.
pub const CONTRACTION_3: &'static str = "(?i)^(.+)(['']m|['']re|['']ll|['']ve|['']d|['']s)([''-]?)$";

/// `'t was` / `'t is` forms.
pub const CONTRACTION_4: &'static str = "(?i)^(['']t)(was|were|is)$";

/// Characters allowed inside a URL (`$-_` is a range).
pub const URL_CHARS: &'static str = "^[a-zA-ZÄÖÜäöü0-9/%$-_.+!*'(),?#~]+$";

/// A domain label.
pub const DOMAIN_CHARS: &'static str = "^[a-zA-Z0-9][a-zA-Z0-9-]+$";

/// An e-mail address.
pub const E_MAIL: &'static str = "(?<!:)@?\\b[a-zA-Z0-9.!#$%&'*+/=?^_`{|}~-]+@((\\[[0-9]{1,3}\\.[0-9]{1,3}\\.[0-9]{1,3}\\.[0-9]{1,3}\\])|(([a-zA-Z\\-0-9]+\\.)+[a-zA-Z]{2,}))\\b";

pub const APOSTYPEW: &'static str = "xxAPOSTYPEWxx";

pub const APOSTYPOG: &'static str = "xxAPOSTYPOGxx";

// ---------------------------------------------------------------------------
// Specification
// ---------------------------------------------------------------------------

/// Matches of `p` in `t` (none when `p` does not compile).
pub open spec fn find_spec(p: Seq<char>, t: Seq<char>) -> Seq<(int, int, Seq<char>)> {
    if regex_compiles(p) {
        regex_find_all(p, t)
    } else {
        Seq::empty()
    }
}

/// Whether `p` matches somewhere in `t`.
pub open spec fn match_spec(p: Seq<char>, t: Seq<char>) -> bool {
    regex_compiles(p) && regex_is_match(p, t) == Some(true)
}

/// Capture groups of `p` on `t`.
pub open spec fn caps_spec(p: Seq<char>, t: Seq<char>) -> Option<Seq<Option<Seq<char>>>> {
    if regex_compiles(p) {
        regex_captures(p, t)
    } else {
        None
    }
}

/// `s` with every `c` replaced by `to`.
pub open spec fn replace_char(s: Seq<char>, c: char, to: Seq<char>) -> Seq<char>
    decreases s.len(),
{
    if s.len() == 0 {
        Seq::empty()
    } else {
        (if s[0] == c {
            to
        } else {
            seq![s[0]]
        }) + replace_char(s.drop_first(), c, to)
    }
}

/// `s` with every leftmost non-overlapping `from` replaced by `to`.
pub open spec fn replace_str(s: Seq<char>, from: Seq<char>, to: Seq<char>) -> Seq<char>
    decreases s.len(),
{
    if s.len() == 0 {
        Seq::empty()
    } else if from.len() > 0 && from.len() <= s.len() && s.subrange(0, from.len() as int)
        == from {
        to + replace_str(s.skip(from.len() as int), from, to)
    } else {
        seq![s[0]] + replace_str(s.drop_first(), from, to)
    }
}

/// Number of leading `-`.
pub open spec fn lead_hyphens(s: Seq<char>) -> nat
    decreases s.len(),
{
    if s.len() > 0 && s[0] == '-' {
        1 + lead_hyphens(s.drop_first())
    } else {
        0
    }
}

/// Number of trailing `-`.
pub open spec fn trail_hyphens(s: Seq<char>) -> nat
    decreases s.len(),
{
    if s.len() > 0 && s.last() == '-' {
        1 + trail_hyphens(s.drop_last())
    } else {
        0
    }
}

/// `n` tokens `-`.
pub open spec fn hyphen_tokens(n: nat) -> Seq<Seq<char>> {
    Seq::new(n, |i: int| seq!['-'])
}

pub open spec fn is_apostrophe(c: char) -> bool {
    c == '\'' || c == '\u{2019}'
}

/// Java `StringTokenizer(s, "'’", true)`: maximal non-apostrophe runs and each
/// apostrophe on its own, `cur` being the run in progress.
pub open spec fn split_apos(cur: Seq<char>, rest: Seq<char>) -> Seq<Seq<char>>
    decreases rest.len(),
{
    let flushed: Seq<Seq<char>> = if cur.len() > 0 {
        seq![cur]
    } else {
        Seq::empty()
    };
    if rest.len() == 0 {
        flushed
    } else if is_apostrophe(rest[0]) {
        flushed + seq![seq![rest[0]]] + split_apos(Seq::empty(), rest.drop_first())
    } else {
        split_apos(cur.push(rest[0]), rest.drop_first())
    }
}

/// Words kept whole despite a hyphen (compared ignoring ASCII case).
pub open spec fn allowlisted(s: Seq<char>) -> bool {
    eq_ignore_ascii_case("mers-cov"@, s) || eq_ignore_ascii_case("mcgraw-hill"@, s)
        || eq_ignore_ascii_case("sars-cov-2"@, s) || eq_ignore_ascii_case("sars-cov"@, s)
        || eq_ignore_ascii_case("ph-metre"@, s) || eq_ignore_ascii_case("ph-metres"@, s)
        || eq_ignore_ascii_case("anti-ivg"@, s) || eq_ignore_ascii_case("anti-uv"@, s)
        || eq_ignore_ascii_case("anti-vih"@, s) || eq_ignore_ascii_case("al-qaida"@, s)
}

/// Concatenation of a token list.
pub open spec fn concat(l: Seq<Seq<char>>) -> Seq<char>
    decreases l.len(),
{
    if l.len() == 0 {
        Seq::empty()
    } else {
        concat(l.drop_last()) + l.last()
    }
}

/// UTF-8 byte length of a token (as `str::len` reports it).
pub open spec fn blen(s: Seq<char>) -> int {
    (vstd::utf8::encode_utf8(s).len() as usize) as int
}

/// Byte-position addition, saturating at `usize::MAX`.
pub open spec fn sat_add(a: int, b: int) -> int {
    if a + b > usize::MAX {
        usize::MAX as int
    } else {
        a + b
    }
}

/// Views of a list of character vectors.
pub open spec fn vviews(v: Seq<Vec<char>>) -> Seq<Seq<char>> {
    Seq::new(v.len(), |i: int| v[i]@)
}

pub proof fn lemma_vviews_push(v: Seq<Vec<char>>, x: Vec<char>)
    ensures
        vviews(v.push(x)) == vviews(v).push(x@),
{
    assert(vviews(v.push(x)) =~= vviews(v).push(x@));
}

/// The characters of `t` before byte offset `b` (all of `t` when `b` does
/// not fall on a character boundary).
pub open spec fn head_bytes(t: Seq<char>, b: int) -> Seq<char> {
    match char_index(t, b) {
        Some(k) => t.take(k),
        None => t,
    }
}

/// The characters of `t` from byte offset `b` on (none when `b` does not
/// fall on a character boundary).
pub open spec fn tail_bytes(t: Seq<char>, b: int) -> Seq<char> {
    match char_index(t, b) {
        Some(k) => t.skip(k),
        None => Seq::empty(),
    }
}

/// The tokens not read yet: the pending rest of a cut token, if any, then
/// the tokens of `list` from `idx` on.
pub open spec fn pending_rest(pending: Option<Vec<char>>, list: Seq<Seq<char>>, idx: int) -> Seq<Seq<char>> {
    match pending {
        Some(p) => seq![p@] + list.skip(idx),
        None => list.skip(idx),
    }
}

/// E-mail joining, one match. `rest` are the tokens not read yet, the first
/// of them starting at byte `cur`. Tokens before the match are copied; the
/// matched text takes the place of what it covers; a token that the match
/// starts inside keeps its part before the match, and one that the match
/// ends inside goes back, from the match's end on, to the tokens not read
/// yet, so a later match can still take from it.
pub open spec fn email_step(
    out: Seq<Seq<char>>,
    rest: Seq<Seq<char>>,
    cur: int,
    m: (int, int, Seq<char>),
) -> (Seq<Seq<char>>, Seq<Seq<char>>, int)
    decreases rest.len(),
{
    if rest.len() == 0 || cur >= m.1 {
        (out, rest, cur)
    } else {
        let t = rest[0];
        let next = sat_add(cur, blen(t));
        let out2 = if next <= m.0 {
            out.push(t)
        } else if cur < m.0 {
            out.push(head_bytes(t, m.0 - cur)).push(m.2)
        } else if cur == m.0 {
            out.push(m.2)
        } else {
            out
        };
        if m.1 < next {
            (out2, seq![tail_bytes(t, m.1 - cur)] + rest.drop_first(), m.1)
        } else {
            email_step(out2, rest.drop_first(), next, m)
        }
    }
}

/// E-mail joining over the first `n` matches: `(tokens out, tokens not read
/// yet, byte position)`.
pub open spec fn email_fold(list: Seq<Seq<char>>, ms: Seq<(int, int, Seq<char>)>, n: int) -> (
    Seq<Seq<char>>,
    Seq<Seq<char>>,
    int,
)
    decreases n,
{
    if n <= 0 {
        (Seq::empty(), list, 0)
    } else {
        let (o, r, c) = email_fold(list, ms, n - 1);
        email_step(o, r, c, ms[n - 1])
    }
}

/// `joinEMails`: when the concatenation holds an `@` and an e-mail address,
/// merge the tokens each address spans into one.
pub open spec fn spec_join_emails(list: Seq<Seq<char>>) -> Seq<Seq<char>> {
    let text = concat(list);
    if !text.contains('@') || !match_spec(E_MAIL@, text) {
        list
    } else {
        let ms = find_spec(E_MAIL@, text);
        let (o, r, c) = email_fold(list, ms, ms.len() as int);
        o + r
    }
}

pub open spec fn is_protocol(t: Seq<char>) -> bool {
    t == "http"@ || t == "https"@ || t == "ftp"@
}

pub open spec fn domain_ok(t: Seq<char>) -> bool {
    match_spec(DOMAIN_CHARS@, t)
}

/// A URL starts at token `i`.
pub open spec fn url_starts(i: int, l: Seq<Seq<char>>) -> bool {
    ||| (is_protocol(l[i]) && l.len() > i + 3 && l[i + 1] == ":"@ && l[i + 2] == "/"@ && l[i
        + 3] == "/"@)
    ||| (l.len() > i + 1 && l[i] == "www"@ && l[i + 1] == "."@)
    ||| (l.len() > i + 3 && l[i + 1] == "."@ && l[i + 3] == "/"@ && domain_ok(l[i]) && domain_ok(
        l[i + 2],
    ))
    ||| (l.len() > i + 5 && l[i + 1] == "."@ && l[i + 3] == "."@ && l[i + 5] == "/"@ && domain_ok(
        l[i],
    ) && domain_ok(l[i + 2]) && domain_ok(l[i + 4]))
}

pub open spec fn is_ws_token(t: Seq<char>) -> bool {
    t.len() > 0 && all_whitespace(t)
}

pub open spec fn is_closer(t: Seq<char>) -> bool {
    t == "\""@ || t == "»"@ || t == "«"@ || t == "'"@ || t == "\u{2019}"@ || t == "\u{201C}"@
        || t == "\u{201D}"@ || t == "\u{2018}"@ || t == "."@
}

pub open spec fn is_ender(t: Seq<char>) -> bool {
    t == "."@ || t == ","@ || t == ";"@ || t == ":"@ || t == "!"@ || t == "?"@
}

/// A URL in progress ends at token `i`.
pub open spec fn url_ends(i: int, l: Seq<Seq<char>>, quote: Option<Seq<char>>) -> bool {
    let token = l[i];
    if is_ws_token(token) || token == ")"@ || token == "]"@ {
        true
    } else if l.len() > i + 1 {
        let next = l[i + 1];
        let next_closer = is_ws_token(next) || is_closer(next);
        let tok_ender = is_ender(token) || quote == Some(token);
        (next_closer && tok_ender) || !match_spec(URL_CHARS@, token)
    } else {
        !match_spec(URL_CHARS@, token) || token == "."@ || quote == Some(token)
    }
}

/// `joinUrls` state after the first `n` tokens: `(output, in_url, url, quote)`.
pub open spec fn url_fold(l: Seq<Seq<char>>, n: int) -> (
    Seq<Seq<char>>,
    bool,
    Seq<char>,
    Option<Seq<char>>,
)
    decreases n,
{
    if n <= 0 {
        (Seq::empty(), false, Seq::empty(), None)
    } else {
        let (o, in_url, url, q) = url_fold(l, n - 1);
        let i = n - 1;
        if url_starts(i, l) && !in_url {
            (o, true, url + l[i], if i >= 1 {
                Some(l[i - 1])
            } else {
                q
            })
        } else if in_url && url_ends(i, l, q) {
            (o.push(url).push(l[i]), false, Seq::empty(), None)
        } else if in_url {
            (o, in_url, url + l[i], q)
        } else {
            (o.push(l[i]), in_url, url, q)
        }
    }
}

/// `joinUrls`: merge the tokens of each URL into one.
pub open spec fn spec_join_urls(l: Seq<Seq<char>>) -> Seq<Seq<char>> {
    let (o, _, url, _) = url_fold(l, l.len() as int);
    if url.len() > 0 {
        o.push(url)
    } else {
        o
    }
}

/// A variation selector (U+FE00..U+FE0F).
pub open spec fn is_variation_selector(c: char) -> bool {
    0xFE00 <= (c as u32) <= 0xFE0F
}

/// The concatenated groups of a contraction match, each through `words_to_add`.
pub open spec fn groups_words(
    t: Map<Seq<char>, bool>,
    gs: Seq<Option<Seq<char>>>,
) -> Seq<Seq<char>>
    decreases gs.len(),
{
    if gs.len() == 0 {
        Seq::empty()
    } else {
        groups_words(t, gs.drop_last()) + match gs.last() {
            Some(g) => spec_words_to_add(t, g),
            None => Seq::empty(),
        }
    }
}

/// `wordsToAdd`: leading and trailing hyphens become their own tokens; a word
/// holding `-` or an apostrophe is kept whole if the tagger knows it (after
/// dropping soft hyphens and folding `’`) or it is allowlisted, else it is
/// split at apostrophes.
pub open spec fn spec_words_to_add(t: Map<Seq<char>, bool>, input: Seq<char>) -> Seq<Seq<char>> {
    if input.len() == 0 {
        Seq::empty()
    } else {
        let a = lead_hyphens(input);
        let s1 = input.skip(a as int);
        let b = trail_hyphens(s1);
        let s = s1.subrange(0, s1.len() - b);
        hyphen_tokens(a) + middle_tokens(t, s) + hyphen_tokens(b)
    }
}

/// The word between the hyphens; the tagger is asked about it only when it
/// holds `-` or an apostrophe.
pub open spec fn middle_tokens(t: Map<Seq<char>, bool>, s: Seq<char>) -> Seq<Seq<char>> {
    if s.len() == 0 {
        Seq::empty()
    } else if !(s.contains('-') || s.contains('\'') || s.contains('\u{2019}')) {
        seq![s]
    } else if known(t, normalize_apos(s)) || allowlisted(s) {
        seq![s]
    } else {
        split_apos(Seq::empty(), s)
    }
}

/// The form the tagger is asked about: soft hyphens dropped, `’` folded to `'`.
pub open spec fn normalize_apos(s: Seq<char>) -> Seq<char> {
    replace_char(replace_char(s, '\u{00AD}', Seq::empty()), '\u{2019}', seq!['\''])
}

/// Contraction patterns in the order they are tried.
pub open spec fn contraction_patterns() -> Seq<Seq<char>> {
    seq![CONTRACTION_1@, CONTRACTION_2@, CONTRACTION_3@, CONTRACTION_4@]
}

/// The first contraction pattern (from `k` on) that matches `s`, with its groups.
pub open spec fn first_contraction(s: Seq<char>, k: int) -> Option<Seq<Option<Seq<char>>>>
    decreases 4 - k,
{
    if k < 0 || k >= 4 {
        None
    } else {
        match caps_spec(contraction_patterns()[k], s) {
            Some(g) => Some(g),
            None => first_contraction(s, k + 1),
        }
    }
}

/// The tokens one raw split piece contributes (apostrophes restored).
pub open spec fn piece_tokens(t: Map<Seq<char>, bool>, s: Seq<char>) -> Seq<Seq<char>> {
    if s.contains('\'') || s.contains('\u{2019}') {
        match first_contraction(s, 0) {
            Some(gs) => groups_words(t, gs),
            None => spec_words_to_add(t, s),
        }
    } else {
        spec_words_to_add(t, s)
    }
}

/// Apostrophes shielded / restored around the split.
pub open spec fn shield(text: Seq<char>) -> Seq<char> {
    replace_char(replace_char(text, '\'', APOSTYPEW@), '\u{2019}', APOSTYPOG@)
}

pub open spec fn unshield(raw: Seq<char>) -> Seq<char> {
    replace_str(replace_str(raw, APOSTYPEW@, "'"@), APOSTYPOG@, "\u{2019}"@)
}

/// Token list after the first `n` raw pieces of the split.
pub open spec fn split_fold(t: Map<Seq<char>, bool>, raws: Seq<Seq<char>>, n: int) -> Seq<Seq<char>>
    decreases n,
{
    if n <= 0 {
        Seq::empty()
    } else {
        let l = split_fold(t, raws, n - 1);
        let raw = raws[n - 1];
        if l.len() > 0 && raw.len() == 1 && is_variation_selector(raw[0]) {
            l.update(l.len() - 1, l.last() + raw)
        } else {
            l + piece_tokens(t, unshield(raw))
        }
    }
}

/// The raw pieces of the split of the shielded text.
pub open spec fn raw_pieces(text: Seq<char>) -> Seq<Seq<char>> {
    find_spec(TOKEN_PATTERN@, shield(text)).map_values(|m: (int, int, Seq<char>)| m.2)
}

/// The full tokenization.
pub open spec fn spec_tokenize(t: Map<Seq<char>, bool>, text: Seq<char>) -> Seq<Seq<char>> {
    let raws = raw_pieces(text);
    spec_join_urls(spec_join_emails(split_fold(t, raws, raws.len() as int)))
}

// ---------------------------------------------------------------------------
// Implementation
// ---------------------------------------------------------------------------

/// An expression compiled from `p`, or nothing when `p` does not compile.
pub open spec fn holds_regex(r: Option<CompiledRegex>, p: Seq<char>) -> bool {
    &&& (r is Some <==> regex_compiles(p))
    &&& (r matches Some(c) ==> c.src() == p)
}

pub struct EnglishWordTokenizer<T: WordTagger> {
    tagger: T,
    re_token: Option<CompiledRegex>,
    re_c1: Option<CompiledRegex>,
    re_c2: Option<CompiledRegex>,
    re_c3: Option<CompiledRegex>,
    re_c4: Option<CompiledRegex>,
    re_url: Option<CompiledRegex>,
    re_domain: Option<CompiledRegex>,
    re_email: Option<CompiledRegex>,
}

/// Whether `r` matches somewhere in `t`.
fn opt_is_match(r: &Option<CompiledRegex>, t: &[char], p: Ghost<Seq<char>>) -> (b: bool)
    requires
        holds_regex(*r, p@),
    ensures
        b == match_spec(p@, t@),
{
    match r {
        Some(c) => {
            let s = chars_to_string(t);
            let m = c.is_match(s.as_str());
            match m {
                Some(x) => x,
                None => false,
            }
        },
        None => false,
    }
}

/// Matches of `r` in `t`.
fn opt_find_all(r: &Option<CompiledRegex>, t: &[char], p: Ghost<Seq<char>>) -> (v: Vec<
    RegexMatch,
>)
    requires
        holds_regex(*r, p@),
    ensures
        v@.map_values(|m: RegexMatch| match_view(m)) == find_spec(p@, t@),
{
    match r {
        Some(c) => {
            let s = chars_to_string(t);
            c.find_all(s.as_str())
        },
        None => {
            let v: Vec<RegexMatch> = Vec::new();
            assert(v@.map_values(|m: RegexMatch| match_view(m)) =~= Seq::<
                (int, int, Seq<char>),
            >::empty());
            v
        },
    }
}

/// Capture groups of `r` on `t`.
fn opt_captures(r: &Option<CompiledRegex>, t: &[char], p: Ghost<Seq<char>>) -> (g: Option<
    Vec<Option<String>>,
>)
    requires
        holds_regex(*r, p@),
    ensures
        match g {
            None => caps_spec(p@, t@) is None,
            Some(v) => caps_spec(p@, t@) == Some(opt_views(v@)),
        },
{
    match r {
        Some(c) => {
            let s = chars_to_string(t);
            c.captures(s.as_str())
        },
        None => None,
    }
}

/// `s` with every `c` replaced by `to`.
pub fn replace_char_exec(s: &[char], c: char, to: &[char]) -> (r: Vec<char>)
    ensures
        r@ == replace_char(s@, c, to@),
{
    let mut out: Vec<char> = Vec::new();
    let mut i: usize = 0;
    assert(s@.skip(0) =~= s@);
    while i < s.len()
        invariant
            i <= s.len(),
            out@ + replace_char(s@.skip(i as int), c, to@) == replace_char(s@, c, to@),
        decreases s.len() - i,
    {
        let ghost rest = s@.skip(i as int);
        assert(rest.drop_first() =~= s@.skip(i + 1));
        assert(rest[0] == s@[i as int]);
        let ghost o0 = out@;
        if s[i] == c {
            crate::text::append_chars(&mut out, to);
            assert(o0 + replace_char(rest, c, to@) =~= out@ + replace_char(
                rest.drop_first(),
                c,
                to@,
            ));
        } else {
            out.push(s[i]);
            assert(o0 + replace_char(rest, c, to@) =~= out@ + replace_char(
                rest.drop_first(),
                c,
                to@,
            ));
        }
        i += 1;
    }
    assert(s@.skip(i as int) =~= Seq::<char>::empty());
    assert(out@ + Seq::<char>::empty() =~= out@);
    out
}

/// `s` with every leftmost non-overlapping `from` replaced by `to`.
pub fn replace_str_exec(s: &[char], from: &[char], to: &[char]) -> (r: Vec<char>)
    ensures
        r@ == replace_str(s@, from@, to@),
{
    let mut out: Vec<char> = Vec::new();
    let mut i: usize = 0;
    assert(s@.skip(0) =~= s@);
    while i < s.len()
        invariant
            i <= s.len(),
            out@ + replace_str(s@.skip(i as int), from@, to@) == replace_str(s@, from@, to@),
        decreases s.len() - i,
    {
        let ghost rest = s@.skip(i as int);
        let ghost o0 = out@;
        if from.len() > 0 && crate::text::matches_at(s, from, i) {
            assert(rest.subrange(0, from@.len() as int) =~= s@.subrange(
                i as int,
                i + from@.len(),
            ));
            assert(rest.skip(from@.len() as int) =~= s@.skip(i + from@.len()));
            crate::text::append_chars(&mut out, to);
            assert(o0 + replace_str(rest, from@, to@) =~= out@ + replace_str(
                s@.skip(i + from@.len()),
                from@,
                to@,
            ));
            i += from.len();
        } else {
            proof {
                if from@.len() > 0 && from@.len() <= rest.len() {
                    assert(rest.subrange(0, from@.len() as int) =~= s@.subrange(
                        i as int,
                        i + from@.len(),
                    ));
                }
            }
            assert(rest.drop_first() =~= s@.skip(i + 1));
            assert(rest[0] == s@[i as int]);
            out.push(s[i]);
            assert(o0 + replace_str(rest, from@, to@) =~= out@ + replace_str(
                rest.drop_first(),
                from@,
                to@,
            ));
            i += 1;
        }
    }
    assert(s@.skip(i as int) =~= Seq::<char>::empty());
    assert(out@ + Seq::<char>::empty() =~= out@);
    out
}

fn one_char_token(c: char) -> (r: Vec<char>)
    ensures
        r@ == seq![c],
{
    let mut v: Vec<char> = Vec::new();
    v.push(c);
    v
}

/// Java `StringTokenizer(s, "'’", true)`.
pub fn split_keep_delims(s: &[char]) -> (r: Vec<Vec<char>>)
    ensures
        vviews(r@) == split_apos(Seq::empty(), s@),
{
    let mut out: Vec<Vec<char>> = Vec::new();
    let mut cur: Vec<char> = Vec::new();
    let mut i: usize = 0;
    assert(s@.skip(0) =~= s@);
    assert(vviews(out@) =~= Seq::<Seq<char>>::empty());
    while i < s.len()
        invariant
            i <= s.len(),
            vviews(out@) + split_apos(cur@, s@.skip(i as int)) == split_apos(
                Seq::empty(),
                s@,
            ),
        decreases s.len() - i,
    {
        let ghost rest = s@.skip(i as int);
        assert(rest.drop_first() =~= s@.skip(i + 1));
        assert(rest[0] == s@[i as int]);
        let ch = s[i];
        if ch == '\'' || ch == '\u{2019}' {
            let ghost o0 = out@;
            let ghost c0 = cur@;
            if cur.len() > 0 {
                let c = cur;
                out.push(c);
                proof {
                    lemma_vviews_push(o0, c);
                }
                cur = Vec::new();
            }
            let ghost o1 = out@;
            let t = one_char_token(ch);
            out.push(t);
            proof {
                lemma_vviews_push(o1, t);
                let flushed: Seq<Seq<char>> = if c0.len() > 0 {
                    seq![c0]
                } else {
                    Seq::empty()
                };
                assert(vviews(o1) =~= vviews(o0) + flushed);
                assert(vviews(o0) + (flushed + seq![seq![ch]] + split_apos(
                    Seq::empty(),
                    rest.drop_first(),
                )) =~= vviews(out@) + split_apos(Seq::empty(), rest.drop_first()));
                assert(cur@ =~= Seq::<char>::empty());
            }
        } else {
            cur.push(ch);
        }
        i += 1;
    }
    let ghost o0 = out@;
    let ghost c0 = cur@;
    assert(s@.skip(i as int) =~= Seq::<char>::empty());
    if cur.len() > 0 {
        let c = cur;
        out.push(c);
        proof {
            lemma_vviews_push(o0, c);
            assert(vviews(o0) + seq![c0] =~= vviews(out@));
        }
    } else {
        assert(vviews(o0) + Seq::<Seq<char>>::empty() =~= vviews(o0));
    }
    out
}

fn allowlisted_exec(s: &[char]) -> (r: bool)
    ensures
        r == allowlisted(s@),
{
    chars_eq_ignore_ascii_case(&lit("mers-cov"), s) || chars_eq_ignore_ascii_case(
        &lit("mcgraw-hill"),
        s,
    ) || chars_eq_ignore_ascii_case(&lit("sars-cov-2"), s) || chars_eq_ignore_ascii_case(
        &lit("sars-cov"),
        s,
    ) || chars_eq_ignore_ascii_case(&lit("ph-metre"), s) || chars_eq_ignore_ascii_case(
        &lit("ph-metres"),
        s,
    ) || chars_eq_ignore_ascii_case(&lit("anti-ivg"), s) || chars_eq_ignore_ascii_case(
        &lit("anti-uv"),
        s,
    ) || chars_eq_ignore_ascii_case(&lit("anti-vih"), s) || chars_eq_ignore_ascii_case(
        &lit("al-qaida"),
        s,
    )
}

fn push_hyphens(l: &mut Vec<Vec<char>>, n: usize)
    ensures
        vviews(final(l)@) == vviews(old(l)@) + hyphen_tokens(n as nat),
{
    let mut k: usize = 0;
    while k < n
        invariant
            k <= n,
            vviews(l@) == vviews(old(l)@) + hyphen_tokens(k as nat),
        decreases n - k,
    {
        let ghost l0 = l@;
        let t = one_char_token('-');
        l.push(t);
        proof {
            lemma_vviews_push(l0, t);
            assert(hyphen_tokens((k + 1) as nat) =~= hyphen_tokens(k as nat).push(seq!['-']));
            assert(vviews(old(l)@) + hyphen_tokens((k + 1) as nat) =~= (vviews(old(l)@)
                + hyphen_tokens(k as nat)).push(seq!['-']));
        }
        k += 1;
    }
}

fn extend_tokens(l: &mut Vec<Vec<char>>, more: Vec<Vec<char>>)
    ensures
        vviews(final(l)@) == vviews(old(l)@) + vviews(more@),
{
    let mut k: usize = 0;
    while k < more.len()
        invariant
            k <= more.len(),
            vviews(l@) == vviews(old(l)@) + vviews(more@).subrange(0, k as int),
        decreases more.len() - k,
    {
        let ghost l0 = l@;
        let t = chars_vec(&more[k]);
        l.push(t);
        proof {
            lemma_vviews_push(l0, t);
            assert(vviews(more@).subrange(0, k + 1) =~= vviews(more@).subrange(0, k as int).push(
                more@[k as int]@,
            ));
            assert(vviews(old(l)@) + vviews(more@).subrange(0, k + 1) =~= (vviews(old(l)@)
                + vviews(more@).subrange(0, k as int)).push(more@[k as int]@));
        }
        k += 1;
    }
    assert(vviews(more@).subrange(0, more.len() as int) =~= vviews(more@));
}

proof fn lemma_lead_hyphens(s: Seq<char>)
    ensures
        lead_hyphens(s) <= s.len(),
    decreases s.len(),
{
    if s.len() > 0 && s[0] == '-' {
        lemma_lead_hyphens(s.drop_first());
    }
}

proof fn lemma_trail_hyphens(s: Seq<char>)
    ensures
        trail_hyphens(s) <= s.len(),
    decreases s.len(),
{
    if s.len() > 0 && s.last() == '-' {
        lemma_trail_hyphens(s.drop_last());
    }
}

/// The views of captured groups.
pub open spec fn opt_views(gs: Seq<Option<String>>) -> Seq<Option<Seq<char>>> {
    gs.map_values(|x: Option<String>| opt_view(x))
}

/// The answers recorded so far, a later entry for a word overriding an earlier one.
pub open spec fn memo_map(m: Seq<(Vec<char>, bool)>) -> Map<Seq<char>, bool>
    decreases m.len(),
{
    if m.len() == 0 {
        Map::empty()
    } else {
        memo_map(m.drop_last()).insert(m.last().0@, m.last().1)
    }
}

/// Every recorded answer is the tagger's.
pub open spec fn memo_ok<T: WordTagger>(t: T, m: Seq<(Vec<char>, bool)>) -> bool {
    forall|i: int| 0 <= i < m.len() ==> (#[trigger] m[i]).1 == t.spec_is_tagged(m[i].0@)
}

proof fn lemma_memo_ok_extends<T: WordTagger>(t: T, m: Seq<(Vec<char>, bool)>)
    requires
        memo_ok(t, m),
    ensures
        extends(answers_of(t), memo_map(m)),
    decreases m.len(),
{
    if m.len() > 0 {
        assert(memo_ok(t, m.drop_last())) by {
            assert forall|i: int| 0 <= i < m.drop_last().len() implies (#[trigger] m.drop_last()[i]).1
                == t.spec_is_tagged(m.drop_last()[i].0@) by {
                assert(m.drop_last()[i] == m[i]);
            }
        }
        lemma_memo_ok_extends(t, m.drop_last());
        assert(m.last() == m[m.len() - 1]);
    }
}

proof fn lemma_memo_last(m: Seq<(Vec<char>, bool)>, j: int, w: Seq<char>)
    requires
        0 <= j < m.len(),
        m[j].0@ == w,
        forall|l: int| j < l < m.len() ==> (#[trigger] m[l]).0@ != w,
    ensures
        memo_map(m).contains_key(w),
        memo_map(m)[w] == m[j].1,
    decreases m.len(),
{
    if j < m.len() - 1 {
        lemma_memo_last(m.drop_last(), j, w);
        assert(m.last() == m[m.len() - 1]);
    }
}

proof fn lemma_memo_absent(m: Seq<(Vec<char>, bool)>, w: Seq<char>)
    requires
        forall|l: int| 0 <= l < m.len() ==> (#[trigger] m[l]).0@ != w,
    ensures
        !memo_map(m).contains_key(w),
    decreases m.len(),
{
    if m.len() > 0 {
        lemma_memo_absent(m.drop_last(), w);
        assert(m.last() == m[m.len() - 1]);
    }
}

fn head_bytes_exec(t: &Vec<char>, b: usize) -> (r: Vec<char>)
    ensures
        r@ == head_bytes(t@, b as int),
{
    match char_index_exec(t, b) {
        Some(k) => {
            proof {
                lemma_char_index_bounds(t@, b as int);
            }
            let r = sub_chars(t, 0, k);
            assert(r@ =~= t@.take(k as int));
            r
        },
        None => chars_vec(t),
    }
}

fn tail_bytes_exec(t: &Vec<char>, b: usize) -> (r: Vec<char>)
    ensures
        r@ == tail_bytes(t@, b as int),
{
    match char_index_exec(t, b) {
        Some(k) => {
            proof {
                lemma_char_index_bounds(t@, b as int);
            }
            let r = sub_chars(t, k, t.len());
            assert(r@ =~= t@.skip(k as int));
            r
        },
        None => Vec::new(),
    }
}

/// Asks the tagger about `w` once per run: an answer already recorded is
/// reused, otherwise the tagger is asked and its answer recorded.
fn ask<T: WordTagger>(tagger: &T, memo: &mut Vec<(Vec<char>, bool)>, w: &[char]) -> (r: bool)
    requires
        memo_ok(*tagger, old(memo)@),
    ensures
        memo_ok(*tagger, final(memo)@),
        extends(memo_map(final(memo)@), memo_map(old(memo)@)),
        memo_map(final(memo)@).contains_key(w@),
        memo_map(final(memo)@)[w@] == r,
{
    let mut i: usize = memo.len();
    while i > 0
        invariant
            i <= memo.len(),
            memo_ok(*tagger, memo@),
            forall|l: int| i <= l < memo.len() ==> (#[trigger] memo@[l]).0@ != w@,
        decreases i,
    {
        if chars_eq(&memo[i - 1].0, w) {
            let b = memo[i - 1].1;
            proof {
                lemma_memo_last(memo@, i - 1, w@);
            }
            return b;
        }
        i -= 1;
    }
    proof {
        lemma_memo_absent(memo@, w@);
    }
    let ws = chars_to_string(w);
    let b = tagger.is_tagged(ws.as_str());
    let ghost m0 = memo@;
    memo.push((chars_vec(w), b));
    proof {
        assert(memo@.drop_last() =~= m0);
        assert forall|i: int| 0 <= i < memo@.len() implies (#[trigger] memo@[i]).1
            == tagger.spec_is_tagged(memo@[i].0@) by {
            if i < m0.len() {
                assert(memo@[i] == m0[i]);
            }
        }
    }
    b
}

impl<T: WordTagger> EnglishWordTokenizer<T> {
    #[verifier::type_invariant]
    closed spec fn inv(self) -> bool {
        &&& holds_regex(self.re_token, TOKEN_PATTERN@)
        &&& holds_regex(self.re_c1, CONTRACTION_1@)
        &&& holds_regex(self.re_c2, CONTRACTION_2@)
        &&& holds_regex(self.re_c3, CONTRACTION_3@)
        &&& holds_regex(self.re_c4, CONTRACTION_4@)
        &&& holds_regex(self.re_url, URL_CHARS@)
        &&& holds_regex(self.re_domain, DOMAIN_CHARS@)
        &&& holds_regex(self.re_email, E_MAIL@)
    }

    /// The injected tagger.
    pub closed spec fn word_tagger(self) -> T {
        self.tagger
    }

    pub fn new(tagger: T) -> (r: Self)
        ensures
            r.word_tagger() == tagger,
    {
        EnglishWordTokenizer {
            tagger,
            re_token: compile(TOKEN_PATTERN),
            re_c1: compile(CONTRACTION_1),
            re_c2: compile(CONTRACTION_2),
            re_c3: compile(CONTRACTION_3),
            re_c4: compile(CONTRACTION_4),
            re_url: compile(URL_CHARS),
            re_domain: compile(DOMAIN_CHARS),
            re_email: compile(E_MAIL),
        }
    }

    /// `wordsToAdd` for one piece; the tagger is asked through `memo`.
    fn words_to_add(&self, input: &[char], memo: &mut Vec<(Vec<char>, bool)>) -> (r: Vec<
        Vec<char>,
    >)
        requires
            memo_ok(self.word_tagger(), old(memo)@),
        ensures
            memo_ok(self.word_tagger(), final(memo)@),
            extends(memo_map(final(memo)@), memo_map(old(memo)@)),
            forall|k: Map<Seq<char>, bool>|
                extends(k, memo_map(final(memo)@)) ==> #[trigger] spec_words_to_add(k, input@)
                    == vviews(r@),
    {
        let mut l: Vec<Vec<char>> = Vec::new();
        if input.len() == 0 {
            assert(vviews(l@) =~= Seq::<Seq<char>>::empty());
            return l;
        }
        let mut a: usize = 0;
        proof {
            lemma_lead_hyphens(input@);
            assert(input@.skip(0) =~= input@);
        }
        while a < input.len() && input[a] == '-'
            invariant
                a <= input.len(),
                lead_hyphens(input@) == a + lead_hyphens(input@.skip(a as int)),
            decreases input.len() - a,
        {
            assert(input@.skip(a as int).drop_first() =~= input@.skip(a + 1));
            a += 1;
        }
        assert(lead_hyphens(input@.skip(a as int)) == 0) by {
            if a < input.len() {
                assert(input@.skip(a as int)[0] == input@[a as int]);
            }
        }
        let s1 = crate::text::sub_chars(input, a, input.len());
        assert(s1@ =~= input@.skip(a as int));
        let mut n = s1.len();
        proof {
            lemma_trail_hyphens(s1@);
            assert(s1@.subrange(0, n as int) =~= s1@);
        }
        while n > 0 && s1[n - 1] == '-'
            invariant
                n <= s1.len(),
                trail_hyphens(s1@) == (s1.len() - n) + trail_hyphens(s1@.subrange(0, n as int)),
            decreases n,
        {
            assert(s1@.subrange(0, n as int).drop_last() =~= s1@.subrange(0, n - 1));
            n -= 1;
        }
        assert(trail_hyphens(s1@.subrange(0, n as int)) == 0) by {
            if n > 0 {
                assert(s1@.subrange(0, n as int).last() == s1@[n - 1]);
            }
        }
        let b = s1.len() - n;
        let s = crate::text::sub_chars(&s1, 0, n);
        push_hyphens(&mut l, a);
        let ghost l1 = l@;
        let ghost m0 = memo_map(memo@);
        let ghost middle: Seq<Seq<char>>;
        if s.len() == 0 {
            proof {
                middle = Seq::empty();
            }
        } else {
            let has_marks = contains_char(&s, '-') || contains_char(&s, '\'') || contains_char(
                &s,
                '\u{2019}',
            );
            if !has_marks {
                let t = chars_vec(&s);
                l.push(t);
                proof {
                    lemma_vviews_push(l1, t);
                    middle = seq![s@];
                }
            } else {
                let n1 = replace_char_exec(&s, '\u{00AD}', &Vec::new());
                let normalized = replace_char_exec(&n1, '\u{2019}', &one_char_token('\''));
                assert(normalized@ == normalize_apos(s@));
                let asked = ask(&self.tagger, memo, &normalized);
                if asked || allowlisted_exec(&s) {
                    let t = chars_vec(&s);
                    l.push(t);
                    proof {
                        lemma_vviews_push(l1, t);
                        middle = seq![s@];
                    }
                } else {
                    let parts = split_keep_delims(&s);
                    proof {
                        middle = split_apos(Seq::empty(), s@);
                    }
                    extend_tokens(&mut l, parts);
                }
            }
        }
        assert(vviews(l@) == vviews(l1) + middle);
        push_hyphens(&mut l, b);
        assert(vviews(l@) =~= hyphen_tokens(a as nat) + middle + hyphen_tokens(b as nat));
        assert(extends(memo_map(memo@), m0));
        assert forall|k: Map<Seq<char>, bool>| extends(k, memo_map(memo@)) implies #[trigger]
            spec_words_to_add(k, input@) == vviews(l@) by {
            assert(middle_tokens(k, s@) == middle);
        }
        l
    }

    /// Tokens of the contraction groups.
    fn groups_tokens(&self, gs: &Vec<Option<String>>, memo: &mut Vec<(Vec<char>, bool)>) -> (r:
        Vec<Vec<char>>)
        requires
            memo_ok(self.word_tagger(), old(memo)@),
        ensures
            memo_ok(self.word_tagger(), final(memo)@),
            extends(memo_map(final(memo)@), memo_map(old(memo)@)),
            forall|k: Map<Seq<char>, bool>|
                extends(k, memo_map(final(memo)@)) ==> #[trigger] groups_words(k, opt_views(gs@))
                    == vviews(r@),
    {
        let ghost gv = opt_views(gs@);
        let ghost m0 = memo_map(memo@);
        let mut out: Vec<Vec<char>> = Vec::new();
        let mut k: usize = 0;
        assert(vviews(out@) =~= Seq::<Seq<char>>::empty());
        while k < gs.len()
            invariant
                k <= gs.len(),
                gv == gs@.map_values(|x: Option<String>| opt_view(x)),
                memo_ok(self.word_tagger(), memo@),
                extends(memo_map(memo@), m0),
                forall|kk: Map<Seq<char>, bool>|
                    extends(kk, memo_map(memo@)) ==> #[trigger] groups_words(
                        kk,
                        gv.subrange(0, k as int),
                    ) == vviews(out@),
            decreases gs.len() - k,
        {
            assert(gv.subrange(0, k + 1).drop_last() =~= gv.subrange(0, k as int));
            assert(gv.subrange(0, k + 1).last() == gv[k as int]);
            let ghost mb = memo_map(memo@);
            let ghost ob = vviews(out@);
            match &gs[k] {
                Some(g) => {
                    let gc = string_chars(g);
                    let w = self.words_to_add(&gc, memo);
                    extend_tokens(&mut out, w);
                    assert forall|kk: Map<Seq<char>, bool>| extends(kk, memo_map(memo@)) implies
                        #[trigger] groups_words(kk, gv.subrange(0, k + 1)) == vviews(out@) by {
                        assert(extends(kk, mb));
                        assert(groups_words(kk, gv.subrange(0, k as int)) == ob);
                        assert(spec_words_to_add(kk, gc@) == vviews(w@));
                    }
                },
                None => {
                    assert(vviews(out@) + Seq::<Seq<char>>::empty() =~= vviews(out@));
                    assert forall|kk: Map<Seq<char>, bool>| extends(kk, memo_map(memo@)) implies
                        #[trigger] groups_words(kk, gv.subrange(0, k + 1)) == vviews(out@) by {
                        assert(groups_words(kk, gv.subrange(0, k as int)) == ob);
                    }
                },
            }
            k += 1;
        }
        assert(gv.subrange(0, gs.len() as int) =~= gv);
        out
    }

    /// Tokens of one restored piece.
    fn piece(&self, s: &[char], memo: &mut Vec<(Vec<char>, bool)>) -> (r: Vec<Vec<char>>)
        requires
            memo_ok(self.word_tagger(), old(memo)@),
        ensures
            memo_ok(self.word_tagger(), final(memo)@),
            extends(memo_map(final(memo)@), memo_map(old(memo)@)),
            forall|k: Map<Seq<char>, bool>|
                extends(k, memo_map(final(memo)@)) ==> #[trigger] piece_tokens(k, s@) == vviews(
                    r@,
                ),
    {
        proof {
            use_type_invariant(self);
            reveal_with_fuel(first_contraction, 5);
        }
        if contains_char(s, '\'') || contains_char(s, '\u{2019}') {
            let c1 = opt_captures(&self.re_c1, s, Ghost(CONTRACTION_1@));
            if let Some(gs) = c1 {
                let r = self.groups_tokens(&gs, memo);
                assert forall|k: Map<Seq<char>, bool>| extends(k, memo_map(memo@)) implies
                    #[trigger] piece_tokens(k, s@) == vviews(r@) by {
                    assert(first_contraction(s@, 0) == Some(opt_views(gs@)));
                    assert(groups_words(k, opt_views(gs@)) == vviews(r@));
                }
                return r;
            }
            let c2 = opt_captures(&self.re_c2, s, Ghost(CONTRACTION_2@));
            if let Some(gs) = c2 {
                let r = self.groups_tokens(&gs, memo);
                assert forall|k: Map<Seq<char>, bool>| extends(k, memo_map(memo@)) implies
                    #[trigger] piece_tokens(k, s@) == vviews(r@) by {
                    assert(first_contraction(s@, 0) == Some(opt_views(gs@)));
                    assert(groups_words(k, opt_views(gs@)) == vviews(r@));
                }
                return r;
            }
            let c3 = opt_captures(&self.re_c3, s, Ghost(CONTRACTION_3@));
            if let Some(gs) = c3 {
                let r = self.groups_tokens(&gs, memo);
                assert forall|k: Map<Seq<char>, bool>| extends(k, memo_map(memo@)) implies
                    #[trigger] piece_tokens(k, s@) == vviews(r@) by {
                    assert(first_contraction(s@, 0) == Some(opt_views(gs@)));
                    assert(groups_words(k, opt_views(gs@)) == vviews(r@));
                }
                return r;
            }
            let c4 = opt_captures(&self.re_c4, s, Ghost(CONTRACTION_4@));
            if let Some(gs) = c4 {
                let r = self.groups_tokens(&gs, memo);
                assert forall|k: Map<Seq<char>, bool>| extends(k, memo_map(memo@)) implies
                    #[trigger] piece_tokens(k, s@) == vviews(r@) by {
                    assert(first_contraction(s@, 0) == Some(opt_views(gs@)));
                    assert(groups_words(k, opt_views(gs@)) == vviews(r@));
                }
                return r;
            }
            assert(first_contraction(s@, 0) is None);
        }
        self.words_to_add(s, memo)
    }

    /// Tokenize `text` into words, whitespace and punctuation, as the
    /// tagger's answers decide. The tagger is asked at most once per word.
    pub fn tokenize(&self, text: &str) -> (r: Vec<String>)
        ensures
            r@.map_values(|s: String| s@) == spec_tokenize(answers_of(self.word_tagger()), text@),
    {
        proof {
            use_type_invariant(self);
        }
        let tc = str_chars(text);
        let a1 = replace_char_exec(&tc, '\'', &lit(APOSTYPEW));
        let aux = replace_char_exec(&a1, '\u{2019}', &lit(APOSTYPOG));
        let ms = opt_find_all(&self.re_token, &aux, Ghost(TOKEN_PATTERN@));
        let ghost raws = raw_pieces(text@);
        assert(raws.len() == ms@.len());
        let mut memo: Vec<(Vec<char>, bool)> = Vec::new();
        let mut l: Vec<Vec<char>> = Vec::new();
        let mut i: usize = 0;
        assert(vviews(l@) =~= Seq::<Seq<char>>::empty());
        while i < ms.len()
            invariant
                i <= ms.len(),
                raws.len() == ms@.len(),
                raws == raw_pieces(text@),
                forall|k: int| 0 <= k < ms@.len() ==> raws[k] == #[trigger] ms@[k].text@,
                memo_ok(self.word_tagger(), memo@),
                forall|kk: Map<Seq<char>, bool>|
                    extends(kk, memo_map(memo@)) ==> #[trigger] split_fold(kk, raws, i as int)
                        == vviews(l@),
            decreases ms.len() - i,
        {
            let raw = string_chars(&ms[i].text);
            assert(raw@ == raws[i as int]);
            let ghost l0 = vviews(l@);
            let ghost mb = memo_map(memo@);
            if l.len() > 0 && raw.len() == 1 && 0xFE00u32 <= (raw[0] as u32) && (raw[0] as u32)
                <= 0xFE0Fu32 {
                let last = l.len() - 1;
                let mut t = chars_vec(&l[last]);
                crate::text::append_chars(&mut t, &raw);
                let ghost lv = l@;
                l.set(last, t);
                assert(vviews(l@) =~= vviews(lv).update(last as int, vviews(lv).last() + raw@));
                assert forall|kk: Map<Seq<char>, bool>| extends(kk, memo_map(memo@)) implies
                    #[trigger] split_fold(kk, raws, i + 1) == vviews(l@) by {
                    assert(split_fold(kk, raws, i as int) == l0);
                }
            } else {
                let s1 = replace_str_exec(&raw, &lit(APOSTYPEW), &lit("'"));
                let s = replace_str_exec(&s1, &lit(APOSTYPOG), &lit("\u{2019}"));
                let p = self.piece(&s, &mut memo);
                extend_tokens(&mut l, p);
                assert forall|kk: Map<Seq<char>, bool>| extends(kk, memo_map(memo@)) implies
                    #[trigger] split_fold(kk, raws, i + 1) == vviews(l@) by {
                    assert(extends(kk, mb));
                    assert(split_fold(kk, raws, i as int) == l0);
                    assert(piece_tokens(kk, s@) == vviews(p@));
                }
            }
            i += 1;
        }
        let ghost answers = answers_of(self.word_tagger());
        proof {
            lemma_memo_ok_extends(self.word_tagger(), memo@);
        }
        assert(split_fold(answers, raws, raws.len() as int) == vviews(l@));
        let e = self.join_emails(l);
        let u = self.join_urls(&e);
        let mut out: Vec<String> = Vec::new();
        let mut k: usize = 0;
        while k < u.len()
            invariant
                k <= u.len(),
                out@.map_values(|s: String| s@) == vviews(u@).subrange(0, k as int),
            decreases u.len() - k,
        {
            let ghost o0 = out@;
            let s = chars_to_string(&u[k]);
            out.push(s);
            proof {
                o0.lemma_push_map_commute(|s: String| s@, s);
                assert(vviews(u@).subrange(0, k + 1) =~= vviews(u@).subrange(0, k as int).push(
                    u@[k as int]@,
                ));
            }
            k += 1;
        }
        assert(vviews(u@).subrange(0, u.len() as int) =~= vviews(u@));
        assert(out@.map_values(|s: String| s@) == spec_tokenize(answers, text@));
        out
    }

    /// `joinEMails`.
    fn join_emails(&self, list: Vec<Vec<char>>) -> (r: Vec<Vec<char>>)
        ensures
            vviews(r@) == spec_join_emails(vviews(list@)),
    {
        proof {
            use_type_invariant(self);
        }
        let ghost lv = vviews(list@);
        let mut text: Vec<char> = Vec::new();
        let mut k: usize = 0;
        while k < list.len()
            invariant
                k <= list.len(),
                lv == vviews(list@),
                text@ == concat(lv.subrange(0, k as int)),
            decreases list.len() - k,
        {
            assert(lv.subrange(0, k + 1).drop_last() =~= lv.subrange(0, k as int));
            crate::text::append_chars(&mut text, &list[k]);
            k += 1;
        }
        assert(lv.subrange(0, list.len() as int) =~= lv);
        if !contains_char(&text, '@') {
            return list;
        }
        if !opt_is_match(&self.re_email, &text, Ghost(E_MAIL@)) {
            return list;
        }
        let ms = opt_find_all(&self.re_email, &text, Ghost(E_MAIL@));
        let ghost mv = ms@.map_values(|m: RegexMatch| match_view(m));
        let mut l: Vec<Vec<char>> = Vec::new();
        let mut current: usize = 0;
        let mut idx: usize = 0;
        let mut pending: Option<Vec<char>> = None;
        let mut j: usize = 0;
        assert(vviews(l@) =~= Seq::<Seq<char>>::empty());
        assert(pending_rest(pending, lv, 0) =~= lv);
        while j < ms.len()
            invariant
                j <= ms.len(),
                lv == vviews(list@),
                mv == ms@.map_values(|m: RegexMatch| match_view(m)),
                idx <= list.len(),
                (vviews(l@), pending_rest(pending, lv, idx as int), current as int) == email_fold(
                    lv,
                    mv,
                    j as int,
                ),
            decreases ms.len() - j,
        {
            let m = &ms[j];
            assert(match_view(*m) == mv[j as int]);
            let ghost st = email_fold(lv, mv, j as int);
            assert(email_fold(lv, mv, j + 1) == email_step(st.0, st.1, st.2, mv[j as int]));
            while current < m.end && (pending.is_some() || idx < list.len())
                invariant
                    idx <= list.len(),
                    lv == vviews(list@),
                    email_step(st.0, st.1, st.2, mv[j as int]) == email_step(
                        vviews(l@),
                        pending_rest(pending, lv, idx as int),
                        current as int,
                        mv[j as int],
                    ),
                    mv[j as int] == match_view(*m),
                decreases pending_rest(pending, lv, idx as int).len(), if current < m.end {
                    1int
                } else {
                    0int
                },
            {
                let ghost l0 = l@;
                let ghost rest0 = pending_rest(pending, lv, idx as int);
                let t: Vec<char> = match pending {
                    Some(p) => p,
                    None => {
                        let c = chars_vec(&list[idx]);
                        idx += 1;
                        c
                    },
                };
                pending = None;
                assert(rest0[0] == t@);
                assert(rest0.drop_first() =~= pending_rest(pending, lv, idx as int));
                let ts = chars_to_string(&t);
                let n = ts.as_str().len();
                assert(n as int == blen(t@));
                let next = current.saturating_add(n);
                if next <= m.start {
                    let c = chars_vec(&t);
                    l.push(c);
                    proof {
                        lemma_vviews_push(l0, c);
                    }
                } else if current < m.start {
                    let h = head_bytes_exec(&t, m.start - current);
                    l.push(h);
                    proof {
                        lemma_vviews_push(l0, h);
                    }
                    let ghost l1 = l@;
                    let u = string_chars(&m.text);
                    l.push(u);
                    proof {
                        lemma_vviews_push(l1, u);
                    }
                } else if current == m.start {
                    let u = string_chars(&m.text);
                    l.push(u);
                    proof {
                        lemma_vviews_push(l0, u);
                    }
                }
                if m.end < next {
                    let tail = tail_bytes_exec(&t, m.end - current);
                    let ghost r1 = pending_rest(pending, lv, idx as int);
                    pending = Some(tail);
                    assert(pending_rest(pending, lv, idx as int) =~= seq![tail@] + r1);
                    current = m.end;
                } else {
                    current = next;
                }
            }
            j += 1;
        }
        let mut out = l;
        let ghost o0 = vviews(out@);
        match pending {
            Some(p) => {
                let ghost lo = out@;
                out.push(p);
                proof {
                    lemma_vviews_push(lo, p);
                }
            },
            None => {},
        }
        let ghost o1 = vviews(out@);
        assert(o1 + lv.skip(idx as int) =~= o0 + pending_rest(pending, lv, idx as int));
        let i = idx;
        let mut q: usize = i;
        while q < list.len()
            invariant
                i <= q <= list.len(),
                lv == vviews(list@),
                vviews(out@) == o1 + lv.subrange(i as int, q as int),
            decreases list.len() - q,
        {
            let ghost l0 = out@;
            let t = chars_vec(&list[q]);
            out.push(t);
            proof {
                lemma_vviews_push(l0, t);
                assert(lv.subrange(i as int, q + 1) =~= lv.subrange(i as int, q as int).push(
                    lv[q as int],
                ));
                assert(o1 + lv.subrange(i as int, q + 1) =~= (o1 + lv.subrange(
                    i as int,
                    q as int,
                )).push(lv[q as int]));
            }
            q += 1;
        }
        assert(lv.subrange(i as int, list.len() as int) =~= lv.skip(i as int));
        out
    }

    /// Whether `t` is a domain label.
    fn domain_matches(&self, t: &[char]) -> (r: bool)
        ensures
            r == domain_ok(t@),
    {
        proof {
            use_type_invariant(self);
        }
        opt_is_match(&self.re_domain, t, Ghost(DOMAIN_CHARS@))
    }

    /// Whether `t` is made of URL characters.
    fn url_chars_match(&self, t: &[char]) -> (r: bool)
        ensures
            r == match_spec(URL_CHARS@, t@),
    {
        proof {
            use_type_invariant(self);
        }
        opt_is_match(&self.re_url, t, Ghost(URL_CHARS@))
    }

    fn url_starts_at(&self, i: usize, l: &Vec<Vec<char>>) -> (r: bool)
        requires
            i < l@.len(),
        ensures
            r == url_starts(i as int, vviews(l@)),
    {
        let lv = Ghost(vviews(l@));
        let token = &l[i];
        if (chars_eq(token, &lit("http")) || chars_eq(token, &lit("https")) || chars_eq(
            token,
            &lit("ftp"),
        )) && l.len() - i > 3 && chars_eq(&l[i + 1], &lit(":")) && chars_eq(&l[i + 2], &lit("/"))
            && chars_eq(&l[i + 3], &lit("/")) {
            return true;
        }
        if l.len() - i > 1 && chars_eq(&l[i], &lit("www")) && chars_eq(&l[i + 1], &lit(".")) {
            return true;
        }
        if l.len() - i > 3 && chars_eq(&l[i + 1], &lit(".")) && chars_eq(&l[i + 3], &lit("/"))
            && self.domain_matches(token) && self.domain_matches(&l[i + 2]) {
            return true;
        }
        l.len() - i > 5 && chars_eq(&l[i + 1], &lit(".")) && chars_eq(&l[i + 3], &lit("."))
            && chars_eq(&l[i + 5], &lit("/")) && self.domain_matches(token) && self.domain_matches(
            &l[i + 2],
        ) && self.domain_matches(&l[i + 4])
    }

    fn is_closer_exec(t: &[char]) -> (r: bool)
        ensures
            r == is_closer(t@),
    {
        chars_eq(t, &lit("\"")) || chars_eq(t, &lit("»")) || chars_eq(t, &lit("«")) || chars_eq(
            t,
            &lit("'"),
        ) || chars_eq(t, &lit("\u{2019}")) || chars_eq(t, &lit("\u{201C}")) || chars_eq(
            t,
            &lit("\u{201D}"),
        ) || chars_eq(t, &lit("\u{2018}")) || chars_eq(t, &lit("."))
    }

    fn is_ender_exec(t: &[char]) -> (r: bool)
        ensures
            r == is_ender(t@),
    {
        chars_eq(t, &lit(".")) || chars_eq(t, &lit(",")) || chars_eq(t, &lit(";")) || chars_eq(
            t,
            &lit(":"),
        ) || chars_eq(t, &lit("!")) || chars_eq(t, &lit("?"))
    }

    fn quote_is(q: &Option<Vec<char>>, t: &[char]) -> (r: bool)
        ensures
            r == (opt_vec_view(*q) == Some(t@)),
    {
        match q {
            Some(v) => chars_eq(v, t),
            None => false,
        }
    }

    fn url_ends_at(&self, i: usize, l: &Vec<Vec<char>>, q: &Option<Vec<char>>) -> (r: bool)
        requires
            i < l@.len(),
        ensures
            r == url_ends(i as int, vviews(l@), opt_vec_view(*q)),
    {
        let token = &l[i];
        if is_whitespace_token(token) || chars_eq(token, &lit(")")) || chars_eq(token, &lit("]")) {
            return true;
        }
        if l.len() - i > 1 {
            let next = &l[i + 1];
            let next_closer = is_whitespace_token(next) || Self::is_closer_exec(next);
            let tok_ender = Self::is_ender_exec(token) || Self::quote_is(q, token);
            (next_closer && tok_ender) || !self.url_chars_match(token)
        } else {
            !self.url_chars_match(token) || chars_eq(token, &lit(".")) || Self::quote_is(q, token)
        }
    }

    /// `joinUrls`.
    fn join_urls(&self, l: &Vec<Vec<char>>) -> (r: Vec<Vec<char>>)
        ensures
            vviews(r@) == spec_join_urls(vviews(l@)),
    {
        let ghost lv = vviews(l@);
        let mut new_list: Vec<Vec<char>> = Vec::new();
        let mut in_url = false;
        let mut url: Vec<char> = Vec::new();
        let mut url_quote: Option<Vec<char>> = None;
        let mut i: usize = 0;
        assert(vviews(new_list@) =~= Seq::<Seq<char>>::empty());
        while i < l.len()
            invariant
                i <= l.len(),
                lv == vviews(l@),
                (vviews(new_list@), in_url, url@, opt_vec_view(url_quote)) == url_fold(
                    lv,
                    i as int,
                ),
            decreases l.len() - i,
        {
            let ghost n0 = new_list@;
            if self.url_starts_at(i, l) && !in_url {
                in_url = true;
                if i >= 1 {
                    url_quote = Some(chars_vec(&l[i - 1]));
                }
                crate::text::append_chars(&mut url, &l[i]);
            } else if in_url && self.url_ends_at(i, l, &url_quote) {
                in_url = false;
                url_quote = None;
                let done = url;
                url = Vec::new();
                new_list.push(done);
                let ghost n1 = new_list@;
                let t = chars_vec(&l[i]);
                new_list.push(t);
                proof {
                    lemma_vviews_push(n0, done);
                    lemma_vviews_push(n1, t);
                    assert(url@ =~= Seq::<char>::empty());
                }
            } else if in_url {
                crate::text::append_chars(&mut url, &l[i]);
            } else {
                let t = chars_vec(&l[i]);
                new_list.push(t);
                proof {
                    lemma_vviews_push(n0, t);
                }
            }
            i += 1;
        }
        assert(lv.len() == l.len());
        if url.len() > 0 {
            let ghost n0 = new_list@;
            let u = url;
            new_list.push(u);
            proof {
                lemma_vviews_push(n0, u);
            }
        }
        new_list
    }
}

/// View of an optional character vector.
pub open spec fn opt_vec_view(q: Option<Vec<char>>) -> Option<Seq<char>> {
    match q {
        Some(v) => Some(v@),
        None => None,
    }
}

} // verus!
