//! Character-level text helpers shared by every stage of the pipeline.
//!
//! All verified logic works on `Seq<char>` / `Vec<char>`. The few places where
//! std's Unicode tables decide (case, whitespace, letter classes) go through
//! small trusted wrappers whose results are named by uninterpreted spec
//! functions; everything else (line splitting, trimming, searching) is written
//! and proved here.

use vstd::prelude::*;

verus! {

// ---------------------------------------------------------------------------
// Names for std's Unicode-table answers
// ---------------------------------------------------------------------------

/// `char::is_whitespace`: the Unicode `White_Space` property, held by
/// U+0009..U+000D, U+0020, U+0085, U+00A0, U+1680, U+2000..U+200A, U+2028,
/// U+2029, U+202F, U+205F and U+3000.
pub open spec fn uc_whitespace(c: char) -> bool {
    ||| ('\u{9}' <= c <= '\u{d}')
    ||| c == ' '
    ||| c == '\u{85}'
    ||| c == '\u{a0}'
    ||| c == '\u{1680}'
    ||| ('\u{2000}' <= c <= '\u{200a}')
    ||| c == '\u{2028}'
    ||| c == '\u{2029}'
    ||| c == '\u{202f}'
    ||| c == '\u{205f}'
    ||| c == '\u{3000}'
}

/// `char::is_alphabetic` (Unicode `Alphabetic`).
pub uninterp spec fn uc_alphabetic(c: char) -> bool;

/// `char::is_lowercase` (Unicode `Lowercase`).
pub uninterp spec fn uc_lowercase(c: char) -> bool;

/// `char::is_uppercase` (Unicode `Uppercase`).
pub uninterp spec fn uc_uppercase(c: char) -> bool;

/// `char::is_numeric` (Unicode general categories `Nd`, `Nl`, `No`).
pub uninterp spec fn uc_numeric(c: char) -> bool;

/// `str::to_lowercase` of a whole string.
pub uninterp spec fn lower_str(s: Seq<char>) -> Seq<char>;

/// `str::to_uppercase` of a whole string.
pub uninterp spec fn upper_str(s: Seq<char>) -> Seq<char>;

/// `char::to_uppercase` of one character, collected into a string.
pub uninterp spec fn upper_char(c: char) -> Seq<char>;

/// `char::to_lowercase` of one character, collected into a string.
pub uninterp spec fn lower_char(c: char) -> Seq<char>;

/// `char::is_whitespace`, written out over the `White_Space` code points.
pub fn is_whitespace_char(c: char) -> (b: bool)
    ensures
        b == uc_whitespace(c),
{
    ('\u{9}' <= c && c <= '\u{d}') || c == ' ' || c == '\u{85}' || c == '\u{a0}' || c == '\u{1680}'
        || ('\u{2000}' <= c && c <= '\u{200a}') || c == '\u{2028}' || c == '\u{2029}' || c
        == '\u{202f}' || c == '\u{205f}' || c == '\u{3000}'
}

/// Wraps `char::is_alphabetic`; the result is the named Unicode property.
#[verifier::external_body]
pub(crate) fn is_alphabetic_char(c: char) -> (b: bool)
    ensures
        b == uc_alphabetic(c),
{
    c.is_alphabetic()
}

/// Wraps `char::is_lowercase`; the result is the named Unicode property.
#[verifier::external_body]
pub(crate) fn is_lowercase_char(c: char) -> (b: bool)
    ensures
        b == uc_lowercase(c),
{
    c.is_lowercase()
}

/// Wraps `char::is_uppercase`; the result is the named Unicode property.
#[verifier::external_body]
pub(crate) fn is_uppercase_char(c: char) -> (b: bool)
    ensures
        b == uc_uppercase(c),
{
    c.is_uppercase()
}

/// Wraps `char::is_numeric`; the result is the named Unicode property.
#[verifier::external_body]
pub(crate) fn is_numeric_char(c: char) -> (b: bool)
    ensures
        b == uc_numeric(c),
{
    c.is_numeric()
}

/// Wraps `str::to_lowercase`: the result is the named lowercase mapping of the
/// whole input.
#[verifier::external_body]
pub(crate) fn to_lowercase_chars(s: &[char]) -> (r: Vec<char>)
    ensures
        r@ == lower_str(s@),
{
    s.iter().collect::<String>().to_lowercase().chars().collect()
}

/// Wraps `str::to_uppercase`: the result is the named uppercase mapping of the
/// whole input.
#[verifier::external_body]
pub(crate) fn to_uppercase_chars(s: &[char]) -> (r: Vec<char>)
    ensures
        r@ == upper_str(s@),
{
    s.iter().collect::<String>().to_uppercase().chars().collect()
}

/// Wraps `char::to_uppercase`: the collected mapping of one character.
#[verifier::external_body]
pub(crate) fn char_to_uppercase(c: char) -> (r: Vec<char>)
    ensures
        r@ == upper_char(c),
{
    c.to_uppercase().collect()
}

/// Wraps `char::to_lowercase`: the collected mapping of one character.
#[verifier::external_body]
pub(crate) fn char_to_lowercase(c: char) -> (r: Vec<char>)
    ensures
        r@ == lower_char(c),
{
    c.to_lowercase().collect()
}

/// Wraps `str::chars().collect()`: the characters of a string slice, in order.
#[verifier::external_body]
pub(crate) fn str_chars(s: &str) -> (r: Vec<char>)
    ensures
        r@ == s@,
{
    s.chars().collect()
}

/// Wraps `FromIterator<char> for String`: a string holding exactly `v`.
#[verifier::external_body]
pub(crate) fn chars_to_string(v: &[char]) -> (r: String)
    ensures
        r@ == v@,
{
    v.iter().collect()
}

// ---------------------------------------------------------------------------
// Verified helpers
// ---------------------------------------------------------------------------

/// Owned copy of a slice of characters.
pub fn chars_vec(v: &[char]) -> (r: Vec<char>)
    ensures
        r@ == v@,
{
    let mut r: Vec<char> = Vec::new();
    let mut i: usize = 0;
    while i < v.len()
        invariant
            i <= v.len(),
            r@ == v@.subrange(0, i as int),
        decreases v.len() - i,
    {
        r.push(v[i]);
        i += 1;
    }
    r
}

/// The characters of a `String`.
pub fn string_chars(s: &String) -> (r: Vec<char>)
    ensures
        r@ == s@,
{
    str_chars(s.as_str())
}

/// Literal `str` as characters.
pub fn lit(s: &str) -> (r: Vec<char>)
    ensures
        r@ == s@,
{
    str_chars(s)
}

/// Appends all of `b` to `a`.
pub fn append_chars(a: &mut Vec<char>, b: &[char])
    ensures
        final(a)@ == old(a)@ + b@,
{
    let mut i: usize = 0;
    while i < b.len()
        invariant
            i <= b.len(),
            a@ == old(a)@ + b@.subrange(0, i as int),
        decreases b.len() - i,
    {
        a.push(b[i]);
        i += 1;
        assert(b@.subrange(0, i as int) == b@.subrange(0, i - 1).push(b@[i - 1]));
    }
    assert(b@.subrange(0, b.len() as int) == b@);
}

/// Character-sequence equality.
pub fn chars_eq(a: &[char], b: &[char]) -> (r: bool)
    ensures
        r == (a@ == b@),
{
    if a.len() != b.len() {
        return false;
    }
    let mut i: usize = 0;
    while i < a.len()
        invariant
            a.len() == b.len(),
            i <= a.len(),
            forall|j: int| 0 <= j < i ==> a@[j] == b@[j],
        decreases a.len() - i,
    {
        if a[i] != b[i] {
            return false;
        }
        i += 1;
    }
    assert(a@ =~= b@);
    true
}

/// Whether `s` starts with `p`.
pub open spec fn starts_with(s: Seq<char>, p: Seq<char>) -> bool {
    p.len() <= s.len() && s.subrange(0, p.len() as int) == p
}

/// Whether `s` ends with `p`.
pub open spec fn ends_with(s: Seq<char>, p: Seq<char>) -> bool {
    p.len() <= s.len() && s.subrange(s.len() - p.len(), s.len() as int) == p
}

/// Whether `p` occurs in `s` at position `i`.
pub open spec fn occurs_at(s: Seq<char>, p: Seq<char>, i: int) -> bool {
    0 <= i && i + p.len() <= s.len() && s.subrange(i, i + p.len()) == p
}

/// Whether `p` occurs anywhere in `s`.
pub open spec fn contains_seq(s: Seq<char>, p: Seq<char>) -> bool {
    exists|i: int| occurs_at(s, p, i)
}

pub fn has_prefix(s: &[char], p: &[char]) -> (r: bool)
    ensures
        r == starts_with(s@, p@),
{
    matches_at(s, p, 0)
}

pub fn has_suffix(s: &[char], p: &[char]) -> (r: bool)
    ensures
        r == ends_with(s@, p@),
{
    if p.len() > s.len() {
        return false;
    }
    matches_at(s, p, s.len() - p.len())
}

/// Whether `p` occurs in `s` at `at`.
pub fn matches_at(s: &[char], p: &[char], at: usize) -> (r: bool)
    ensures
        r == occurs_at(s@, p@, at as int),
{
    if at > s.len() || p.len() > s.len() - at {
        return false;
    }
    let mut j: usize = 0;
    while j < p.len()
        invariant
            at + p.len() <= s.len(),
            j <= p.len(),
            forall|k: int| 0 <= k < j ==> s@[at + k] == p@[k],
        decreases p.len() - j,
    {
        if s[at + j] != p[j] {
            assert(s@.subrange(at as int, at + p.len())[j as int] != p@[j as int]);
            return false;
        }
        j += 1;
    }
    assert(s@.subrange(at as int, at + p.len()) =~= p@);
    true
}

/// Whether `p` occurs anywhere in `s`.
pub fn contains_chars(s: &[char], p: &[char]) -> (r: bool)
    ensures
        r == contains_seq(s@, p@),
{
    if p.len() > s.len() {
        assert(forall|i: int| !occurs_at(s@, p@, i));
        return false;
    }
    let mut i: usize = 0;
    loop
        invariant
            p.len() <= s.len(),
            i <= s.len() - p.len(),
            forall|k: int| 0 <= k < i ==> !occurs_at(s@, p@, k),
        ensures
            forall|k: int| 0 <= k <= s.len() - p.len() ==> !occurs_at(s@, p@, k),
        decreases s.len() - p.len() - i,
    {
        if matches_at(s, p, i) {
            return true;
        }
        if i == s.len() - p.len() {
            break;
        }
        i += 1;
    }
    assert forall|k: int| !occurs_at(s@, p@, k) by {
        if 0 <= k && k + p@.len() <= s@.len() {
            assert(k <= s.len() - p.len());
        }
    }
    false
}

/// Whether character `c` occurs in `s`.
pub fn contains_char(s: &[char], c: char) -> (r: bool)
    ensures
        r == s@.contains(c),
{
    let mut i: usize = 0;
    while i < s.len()
        invariant
            i <= s.len(),
            forall|k: int| 0 <= k < i ==> s@[k] != c,
        decreases s.len() - i,
    {
        if s[i] == c {
            return true;
        }
        i += 1;
    }
    false
}

/// Every character of `s` is Unicode whitespace.
pub open spec fn all_whitespace(s: Seq<char>) -> bool {
    forall|i: int| 0 <= i < s.len() ==> uc_whitespace(#[trigger] s[i])
}

/// Non-empty and made only of whitespace characters.
pub fn is_whitespace_token(s: &[char]) -> (r: bool)
    ensures
        r == (s@.len() > 0 && all_whitespace(s@)),
{
    if s.len() == 0 {
        return false;
    }
    let mut i: usize = 0;
    while i < s.len()
        invariant
            i <= s.len(),
            forall|k: int| 0 <= k < i ==> uc_whitespace(#[trigger] s@[k]),
        decreases s.len() - i,
    {
        if !is_whitespace_char(s[i]) {
            return false;
        }
        i += 1;
    }
    true
}

// --- trimming --------------------------------------------------------------

/// Number of leading whitespace characters.
pub open spec fn lead_ws(s: Seq<char>) -> nat
    decreases s.len(),
{
    if s.len() > 0 && uc_whitespace(s[0]) {
        1 + lead_ws(s.drop_first())
    } else {
        0
    }
}

/// Number of trailing whitespace characters.
pub open spec fn trail_ws(s: Seq<char>) -> nat
    decreases s.len(),
{
    if s.len() > 0 && uc_whitespace(s.last()) {
        1 + trail_ws(s.drop_last())
    } else {
        0
    }
}

/// `str::trim`: leading and trailing whitespace removed.
pub open spec fn trim(s: Seq<char>) -> Seq<char> {
    let a = lead_ws(s);
    let t = s.skip(a as int);
    t.subrange(0, t.len() - trail_ws(t))
}

proof fn lemma_lead_ws_bound(s: Seq<char>)
    ensures
        lead_ws(s) <= s.len(),
        forall|k: int| 0 <= k < lead_ws(s) ==> uc_whitespace(#[trigger] s[k]),
        lead_ws(s) < s.len() ==> !uc_whitespace(s[lead_ws(s) as int]),
    decreases s.len(),
{
    if s.len() > 0 && uc_whitespace(s[0]) {
        lemma_lead_ws_bound(s.drop_first());
        assert forall|k: int| 0 <= k < lead_ws(s) implies uc_whitespace(#[trigger] s[k]) by {
            if k > 0 {
                assert(s[k] == s.drop_first()[k - 1]);
            }
        }
    }
}

proof fn lemma_trail_ws_bound(s: Seq<char>)
    ensures
        trail_ws(s) <= s.len(),
    decreases s.len(),
{
    if s.len() > 0 && uc_whitespace(s.last()) {
        lemma_trail_ws_bound(s.drop_last());
    }
}

/// Index of the first non-whitespace character.
fn lead_ws_exec(s: &[char]) -> (r: usize)
    ensures
        r == lead_ws(s@),
{
    let mut i: usize = 0;
    proof {
        lemma_lead_ws_bound(s@);
        assert(s@.skip(0) =~= s@);
    }
    while i < s.len() && is_whitespace_char(s[i])
        invariant
            i <= s.len(),
            lead_ws(s@) == i + lead_ws(s@.skip(i as int)),
        decreases s.len() - i,
    {
        assert(s@.skip(i as int).drop_first() =~= s@.skip(i + 1));
        i += 1;
    }
    assert(lead_ws(s@.skip(i as int)) == 0) by {
        if i < s.len() {
            assert(s@.skip(i as int)[0] == s@[i as int]);
        }
    }
    i
}

/// Number of trailing whitespace characters of `s`.
fn trail_ws_exec(s: &[char]) -> (r: usize)
    ensures
        r == trail_ws(s@),
{
    let mut n: usize = s.len();
    proof {
        lemma_trail_ws_bound(s@);
        assert(s@.subrange(0, s.len() as int) =~= s@);
    }
    while n > 0 && is_whitespace_char(s[n - 1])
        invariant
            n <= s.len(),
            trail_ws(s@) == (s.len() - n) + trail_ws(s@.subrange(0, n as int)),
        decreases n,
    {
        assert(s@.subrange(0, n as int).drop_last() =~= s@.subrange(0, n - 1));
        assert(s@.subrange(0, n as int).last() == s@[n - 1]);
        n -= 1;
    }
    assert(trail_ws(s@.subrange(0, n as int)) == 0) by {
        if n > 0 {
            assert(s@.subrange(0, n as int).last() == s@[n - 1]);
        }
    }
    s.len() - n
}

/// `str::trim` on a character slice.
pub fn trim_chars(s: &[char]) -> (r: Vec<char>)
    ensures
        r@ == trim(s@),
{
    let a = lead_ws_exec(s);
    proof {
        lemma_lead_ws_bound(s@);
    }
    let mut t: Vec<char> = Vec::new();
    let mut i: usize = a;
    while i < s.len()
        invariant
            a <= i <= s.len(),
            t@ == s@.subrange(a as int, i as int),
        decreases s.len() - i,
    {
        t.push(s[i]);
        i += 1;
    }
    assert(t@ =~= s@.skip(a as int));
    let k = trail_ws_exec(&t);
    proof {
        lemma_trail_ws_bound(t@);
    }
    let mut r: Vec<char> = Vec::new();
    let mut j: usize = 0;
    while j < t.len() - k
        invariant
            k <= t.len(),
            j <= t.len() - k,
            r@ == t@.subrange(0, j as int),
        decreases t.len() - k - j,
    {
        r.push(t[j]);
        j += 1;
    }
    r
}

// --- splitting -------------------------------------------------------------

/// Pieces of `cur + rest` split at every `c` (where `cur` holds no `c`): the
/// first piece is extended by `cur`.
pub open spec fn split_acc(cur: Seq<char>, rest: Seq<char>, c: char) -> Seq<Seq<char>>
    decreases rest.len(),
{
    if rest.len() == 0 {
        seq![cur]
    } else if rest[0] == c {
        seq![cur] + split_acc(Seq::empty(), rest.drop_first(), c)
    } else {
        split_acc(cur.push(rest[0]), rest.drop_first(), c)
    }
}

/// `str::split(c)`: the pieces between occurrences of `c` (always at least one).
pub open spec fn split_on(s: Seq<char>, c: char) -> Seq<Seq<char>> {
    split_acc(Seq::empty(), s, c)
}

/// `str::split(c)` on a character slice.
pub fn split_chars(s: &[char], c: char) -> (r: Vec<Vec<char>>)
    ensures
        r@.map_values(|v: Vec<char>| v@) == split_on(s@, c),
{
    let mut parts: Vec<Vec<char>> = Vec::new();
    let mut cur: Vec<char> = Vec::new();
    let mut i: usize = 0;
    assert(s@.skip(0) =~= s@);
    assert(parts@.map_values(|v: Vec<char>| v@) =~= Seq::<Seq<char>>::empty());
    assert(cur@ =~= Seq::<char>::empty());
    while i < s.len()
        invariant
            i <= s.len(),
            split_on(s@, c) == parts@.map_values(|v: Vec<char>| v@) + split_acc(
                cur@,
                s@.skip(i as int),
                c,
            ),
        decreases s.len() - i,
    {
        let ghost rest = s@.skip(i as int);
        assert(rest[0] == s@[i as int]);
        assert(rest.drop_first() =~= s@.skip(i + 1));
        if s[i] == c {
            let ghost old_parts = parts@.map_values(|v: Vec<char>| v@);
            let done = cur;
            parts.push(done);
            cur = Vec::new();
            assert(parts@.map_values(|v: Vec<char>| v@) =~= old_parts.push(done@));
            assert(split_acc(done@, rest, c) == seq![done@] + split_acc(
                Seq::empty(),
                rest.drop_first(),
                c,
            ));
            assert(old_parts + (seq![done@] + split_acc(Seq::empty(), rest.drop_first(), c))
                =~= old_parts.push(done@) + split_acc(Seq::empty(), rest.drop_first(), c));
            assert(cur@ =~= Seq::<char>::empty());
        } else {
            cur.push(s[i]);
        }
        i += 1;
    }
    let ghost old_parts = parts@.map_values(|v: Vec<char>| v@);
    assert(s@.skip(i as int) =~= Seq::<char>::empty());
    let last = cur;
    parts.push(last);
    assert(parts@.map_values(|v: Vec<char>| v@) =~= old_parts.push(last@));
    assert(old_parts + seq![last@] =~= old_parts.push(last@));
    parts
}

/// A line without its trailing carriage return.
pub open spec fn strip_cr(l: Seq<char>) -> Seq<char> {
    if l.len() > 0 && l.last() == '\r' {
        l.drop_last()
    } else {
        l
    }
}

/// `str::lines`: split at `\n`, the final empty piece dropped, and a trailing
/// `\r` removed from each line.
pub open spec fn lines(s: Seq<char>) -> Seq<Seq<char>> {
    let parts = split_on(s, '\n');
    let kept = if parts.last().len() == 0 {
        parts.drop_last()
    } else {
        parts
    };
    kept.map_values(|l: Seq<char>| strip_cr(l))
}

/// Splitting always gives at least one part.
pub proof fn lemma_split_on_nonempty(s: Seq<char>, c: char)
    ensures
        split_on(s, c).len() >= 1,
{
    lemma_split_acc_nonempty(Seq::empty(), s, c);
}

proof fn lemma_split_acc_nonempty(cur: Seq<char>, rest: Seq<char>, c: char)
    ensures
        split_acc(cur, rest, c).len() >= 1,
    decreases rest.len(),
{
    if rest.len() > 0 {
        if rest[0] == c {
            lemma_split_acc_nonempty(Seq::empty(), rest.drop_first(), c);
        } else {
            lemma_split_acc_nonempty(cur.push(rest[0]), rest.drop_first(), c);
        }
    }
}

/// `str::lines` on a character slice.
pub fn lines_chars(s: &[char]) -> (r: Vec<Vec<char>>)
    ensures
        r@.map_values(|v: Vec<char>| v@) == lines(s@),
{
    let parts = split_chars(s, '\n');
    proof {
        lemma_split_acc_nonempty(Seq::empty(), s@, '\n');
    }
    let ghost pv = parts@.map_values(|v: Vec<char>| v@);
    let n = if parts[parts.len() - 1].len() == 0 {
        parts.len() - 1
    } else {
        parts.len()
    };
    let ghost kept = if pv.last().len() == 0 {
        pv.drop_last()
    } else {
        pv
    };
    assert(kept.len() == n);
    let mut out: Vec<Vec<char>> = Vec::new();
    let mut i: usize = 0;
    while i < n
        invariant
            n <= parts.len(),
            kept.len() == n,
            pv == parts@.map_values(|v: Vec<char>| v@),
            forall|k: int| 0 <= k < n ==> kept[k] == pv[k],
            i <= n,
            out@.map_values(|v: Vec<char>| v@) == kept.subrange(0, i as int).map_values(
                |l: Seq<char>| strip_cr(l),
            ),
        decreases n - i,
    {
        let p = &parts[i];
        let mut line = chars_vec(p.as_slice());
        if line.len() > 0 && line[line.len() - 1] == '\r' {
            line.pop();
        }
        assert(line@ == strip_cr(kept[i as int]));
        let ghost old_out = out@.map_values(|v: Vec<char>| v@);
        out.push(line);
        assert(out@.map_values(|v: Vec<char>| v@) =~= old_out.push(line@));
        assert(kept.subrange(0, i + 1).map_values(|l: Seq<char>| strip_cr(l)) =~= kept.subrange(
            0,
            i as int,
        ).map_values(|l: Seq<char>| strip_cr(l)).push(strip_cr(kept[i as int])));
        i += 1;
    }
    assert(kept.subrange(0, n as int) =~= kept);
    out
}

/// Position of the first `c` in `s`, if any.
pub fn find_char(s: &[char], c: char) -> (r: Option<usize>)
    ensures
        match r {
            Some(i) => i < s@.len() && s@[i as int] == c && forall|k: int|
                0 <= k < i ==> s@[k] != c,
            None => !s@.contains(c),
        },
{
    let mut i: usize = 0;
    while i < s.len()
        invariant
            i <= s.len(),
            forall|k: int| 0 <= k < i ==> s@[k] != c,
        decreases s.len() - i,
    {
        if s[i] == c {
            return Some(i);
        }
        i += 1;
    }
    None
}

/// The characters `s[from..to]`.
pub fn sub_chars(s: &[char], from: usize, to: usize) -> (r: Vec<char>)
    requires
        from <= to <= s@.len(),
    ensures
        r@ == s@.subrange(from as int, to as int),
{
    let mut r: Vec<char> = Vec::new();
    let mut i: usize = from;
    while i < to
        invariant
            from <= i <= to <= s@.len(),
            r@ == s@.subrange(from as int, i as int),
        decreases to - i,
    {
        r.push(s[i]);
        i += 1;
    }
    r
}

} // verus!
