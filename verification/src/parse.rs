//! Reading a `<pattern>` element into a [`Pattern`].
//!
//! Supported token features: `postag`/`postag_regexp`, `regexp`, `inflected`,
//! `case_sensitive`, `negate`/`negate_pos`, `min`/`max`/`skip`, `spacebefore`,
//! `<exception>` (with `scope="current"|"previous"|"next"`), `<and>` groups
//! and `<marker>`. `<or>` groups, `chunk`/`chunk_re`, other exception scopes
//! and regexes that do not compile are recorded in
//! [`ParsedPattern::unsupported`] so that callers can skip such rules.

use vstd::prelude::*;
use crate::pattern::Pattern;
use crate::regex::regex_compiles;
use crate::text::{chars_to_string, chars_vec, lit, str_chars, trim, trim_chars};
use crate::token::{full_pos_regex, full_regex, PosMatcher, StringMatcher, TokenMatcher};
use crate::xml::{
    attr, attr_is_yes, attr_spec, attr_yes, attrs_view, event_view, events_view, is_tag, note,
    push_unique, read_events, ref_chars, ref_text, string_views, tag_is, text_chars, text_of,
    xml_events, XmlEvent, XmlEventV,
};

verus! {

// ---------------------------------------------------------------------------
// Integers
// ---------------------------------------------------------------------------

pub open spec fn digit_val(c: char) -> int {
    (c as int) - ('0' as int)
}

pub open spec fn all_digits(s: Seq<char>) -> bool {
    forall|i: int| 0 <= i < s.len() ==> '0' <= #[trigger] s[i] <= '9'
}

/// The value of a string of decimal digits.
pub open spec fn digits_value(s: Seq<char>) -> int
    decreases s.len(),
{
    if s.len() == 0 {
        0
    } else {
        digits_value(s.drop_last()) * 10 + digit_val(s.last())
    }
}

/// `i32::from_str`: an optional sign, then one or more digits, in range.
pub open spec fn parse_i32_spec(s: Seq<char>) -> Option<i32> {
    if s.len() == 0 {
        None
    } else {
        let neg = s[0] == '-';
        let body = if s[0] == '-' || s[0] == '+' {
            s.drop_first()
        } else {
            s
        };
        if body.len() == 0 || !all_digits(body) {
            None
        } else {
            let v = if neg {
                -digits_value(body)
            } else {
                digits_value(body)
            };
            if i32::MIN <= v <= i32::MAX {
                Some(v as i32)
            } else {
                None
            }
        }
    }
}

proof fn lemma_digits_value_mono(s: Seq<char>, k: int)
    requires
        0 <= k <= s.len(),
        all_digits(s),
    ensures
        digits_value(s.subrange(0, k)) <= digits_value(s),
        digits_value(s) >= 0,
    decreases s.len() - k,
{
    if k < s.len() {
        lemma_digits_value_mono(s, k + 1);
        let t = s.subrange(0, k + 1);
        assert(t.drop_last() =~= s.subrange(0, k));
        assert('0' <= s[k] <= '9');
        lemma_digits_nonneg(s.subrange(0, k));
    } else {
        assert(s.subrange(0, k) =~= s);
        lemma_digits_nonneg(s);
    }
}

/// A string of digits has a nonnegative value.
pub proof fn lemma_digits_nonneg(s: Seq<char>)
    requires
        all_digits(s),
    ensures
        digits_value(s) >= 0,
    decreases s.len(),
{
    if s.len() > 0 {
        assert(all_digits(s.drop_last())) by {
            assert forall|i: int| 0 <= i < s.drop_last().len() implies '0' <= #[trigger] s.drop_last()[i] <= '9' by {
                assert(s.drop_last()[i] == s[i]);
            }
        }
        lemma_digits_nonneg(s.drop_last());
        assert('0' <= s[s.len() - 1] <= '9');
    }
}

/// `str::parse::<i32>` on characters.
pub fn parse_i32(s: &[char]) -> (r: Option<i32>)
    ensures
        r == parse_i32_spec(s@),
{
    if s.len() == 0 {
        return None;
    }
    let neg = s[0] == '-';
    let start: usize = if s[0] == '-' || s[0] == '+' {
        1
    } else {
        0
    };
    let ghost body = if s@[0] == '-' || s@[0] == '+' {
        s@.drop_first()
    } else {
        s@
    };
    assert(body =~= s@.subrange(start as int, s.len() as int));
    if start >= s.len() {
        return None;
    }
    let mut v: i64 = 0;
    let mut over = false;
    let mut i = start;
    while i < s.len()
        invariant
            start <= i <= s.len(),
            s@.len() > 0,
            neg == (s@[0] == '-'),
            start == (if s@[0] == '-' || s@[0] == '+' {
                1int
            } else {
                0int
            }),
            body == (if s@[0] == '-' || s@[0] == '+' {
                s@.drop_first()
            } else {
                s@
            }),
            body == s@.subrange(start as int, s.len() as int),
            forall|k: int| start <= k < i ==> '0' <= #[trigger] s@[k] <= '9',
            !over ==> v == digits_value(s@.subrange(start as int, i as int)),
            !over ==> 0 <= v <= 2147483648,
            over ==> digits_value(s@.subrange(start as int, i as int)) > 2147483648,
        decreases s.len() - i,
    {
        let c = s[i];
        if c < '0' || c > '9' {
            assert(!all_digits(body)) by {
                assert(body[i - start] == s@[i as int]);
            }
            return None;
        }
        let ghost pre = s@.subrange(start as int, i as int);
        let ghost nxt = s@.subrange(start as int, i + 1);
        assert(nxt.drop_last() =~= pre);
        assert(nxt.last() == c);
        proof {
            assert(all_digits(pre)) by {
                assert forall|k: int| 0 <= k < pre.len() implies '0' <= #[trigger] pre[k] <= '9' by {
                    assert(pre[k] == s@[start + k]);
                }
            }
            lemma_digits_nonneg(pre);
        }
        if !over {
            let d = (c as u32 - '0' as u32) as i64;
            let nv = v * 10 + d;
            if nv > 2147483648 {
                over = true;
            } else {
                v = nv;
            }
        }
        i += 1;
    }
    assert(all_digits(body)) by {
        assert forall|k: int| 0 <= k < body.len() implies '0' <= #[trigger] body[k] <= '9' by {
            assert(body[k] == s@[start + k]);
        }
    }
    assert(s@.subrange(start as int, s.len() as int) =~= body);
    if over {
        return None;
    }
    let val: i64 = if neg {
        -v
    } else {
        v
    };
    if val < -2147483648 || val > 2147483647 {
        return None;
    }
    Some(val as i32)
}

// ---------------------------------------------------------------------------
// Token descriptions
// ---------------------------------------------------------------------------

/// The attributes and text of a `<token>` or `<exception>` element.
pub struct TokSpec {
    pub text: Vec<char>,
    pub regexp: bool,
    pub inflected: bool,
    pub negate: bool,
    pub negate_pos: bool,
    pub case_sensitive: bool,
    pub postag: Option<Vec<char>>,
    pub postag_regexp: bool,
    pub spacebefore: Option<bool>,
    pub min: i32,
    pub max: i32,
    pub skip: i32,
    pub has_chunk: bool,
    pub scope: Option<Vec<char>>,
}

pub struct TokSpecV {
    pub text: Seq<char>,
    pub regexp: bool,
    pub inflected: bool,
    pub negate: bool,
    pub negate_pos: bool,
    pub case_sensitive: bool,
    pub postag: Option<Seq<char>>,
    pub postag_regexp: bool,
    pub spacebefore: Option<bool>,
    pub min: i32,
    pub max: i32,
    pub skip: i32,
    pub has_chunk: bool,
    pub scope: Option<Seq<char>>,
}

pub open spec fn ocv(o: Option<Vec<char>>) -> Option<Seq<char>> {
    match o {
        Some(v) => Some(v@),
        None => None,
    }
}

pub open spec fn tokspec_view(t: TokSpec) -> TokSpecV {
    TokSpecV {
        text: t.text@,
        regexp: t.regexp,
        inflected: t.inflected,
        negate: t.negate,
        negate_pos: t.negate_pos,
        case_sensitive: t.case_sensitive,
        postag: ocv(t.postag),
        postag_regexp: t.postag_regexp,
        spacebefore: t.spacebefore,
        min: t.min,
        max: t.max,
        skip: t.skip,
        has_chunk: t.has_chunk,
        scope: ocv(t.scope),
    }
}

/// A `<token>` with its `<exception>`s.
pub struct TokenBuild {
    pub head: TokSpec,
    pub exceptions: Vec<TokSpec>,
}

/// A token description: the token, its exceptions, and the further
/// members of the `<and>` group it heads.
pub struct TokenBuildV {
    pub head: TokSpecV,
    pub exceptions: Seq<TokSpecV>,
    pub members: Seq<TokenBuildV>,
}

pub open spec fn build_view(b: TokenBuild) -> TokenBuildV {
    TokenBuildV {
        head: tokspec_view(b.head),
        exceptions: b.exceptions@.map_values(|t: TokSpec| tokspec_view(t)),
        members: Seq::empty(),
    }
}

/// An integer attribute, with a default.
pub open spec fn int_attr(attrs: Seq<(Seq<u8>, Seq<u8>)>, key: Seq<char>, dflt: i32) -> i32 {
    match attr_spec(attrs, key) {
        Some(v) => match parse_i32_spec(v) {
            Some(x) => x,
            None => dflt,
        },
        None => dflt,
    }
}

/// A token description from the element's attributes.
pub open spec fn tokspec_of(attrs: Seq<(Seq<u8>, Seq<u8>)>, default_cs: bool) -> TokSpecV {
    TokSpecV {
        text: Seq::empty(),
        regexp: attr_yes(attrs, "regexp"@),
        inflected: attr_yes(attrs, "inflected"@),
        negate: attr_yes(attrs, "negate"@),
        negate_pos: attr_yes(attrs, "negate_pos"@),
        case_sensitive: match attr_spec(attrs, "case_sensitive"@) {
            Some(v) => v == "yes"@,
            None => default_cs,
        },
        postag: attr_spec(attrs, "postag"@),
        postag_regexp: attr_yes(attrs, "postag_regexp"@),
        spacebefore: match attr_spec(attrs, "spacebefore"@) {
            Some(v) => Some(v == "yes"@),
            None => None,
        },
        min: int_attr(attrs, "min"@, 1),
        max: match attr_spec(attrs, "max"@) {
            Some(v) => if v == "unlimited"@ {
                -1i32
            } else {
                match parse_i32_spec(v) {
                    Some(x) => x,
                    None => 1i32,
                }
            },
            None => 1i32,
        },
        skip: int_attr(attrs, "skip"@, 0),
        has_chunk: attr_spec(attrs, "chunk"@) is Some || attr_spec(attrs, "chunk_re"@) is Some,
        scope: attr_spec(attrs, "scope"@),
    }
}

fn int_attr_exec(attrs: &Vec<(Vec<u8>, Vec<u8>)>, key: &str, dflt: i32) -> (r: i32)
    ensures
        r == int_attr(attrs_view(attrs@), key@, dflt),
{
    match attr(attrs, key) {
        Some(v) => match parse_i32(&v) {
            Some(x) => x,
            None => dflt,
        },
        None => dflt,
    }
}

fn eq_lit(v: &Vec<char>, s: &str) -> (r: bool)
    ensures
        r == (v@ == s@),
{
    crate::text::chars_eq(v, &str_chars(s))
}

/// A token description from the element's attributes.
pub fn tokspec_from_attrs(attrs: &Vec<(Vec<u8>, Vec<u8>)>, default_cs: bool) -> (r: TokSpec)
    ensures
        tokspec_view(r) == tokspec_of(attrs_view(attrs@), default_cs),
{
    let max = match attr(attrs, "max") {
        Some(v) => if eq_lit(&v, "unlimited") {
            -1
        } else {
            match parse_i32(&v) {
                Some(x) => x,
                None => 1,
            }
        },
        None => 1,
    };
    let case_sensitive = match attr(attrs, "case_sensitive") {
        Some(v) => eq_lit(&v, "yes"),
        None => default_cs,
    };
    let spacebefore = match attr(attrs, "spacebefore") {
        Some(v) => Some(eq_lit(&v, "yes")),
        None => None,
    };
    let t = TokSpec {
        text: Vec::new(),
        regexp: attr_is_yes(attrs, "regexp"),
        inflected: attr_is_yes(attrs, "inflected"),
        negate: attr_is_yes(attrs, "negate"),
        negate_pos: attr_is_yes(attrs, "negate_pos"),
        case_sensitive,
        postag: attr(attrs, "postag"),
        postag_regexp: attr_is_yes(attrs, "postag_regexp"),
        spacebefore,
        min: int_attr_exec(attrs, "min", 1),
        max,
        skip: int_attr_exec(attrs, "skip", 0),
        has_chunk: attr(attrs, "chunk").is_some() || attr(attrs, "chunk_re").is_some(),
        scope: attr(attrs, "scope"),
    };
    assert(tokspec_view(t).text =~= Seq::<char>::empty());
    t
}

/// Which position an exception is tested on: the previous (`-1`), the
/// next (`1`) or the token's own (`0`).
pub open spec fn scope_kind(s: Option<Seq<char>>) -> int {
    match s {
        Some(v) => if v == "previous"@ {
            -1
        } else if v == "next"@ {
            1
        } else {
            0
        },
        None => 0,
    }
}

/// No scope, or one of the three that are supported.
pub open spec fn known_scope(s: Option<Seq<char>>) -> bool {
    match s {
        Some(v) => v == "previous"@ || v == "next"@ || v == "current"@,
        None => true,
    }
}

fn scope_kind_exec(s: &Option<Vec<char>>) -> (k: i8)
    ensures
        k == scope_kind(ocv(*s)),
{
    match s {
        Some(v) => if eq_lit(v, "previous") {
            -1
        } else if eq_lit(v, "next") {
            1
        } else {
            0
        },
        None => 0,
    }
}

fn known_scope_exec(s: &Option<Vec<char>>) -> (b: bool)
    ensures
        b == known_scope(ocv(*s)),
{
    match s {
        Some(v) => eq_lit(v, "previous") || eq_lit(v, "next") || eq_lit(v, "current"),
        None => true,
    }
}

/// The exceptions tested on the position of the given kind, in order.
pub open spec fn in_scope(es: Seq<TokSpecV>, which: int) -> Seq<TokSpecV>
    decreases es.len(),
{
    if es.len() == 0 {
        Seq::empty()
    } else {
        let rest = in_scope(es.drop_last(), which);
        if scope_kind(es.last().scope) == which {
            rest.push(es.last())
        } else {
            rest
        }
    }
}

/// The notes a token description adds when it is built.
pub open spec fn spec_notes(t: TokSpecV, u: Seq<Seq<char>>) -> Seq<Seq<char>> {
    let u1 = if t.has_chunk {
        note(u, "chunk"@)
    } else {
        u
    };
    let u2 = if !known_scope(t.scope) {
        note(u1, "exception-scope"@)
    } else {
        u1
    };
    let txt = trim(t.text);
    if txt.len() > 0 && t.regexp && !regex_compiles(full_regex(txt, t.case_sensitive)) {
        note(u2, "regex"@)
    } else {
        u2
    }
}

/// The notes of the exceptions, in order.
pub open spec fn exc_notes(es: Seq<TokSpecV>, u: Seq<Seq<char>>) -> Seq<Seq<char>>
    decreases es.len(),
{
    if es.len() == 0 {
        u
    } else {
        exc_notes(es.drop_first(), spec_notes(es[0], u))
    }
}

pub open spec fn build_notes(b: TokenBuildV, u: Seq<Seq<char>>) -> Seq<Seq<char>> {
    exc_notes(b.exceptions, spec_notes(b.head, u))
}

/// `tm` is what a description builds (exceptions aside).
pub open spec fn built_head(tm: TokenMatcher, t: TokSpecV) -> bool {
    let txt = trim(t.text);
    &&& tm.inflected == t.inflected
    &&& tm.negate == t.negate
    &&& tm.negate_pos == t.negate_pos
    &&& tm.spacebefore == t.spacebefore
    &&& tm.min == t.min
    &&& tm.max == t.max
    &&& tm.skip == t.skip
    &&& if txt.len() == 0 {
        tm.string is None
    } else if t.regexp {
        if regex_compiles(full_regex(txt, t.case_sensitive)) {
            tm.string matches Some(StringMatcher::Regex(re)) && re.src() == full_regex(
                txt,
                t.case_sensitive,
            )
        } else {
            tm.string is None
        }
    } else {
        tm.string matches Some(StringMatcher::Literal { text, case_sensitive }) && text@ == txt
            && case_sensitive == t.case_sensitive
    }
    &&& match t.postag {
        None => tm.pos is None,
        Some(p) => if p == "UNKNOWN"@ {
            tm.pos matches Some(PosMatcher::Unknown)
        } else if !t.postag_regexp {
            tm.pos matches Some(PosMatcher::Exact(e)) && e@ == p
        } else if regex_compiles(full_pos_regex(p)) {
            tm.pos matches Some(PosMatcher::Regex(re)) && re.src() == full_pos_regex(p)
        } else {
            tm.pos is None
        },
    }
}

/// Each matcher is what the description at its index builds.
pub open spec fn built_list(ms: Seq<TokenMatcher>, ts: Seq<TokSpecV>) -> bool {
    ms.len() == ts.len() && forall|i: int| 0 <= i < ts.len() ==> built_head(#[trigger] ms[i], ts[i])
}

/// `tm` is what a token with its exceptions builds, its group aside.
pub open spec fn built_plain(tm: TokenMatcher, b: TokenBuildV) -> bool {
    &&& built_head(tm, b.head)
    &&& built_list(tm.exceptions@, in_scope(b.exceptions, 0))
    &&& built_list(tm.prev_exceptions@, in_scope(b.exceptions, -1))
    &&& built_list(tm.next_exceptions@, in_scope(b.exceptions, 1))
}

/// `tm` is what a token description builds, `<and>` group included.
pub open spec fn built(tm: TokenMatcher, b: TokenBuildV) -> bool {
    &&& built_plain(tm, b)
    &&& tm.and_group@.len() == b.members.len()
    &&& forall|j: int|
        0 <= j < b.members.len() ==> built_plain(#[trigger] tm.and_group@[j], b.members[j])
}

fn build_head(t: &TokSpec, unsupported: &mut Vec<String>) -> (tm: TokenMatcher)
    ensures
        built_head(tm, tokspec_view(*t)),
        tm.exceptions@.len() == 0 && tm.prev_exceptions@.len() == 0,
        tm.next_exceptions@.len() == 0 && tm.and_group@.len() == 0,
        string_views(final(unsupported)@) == spec_notes(
            tokspec_view(*t),
            string_views(old(unsupported)@),
        ),
{
    if t.has_chunk {
        push_unique(unsupported, "chunk");
    }
    if !known_scope_exec(&t.scope) {
        push_unique(unsupported, "exception-scope");
    }
    let text = trim_chars(&t.text);
    let ts = chars_to_string(&text);
    let string = if text.len() == 0 {
        None
    } else if t.regexp {
        match StringMatcher::regex(ts.as_str(), t.case_sensitive) {
            Ok(m) => Some(m),
            Err(_) => {
                push_unique(unsupported, "regex");
                None
            },
        }
    } else {
        Some(StringMatcher::literal(ts.as_str(), t.case_sensitive))
    };
    let pos = match &t.postag {
        Some(p) => {
            let ps = chars_to_string(p);
            match PosMatcher::new(ps.as_str(), t.postag_regexp) {
                Ok(m) => Some(m),
                Err(_) => None,
            }
        },
        None => None,
    };
    proof {
        reveal_strlit("UNKNOWN");
    }
    TokenMatcher {
        string,
        inflected: t.inflected,
        negate: t.negate,
        pos,
        negate_pos: t.negate_pos,
        spacebefore: t.spacebefore,
        exceptions: Vec::new(),
        prev_exceptions: Vec::new(),
        next_exceptions: Vec::new(),
        and_group: Vec::new(),
        min: t.min,
        max: t.max,
        skip: t.skip,
    }
}

/// Build a token matcher from its description, recording unsupported features.
fn build_token(b: &TokenBuild, unsupported: &mut Vec<String>) -> (tm: TokenMatcher)
    ensures
        built(tm, build_view(*b)),
        string_views(final(unsupported)@) == build_notes(
            build_view(*b),
            string_views(old(unsupported)@),
        ),
{
    let mut tm = build_head(&b.head, unsupported);
    let ghost es = build_view(*b).exceptions;
    let mut cur: Vec<TokenMatcher> = Vec::new();
    let mut prev: Vec<TokenMatcher> = Vec::new();
    let mut next: Vec<TokenMatcher> = Vec::new();
    let mut i: usize = 0;
    assert(es.skip(0) =~= es);
    assert(es.subrange(0, 0) =~= Seq::<TokSpecV>::empty());
    while i < b.exceptions.len()
        invariant
            i <= b.exceptions@.len(),
            es == build_view(*b).exceptions,
            build_notes(build_view(*b), string_views(old(unsupported)@)) == exc_notes(
                es.skip(i as int),
                string_views(unsupported@),
            ),
            built_list(cur@, in_scope(es.subrange(0, i as int), 0)),
            built_list(prev@, in_scope(es.subrange(0, i as int), -1)),
            built_list(next@, in_scope(es.subrange(0, i as int), 1)),
        decreases b.exceptions.len() - i,
    {
        assert(es.skip(i as int)[0] == tokspec_view(b.exceptions@[i as int]));
        assert(es.skip(i as int).drop_first() =~= es.skip(i + 1));
        let ghost pre = es.subrange(0, i as int);
        let ghost nxt = es.subrange(0, i + 1);
        assert(nxt.drop_last() =~= pre);
        assert(nxt.last() == tokspec_view(b.exceptions@[i as int]));
        let e = build_head(&b.exceptions[i], unsupported);
        let k = scope_kind_exec(&b.exceptions[i].scope);
        if k < 0 {
            prev.push(e);
        } else if k > 0 {
            next.push(e);
        } else {
            cur.push(e);
        }
        i += 1;
    }
    assert(es.subrange(0, i as int) =~= es);
    tm.exceptions = cur;
    tm.prev_exceptions = prev;
    tm.next_exceptions = next;
    tm
}

/// The token sequence after `</and>`: the tokens from `s` on become one
/// token, the first heading a group of the others.
pub open spec fn and_close(ts: Seq<TokenBuildV>, s: int) -> Seq<TokenBuildV> {
    if 0 <= s < ts.len() {
        ts.subrange(0, s).push(TokenBuildV { members: ts.subrange(s + 1, ts.len() as int), ..ts[s] })
    } else {
        ts
    }
}

fn close_group(tokens: &mut Vec<TokenMatcher>, s: usize, Ghost(ts): Ghost<Seq<TokenBuildV>>)
    requires
        s < old(tokens)@.len(),
        old(tokens)@.len() == ts.len(),
        forall|i: int| 0 <= i < ts.len() ==> built(#[trigger] old(tokens)@[i], ts[i]),
    ensures
        final(tokens)@.len() == and_close(ts, s as int).len(),
        forall|i: int|
            0 <= i < and_close(ts, s as int).len() ==> built(
                #[trigger] final(tokens)@[i],
                and_close(ts, s as int)[i],
            ),
{
    let ghost t0 = tokens@;
    let mut rev: Vec<TokenMatcher> = Vec::new();
    while tokens.len() > s + 1
        invariant
            s + 1 <= tokens@.len() <= t0.len(),
            tokens@ == t0.subrange(0, tokens@.len() as int),
            rev@.len() == t0.len() - tokens@.len(),
            forall|k: int| 0 <= k < rev@.len() ==> #[trigger] rev@[k] == t0[t0.len() - 1 - k],
        decreases tokens.len(),
    {
        let t = tokens.pop().unwrap();
        rev.push(t);
    }
    let mut head = tokens.pop().unwrap();
    assert(head == t0[s as int]);
    assert(tokens@ =~= t0.subrange(0, s as int));
    let mut group: Vec<TokenMatcher> = Vec::new();
    while rev.len() > 0
        invariant
            group@.len() + rev@.len() == t0.len() - s - 1,
            forall|k: int| 0 <= k < group@.len() ==> #[trigger] group@[k] == t0[s + 1 + k],
            forall|k: int| 0 <= k < rev@.len() ==> #[trigger] rev@[k] == t0[t0.len() - 1 - k],
        decreases rev.len(),
    {
        let t = rev.pop().unwrap();
        group.push(t);
    }
    head.and_group = group;
    tokens.push(head);
    let ghost ac = and_close(ts, s as int);
    assert forall|i: int| 0 <= i < ac.len() implies built(#[trigger] tokens@[i], ac[i]) by {
        if i < s {
            assert(tokens@[i] == t0[i]);
            assert(ac[i] == ts[i]);
        } else {
            assert(built(t0[s as int], ts[s as int]));
            assert forall|j: int| 0 <= j < ac[i].members.len() implies built_plain(
                #[trigger] tokens@[i].and_group@[j],
                ac[i].members[j],
            ) by {
                assert(tokens@[i].and_group@[j] == t0[s + 1 + j]);
                assert(ac[i].members[j] == ts[s + 1 + j]);
                assert(built(t0[s + 1 + j], ts[s + 1 + j]));
            }
        }
    }
}

// ---------------------------------------------------------------------------
// The reader
// ---------------------------------------------------------------------------

/// State of the reader: the tokens built so far (as descriptions), the
/// notes, the marker bounds, the open token and exception, whether inside
/// `<pattern>`, and whether `</pattern>` was reached.
pub struct PPState {
    pub tokens: Seq<TokenBuildV>,
    pub unsupported: Seq<Seq<char>>,
    pub mark_from: Option<int>,
    pub mark_to: Option<int>,
    pub cur: Option<TokenBuildV>,
    pub cur_exc: Option<TokSpecV>,
    pub and_start: Option<int>,
    pub in_pattern: bool,
    pub done: bool,
}

pub open spec fn pp_init(in_pattern: bool) -> PPState {
    PPState {
        tokens: Seq::empty(),
        unsupported: Seq::empty(),
        mark_from: None,
        mark_to: None,
        cur: None,
        cur_exc: None,
        and_start: None,
        in_pattern,
        done: false,
    }
}

/// Text added to the open exception, else to the open token.
pub open spec fn pp_add_text(st: PPState, txt: Seq<char>) -> PPState {
    match st.cur_exc {
        Some(e) => PPState { cur_exc: Some(TokSpecV { text: e.text + txt, ..e }), ..st },
        None => match st.cur {
            Some(c) => PPState {
                cur: Some(
                    TokenBuildV { head: TokSpecV { text: c.head.text + txt, ..c.head }, ..c },
                ),
                ..st
            },
            None => st,
        },
    }
}

/// One event.
pub open spec fn pp_step(st: PPState, ev: XmlEventV, cs: bool) -> PPState {
    match ev {
        XmlEventV::Start(n, a) => if is_tag(n, "pattern"@) {
            PPState { in_pattern: true, ..st }
        } else if is_tag(n, "marker"@) && st.in_pattern {
            PPState {
                mark_from: match st.mark_from {
                    Some(f) => Some(f),
                    None => Some(st.tokens.len() as int),
                },
                ..st
            }
        } else if is_tag(n, "token"@) && st.in_pattern {
            PPState {
                cur: Some(
                    TokenBuildV {
                        head: tokspec_of(a, cs),
                        exceptions: Seq::empty(),
                        members: Seq::empty(),
                    },
                ),
                ..st
            }
        } else if is_tag(n, "exception"@) {
            PPState { cur_exc: Some(tokspec_of(a, cs)), ..st }
        } else if is_tag(n, "and"@) && st.in_pattern {
            PPState { and_start: Some(st.tokens.len() as int), ..st }
        } else if is_tag(n, "or"@) {
            PPState { unsupported: note(st.unsupported, "and/or"@), ..st }
        } else {
            st
        },
        XmlEventV::Empty(n, a) => if is_tag(n, "token"@) && st.in_pattern {
            let b = TokenBuildV {
                head: tokspec_of(a, cs),
                exceptions: Seq::empty(),
                members: Seq::empty(),
            };
            PPState {
                tokens: st.tokens.push(b),
                unsupported: build_notes(b, st.unsupported),
                ..st
            }
        } else if is_tag(n, "exception"@) {
            match st.cur {
                Some(c) => PPState {
                    cur: Some(
                        TokenBuildV { exceptions: c.exceptions.push(tokspec_of(a, cs)), ..c },
                    ),
                    ..st
                },
                None => st,
            }
        } else if is_tag(n, "or"@) {
            PPState { unsupported: note(st.unsupported, "and/or"@), ..st }
        } else {
            st
        },
        XmlEventV::Text(raw) => pp_add_text(st, text_of(raw)),
        XmlEventV::Ref(name, ch) => match ref_text(name, ch) {
            Some(txt) => pp_add_text(st, txt),
            None => st,
        },
        XmlEventV::End(n) => if is_tag(n, "exception"@) {
            match (st.cur_exc, st.cur) {
                (Some(e), Some(c)) => PPState {
                    cur: Some(TokenBuildV { exceptions: c.exceptions.push(e), ..c }),
                    cur_exc: None,
                    ..st
                },
                _ => PPState { cur_exc: None, ..st },
            }
        } else if is_tag(n, "token"@) {
            match st.cur {
                Some(c) => PPState {
                    tokens: st.tokens.push(c),
                    unsupported: build_notes(c, st.unsupported),
                    cur: None,
                    ..st
                },
                None => st,
            }
        } else if is_tag(n, "and"@) {
            match st.and_start {
                Some(s) => PPState { tokens: and_close(st.tokens, s), and_start: None, ..st },
                None => st,
            }
        } else if is_tag(n, "marker"@) {
            PPState { mark_to: Some(st.tokens.len() as int), ..st }
        } else if is_tag(n, "pattern"@) {
            PPState { done: true, ..st }
        } else {
            st
        },
        XmlEventV::Other => st,
    }
}

/// The events `0..n`, stopping at `</pattern>` (`in_pattern`: the events
/// are the inside of a `<pattern>` element).
pub open spec fn pp_run(evs: Seq<XmlEventV>, n: int, cs: bool, in_pattern: bool) -> PPState
    decreases n,
{
    if n <= 0 {
        pp_init(in_pattern)
    } else {
        let st = pp_run(evs, n - 1, cs, in_pattern);
        if st.done {
            st
        } else {
            pp_step(st, evs[n - 1], cs)
        }
    }
}

/// The result of reading a pattern.
pub struct ParsedPattern {
    pub pattern: Pattern,
    pub unsupported: Vec<String>,
}

/// `p` holds what the reader state describes.
pub open spec fn pattern_from(p: Pattern, st: PPState) -> bool {
    &&& p.tokens@.len() == st.tokens.len()
    &&& forall|i: int| 0 <= i < st.tokens.len() ==> built(#[trigger] p.tokens@[i], st.tokens[i])
    &&& p.mark_from == match st.mark_from {
        Some(f) => f,
        None => 0,
    }
    &&& p.mark_to == match st.mark_to {
        Some(t) => t,
        None => st.tokens.len() as int,
    }
}

/// What reading the event sequence gives: an error when the events ran out
/// before `</pattern>` because of an XML error.
pub open spec fn pattern_result_ok(
    r: Result<ParsedPattern, String>,
    evs: Seq<XmlEventV>,
    err: Option<Seq<char>>,
    cs: bool,
) -> bool {
    let st = pp_run(evs, evs.len() as int, cs, false);
    match r {
        Err(e) => !st.done && err == Some(e@),
        Ok(pp) => (st.done || err is None) && pattern_from(pp.pattern, st) && string_views(
            pp.unsupported@,
        ) == st.unsupported,
    }
}

/// Exec state of the reader.
struct PPExec {
    tokens: Vec<TokenMatcher>,
    unsupported: Vec<String>,
    mark_from: Option<usize>,
    mark_to: Option<usize>,
    cur: Option<TokenBuild>,
    cur_exc: Option<TokSpec>,
    and_start: Option<usize>,
    in_pattern: bool,
    done: bool,
}

spec fn pp_rel(e: PPExec, s: PPState) -> bool {
    &&& e.tokens@.len() == s.tokens.len()
    &&& forall|i: int| 0 <= i < s.tokens.len() ==> built(#[trigger] e.tokens@[i], s.tokens[i])
    &&& string_views(e.unsupported@) == s.unsupported
    &&& match e.mark_from {
        Some(f) => s.mark_from == Some(f as int),
        None => s.mark_from is None,
    }
    &&& match e.mark_to {
        Some(t) => s.mark_to == Some(t as int),
        None => s.mark_to is None,
    }
    &&& match e.cur {
        Some(c) => s.cur == Some(build_view(c)),
        None => s.cur is None,
    }
    &&& match e.cur_exc {
        Some(c) => s.cur_exc == Some(tokspec_view(c)),
        None => s.cur_exc is None,
    }
    &&& match e.and_start {
        Some(a) => s.and_start == Some(a as int),
        None => s.and_start is None,
    }
    &&& e.in_pattern == s.in_pattern
    &&& e.done == s.done
}

fn pp_add_text_exec(e: &mut PPExec, txt: &Vec<char>, Ghost(s): Ghost<PPState>)
    requires
        pp_rel(*old(e), s),
    ensures
        pp_rel(*final(e), pp_add_text(s, txt@)),
{
    if let Some(ex) = &mut e.cur_exc {
        crate::text::append_chars(&mut ex.text, txt);
    } else if let Some(c) = &mut e.cur {
        crate::text::append_chars(&mut c.head.text, txt);
    }
}

fn pp_step_exec(e: &mut PPExec, ev: &XmlEvent, cs: bool, Ghost(s): Ghost<PPState>)
    requires
        pp_rel(*old(e), s),
    ensures
        pp_rel(*final(e), pp_step(s, event_view(*ev), cs)),
{
    match ev {
        XmlEvent::Start(n, a) => {
            if tag_is(n, "pattern") {
                e.in_pattern = true;
            } else if tag_is(n, "marker") && e.in_pattern {
                if e.mark_from.is_none() {
                    e.mark_from = Some(e.tokens.len());
                }
            } else if tag_is(n, "token") && e.in_pattern {
                let head = tokspec_from_attrs(a, cs);
                e.cur = Some(TokenBuild { head, exceptions: Vec::new() });
                assert(build_view(e.cur->0).exceptions =~= Seq::<TokSpecV>::empty());
            } else if tag_is(n, "exception") {
                e.cur_exc = Some(tokspec_from_attrs(a, cs));
            } else if tag_is(n, "and") && e.in_pattern {
                e.and_start = Some(e.tokens.len());
            } else if tag_is(n, "or") {
                push_unique(&mut e.unsupported, "and/or");
            }
        },
        XmlEvent::Empty(n, a) => {
            if tag_is(n, "token") && e.in_pattern {
                let head = tokspec_from_attrs(a, cs);
                let b = TokenBuild { head, exceptions: Vec::new() };
                assert(build_view(b).exceptions =~= Seq::<TokSpecV>::empty());
                let tm = build_token(&b, &mut e.unsupported);
                e.tokens.push(tm);
                assert forall|i: int| 0 <= i < s.tokens.len() + 1 implies built(
                    #[trigger] e.tokens@[i],
                    s.tokens.push(build_view(b))[i],
                ) by {
                    if i < s.tokens.len() {
                        assert(s.tokens.push(build_view(b))[i] == s.tokens[i]);
                    }
                }
            } else if tag_is(n, "exception") {
                if let Some(c) = &mut e.cur {
                    let ghost cb = build_view(*c);
                    let t = tokspec_from_attrs(a, cs);
                    let ghost tv = tokspec_view(t);
                    c.exceptions.push(t);
                    assert(build_view(*c).exceptions =~= cb.exceptions.push(tv));
                }
            } else if tag_is(n, "or") {
                push_unique(&mut e.unsupported, "and/or");
            }
        },
        XmlEvent::Text(raw) => {
            let txt = text_chars(raw);
            pp_add_text_exec(e, &txt, Ghost(s));
        },
        XmlEvent::Ref(name, ch) => {
            if let Some(txt) = ref_chars(name, *ch) {
                pp_add_text_exec(e, &txt, Ghost(s));
            }
        },
        XmlEvent::End(n) => {
            if tag_is(n, "exception") {
                let exc = e.cur_exc.take();
                match exc {
                    Some(ex) => {
                        if let Some(c) = &mut e.cur {
                            let ghost cb = build_view(*c);
                            let ghost tv = tokspec_view(ex);
                            c.exceptions.push(ex);
                            assert(build_view(*c).exceptions =~= cb.exceptions.push(tv));
                        }
                    },
                    None => {},
                }
            } else if tag_is(n, "token") {
                let cur = e.cur.take();
                match cur {
                    Some(c) => {
                        let tm = build_token(&c, &mut e.unsupported);
                        e.tokens.push(tm);
                        assert forall|i: int| 0 <= i < s.tokens.len() + 1 implies built(
                            #[trigger] e.tokens@[i],
                            s.tokens.push(build_view(c))[i],
                        ) by {
                            if i < s.tokens.len() {
                                assert(s.tokens.push(build_view(c))[i] == s.tokens[i]);
                            }
                        }
                    },
                    None => {},
                }
            } else if tag_is(n, "and") {
                if let Some(st) = e.and_start {
                    if st < e.tokens.len() {
                        close_group(&mut e.tokens, st, Ghost(s.tokens));
                    }
                    e.and_start = None;
                }
            } else if tag_is(n, "marker") {
                e.mark_to = Some(e.tokens.len());
            } else if tag_is(n, "pattern") {
                e.done = true;
            }
        },
        XmlEvent::Other => {},
    }
}

/// The reader run over events.
fn run_pattern_reader(events: &Vec<XmlEvent>, cs: bool, in_pattern: bool) -> (e: PPExec)
    ensures
        pp_rel(e, pp_run(events_view(events@), events@.len() as int, cs, in_pattern)),
{
    let ghost evs = events_view(events@);
    let mut e = PPExec {
        tokens: Vec::new(),
        unsupported: Vec::new(),
        mark_from: None,
        mark_to: None,
        cur: None,
        cur_exc: None,
        and_start: None,
        in_pattern,
        done: false,
    };
    assert(string_views(e.unsupported@) =~= Seq::<Seq<char>>::empty());
    let mut i: usize = 0;
    while i < events.len()
        invariant
            i <= events@.len(),
            evs == events_view(events@),
            pp_rel(e, pp_run(evs, i as int, cs, in_pattern)),
        decreases events.len() - i,
    {
        if !e.done {
            pp_step_exec(&mut e, &events[i], cs, Ghost(pp_run(evs, i as int, cs, in_pattern)));
        }
        i += 1;
    }
    e
}

fn finish_pattern(e: PPExec, Ghost(st): Ghost<PPState>) -> (pp: ParsedPattern)
    requires
        pp_rel(e, st),
    ensures
        pattern_from(pp.pattern, st),
        string_views(pp.unsupported@) == st.unsupported,
{
    let mut pattern = Pattern::new(e.tokens);
    if let Some(f) = e.mark_from {
        pattern.mark_from = f;
    }
    if let Some(t) = e.mark_to {
        pattern.mark_to = t;
    }
    ParsedPattern { pattern, unsupported: e.unsupported }
}

/// Read a pattern from its events (see [`pattern_result_ok`]).
pub fn parse_pattern_events(
    events: &Vec<XmlEvent>,
    err: &Option<String>,
    default_case_sensitive: bool,
) -> (r: Result<ParsedPattern, String>)
    ensures
        pattern_result_ok(
            r,
            events_view(events@),
            crate::regex::opt_view(*err),
            default_case_sensitive,
        ),
{
    let ghost st = pp_run(events_view(events@), events@.len() as int, default_case_sensitive, false);
    let e = run_pattern_reader(events, default_case_sensitive, false);
    if !e.done {
        if let Some(msg) = err {
            return Err(msg.clone());
        }
    }
    Ok(finish_pattern(e, Ghost(st)))
}

/// Read the inside of a `<pattern>` element, given as its events.
pub fn parse_pattern_body(events: &Vec<XmlEvent>, default_case_sensitive: bool) -> (r: ParsedPattern)
    ensures
        pattern_from(
            r.pattern,
            pp_run(events_view(events@), events@.len() as int, default_case_sensitive, true),
        ),
        string_views(r.unsupported@) == pp_run(
            events_view(events@),
            events@.len() as int,
            default_case_sensitive,
            true,
        ).unsupported,
{
    let ghost st = pp_run(events_view(events@), events@.len() as int, default_case_sensitive, true);
    let e = run_pattern_reader(events, default_case_sensitive, true);
    finish_pattern(e, Ghost(st))
}

/// Read a `<pattern>` element; `default_case_sensitive` applies to tokens
/// without a `case_sensitive` attribute.
pub fn parse_pattern(xml: &str, default_case_sensitive: bool) -> (r: Result<ParsedPattern, String>)
    ensures
        pattern_result_ok(
            r,
            xml_events(xml@).0,
            crate::xml::xml_error_text(xml_events(xml@).1),
            default_case_sensitive,
        ),
{
    let (events, err) = read_events(xml);
    parse_pattern_events(&events, &crate::xml::error_text(&err), default_case_sensitive)
}

fn copy_bytes(b: &Vec<u8>) -> (r: Vec<u8>)
    ensures
        r@ == b@,
{
    let mut r: Vec<u8> = Vec::new();
    let mut i: usize = 0;
    while i < b.len()
        invariant
            i <= b@.len(),
            r@ == b@.subrange(0, i as int),
        decreases b.len() - i,
    {
        r.push(b[i]);
        assert(b@.subrange(0, i + 1) =~= b@.subrange(0, i as int).push(b@[i as int]));
        i += 1;
    }
    assert(b@.subrange(0, i as int) =~= b@);
    r
}

fn copy_attrs(a: &Vec<(Vec<u8>, Vec<u8>)>) -> (r: Vec<(Vec<u8>, Vec<u8>)>)
    ensures
        attrs_view(r@) == attrs_view(a@),
{
    let mut r: Vec<(Vec<u8>, Vec<u8>)> = Vec::new();
    let mut i: usize = 0;
    while i < a.len()
        invariant
            i <= a@.len(),
            attrs_view(r@) == attrs_view(a@).subrange(0, i as int),
        decreases a.len() - i,
    {
        let ghost rv = attrs_view(r@);
        let p = (copy_bytes(&a[i].0), copy_bytes(&a[i].1));
        r.push(p);
        assert(attrs_view(r@) =~= rv.push((a@[i as int].0@, a@[i as int].1@)));
        assert(attrs_view(a@).subrange(0, i + 1) =~= attrs_view(a@).subrange(0, i as int).push(
            (a@[i as int].0@, a@[i as int].1@),
        ));
        i += 1;
    }
    assert(attrs_view(a@).subrange(0, i as int) =~= attrs_view(a@));
    r
}

/// A copy of an event.
pub fn copy_event(e: &XmlEvent) -> (r: XmlEvent)
    ensures
        event_view(r) == event_view(*e),
{
    match e {
        XmlEvent::Start(n, a) => XmlEvent::Start(copy_bytes(n), copy_attrs(a)),
        XmlEvent::Empty(n, a) => XmlEvent::Empty(copy_bytes(n), copy_attrs(a)),
        XmlEvent::End(n) => XmlEvent::End(copy_bytes(n)),
        XmlEvent::Text(t) => XmlEvent::Text(copy_bytes(t)),
        XmlEvent::Ref(n, c) => XmlEvent::Ref(copy_bytes(n), *c),
        XmlEvent::Other => XmlEvent::Other,
    }
}

/// A `<pattern>`/`<antipattern>` element of a rule file, kept as the events
/// inside it (without nested pattern/antipattern tags) and its
/// `case_sensitive` flag.
pub struct Captured {
    pub events: Vec<XmlEvent>,
    pub case_sensitive: bool,
}

pub struct CapturedV {
    pub events: Seq<XmlEventV>,
    pub case_sensitive: bool,
}

pub open spec fn captured_view(c: Captured) -> CapturedV {
    CapturedV { events: events_view(c.events@), case_sensitive: c.case_sensitive }
}

/// The reading of a captured element.
pub open spec fn captured_state(c: CapturedV) -> PPState {
    pp_run(c.events, c.events.len() as int, c.case_sensitive, true)
}

/// A tag named `pattern` or `antipattern`.
pub open spec fn is_wrapper(ev: XmlEventV) -> bool {
    match ev {
        XmlEventV::Start(n, _) => is_tag(n, "pattern"@) || is_tag(n, "antipattern"@),
        XmlEventV::Empty(n, _) => is_tag(n, "pattern"@) || is_tag(n, "antipattern"@),
        XmlEventV::End(n) => is_tag(n, "pattern"@) || is_tag(n, "antipattern"@),
        _ => false,
    }
}

pub fn is_wrapper_exec(ev: &XmlEvent) -> (r: bool)
    ensures
        r == is_wrapper(event_view(*ev)),
{
    match ev {
        XmlEvent::Start(n, _) => tag_is(n, "pattern") || tag_is(n, "antipattern"),
        XmlEvent::Empty(n, _) => tag_is(n, "pattern") || tag_is(n, "antipattern"),
        XmlEvent::End(n) => tag_is(n, "pattern") || tag_is(n, "antipattern"),
        _ => false,
    }
}

/// The active capture with one more event mirrored into it.
pub open spec fn mirror(capture: Option<Seq<XmlEventV>>, ev: XmlEventV) -> Option<Seq<XmlEventV>> {
    match capture {
        Some(c) => if is_wrapper(ev) {
            Some(c)
        } else {
            Some(c.push(ev))
        },
        None => None,
    }
}

pub open spec fn opt_events_view(c: Option<Vec<XmlEvent>>) -> Option<Seq<XmlEventV>> {
    match c {
        Some(v) => Some(events_view(v@)),
        None => None,
    }
}

pub fn mirror_exec(capture: &mut Option<Vec<XmlEvent>>, ev: &XmlEvent)
    ensures
        opt_events_view(*final(capture)) == mirror(opt_events_view(*old(capture)), event_view(*ev)),
{
    if let Some(c) = capture {
        if !is_wrapper_exec(ev) {
            let ghost cv = events_view(c@);
            c.push(copy_event(ev));
            assert(events_view(c@) =~= cv.push(event_view(*ev)));
        }
    }
}

/// The marker of the pattern the reader state describes lies inside it.
pub open spec fn state_wf(st: PPState) -> bool {
    let n = st.tokens.len() as int;
    let f = match st.mark_from {
        Some(f) => f,
        None => 0,
    };
    let t = match st.mark_to {
        Some(t) => t,
        None => n,
    };
    n == 0 || (f < n && t <= n)
}

pub fn is_pattern_wf(p: &Pattern) -> (r: bool)
    ensures
        r == crate::pattern::pattern_wf(*p),
{
    p.tokens.len() == 0 || (p.mark_from < p.tokens.len() && p.mark_to <= p.tokens.len())
}

/// Every note of `more`, added in order.
pub open spec fn note_all(u: Seq<Seq<char>>, more: Seq<Seq<char>>) -> Seq<Seq<char>>
    decreases more.len(),
{
    if more.len() == 0 {
        u
    } else {
        note(note_all(u, more.drop_last()), more.last())
    }
}

pub fn push_all_unique(u: &mut Vec<String>, more: &Vec<String>)
    ensures
        string_views(final(u)@) == note_all(string_views(old(u)@), string_views(more@)),
{
    let ghost u0 = string_views(u@);
    let ghost mv = string_views(more@);
    let mut i: usize = 0;
    while i < more.len()
        invariant
            i <= more@.len(),
            mv == string_views(more@),
            string_views(u@) == note_all(u0, mv.subrange(0, i as int)),
        decreases more.len() - i,
    {
        assert(mv.subrange(0, i + 1).drop_last() =~= mv.subrange(0, i as int));
        push_unique(u, more[i].as_str());
        i += 1;
    }
    assert(mv.subrange(0, i as int) =~= mv);
}

// ---------------------------------------------------------------------------
// Element blocks
// ---------------------------------------------------------------------------

/// `pat` occurs in `s` at index `i`.
pub open spec fn occurs_at(s: Seq<char>, pat: Seq<char>, i: int) -> bool {
    0 <= i && i + pat.len() <= s.len() && s.subrange(i, i + pat.len()) == pat
}

/// The first index at or after `from` where `pat` occurs in `s`.
pub open spec fn find_from(s: Seq<char>, pat: Seq<char>, from: int) -> Option<int>
    decreases s.len() + 1 - from,
{
    if from < 0 || from + pat.len() > s.len() {
        None
    } else if occurs_at(s, pat, from) {
        Some(from)
    } else {
        find_from(s, pat, from + 1)
    }
}

/// The blocks from `<open` to the next `close`, scanning from `pos`.
pub open spec fn blocks_from(s: Seq<char>, open: Seq<char>, close: Seq<char>, pos: int) -> Seq<
    Seq<char>,
>
    decreases s.len() - pos,
{
    if pos < 0 || pos > s.len() {
        Seq::empty()
    } else {
        match find_from(s, open, pos) {
            None => Seq::empty(),
            Some(start) => match find_from(s, close, start) {
                None => Seq::empty(),
                Some(e) => {
                    let end = e + close.len();
                    if end <= pos || end > s.len() {
                        Seq::empty()
                    } else {
                        seq![s.subrange(start, end)] + blocks_from(s, open, close, end)
                    }
                },
            },
        }
    }
}

proof fn lemma_find_from_bounds(s: Seq<char>, pat: Seq<char>, from: int)
    ensures
        find_from(s, pat, from) matches Some(i) ==> from <= i && occurs_at(s, pat, i),
    decreases s.len() + 1 - from,
{
    if !(from < 0 || from + pat.len() > s.len()) && !occurs_at(s, pat, from) {
        lemma_find_from_bounds(s, pat, from + 1);
    }
}

fn find_chars(s: &Vec<char>, pat: &Vec<char>, from: usize) -> (r: Option<usize>)
    requires
        from <= s@.len(),
    ensures
        match r {
            Some(i) => find_from(s@, pat@, from as int) == Some(i as int),
            None => find_from(s@, pat@, from as int) is None,
        },
{
    let n = s.len();
    let mut i = from;
    while pat.len() <= n - i
        invariant
            n == s@.len(),
            from <= i <= s@.len(),
            find_from(s@, pat@, from as int) == find_from(s@, pat@, i as int),
        decreases s.len() - i,
    {
        let mut k: usize = 0;
        while k < pat.len()
            invariant
                n == s@.len(),
                k <= pat@.len(),
                i + pat@.len() <= s@.len(),
                forall|j: int| 0 <= j < k ==> s@[i + j] == pat@[j],
            ensures
                k <= pat@.len(),
                forall|j: int| 0 <= j < k ==> s@[i + j] == pat@[j],
                k < pat@.len() ==> s@[i + k] != pat@[k as int],
            decreases pat.len() - k,
        {
            if s[i + k] != pat[k] {
                break;
            }
            k += 1;
        }
        if k == pat.len() {
            assert(s@.subrange(i as int, i + pat@.len()) =~= pat@);
            return Some(i);
        }
        assert(s@.subrange(i as int, i + pat@.len())[k as int] != pat@[k as int]);
        i += 1;
    }
    None
}

/// Each top-level `<tag ...>...</tag>` block of `xml`, in order.
pub fn extract_blocks(xml: &str, tag: &str) -> (r: Vec<String>)
    ensures
        string_views(r@) == blocks_from(xml@, "<"@ + tag@, "</"@ + tag@ + ">"@, 0),
{
    let s = str_chars(xml);
    let mut open = lit("<");
    crate::text::append_chars(&mut open, &str_chars(tag));
    let mut close = lit("</");
    crate::text::append_chars(&mut close, &str_chars(tag));
    crate::text::append_chars(&mut close, &lit(">"));
    proof {
        reveal_strlit("<");
        reveal_strlit("</");
        reveal_strlit(">");
    }
    let ghost op = open@;
    let ghost cl = close@;
    let mut out: Vec<String> = Vec::new();
    let mut pos: usize = 0;
    assert(string_views(out@) =~= Seq::<Seq<char>>::empty());
    loop
        invariant_except_break
            string_views(out@) + blocks_from(s@, op, cl, pos as int) == blocks_from(
                s@,
                op,
                cl,
                0,
            ),
        invariant
            pos <= s@.len(),
            s@ == xml@,
            op == open@ && cl == close@,
            op.len() >= 1,
            cl.len() >= 3,
        ensures
            string_views(out@) == blocks_from(s@, op, cl, 0),
        decreases s@.len() - pos,
    {
        let start = match find_chars(&s, &open, pos) {
            Some(st) => st,
            None => {
                assert(string_views(out@) + Seq::<Seq<char>>::empty() =~= string_views(out@));
                break;
            },
        };
        proof {
            lemma_find_from_bounds(s@, op, pos as int);
        }
        let e = match find_chars(&s, &close, start) {
            Some(x) => x,
            None => {
                assert(string_views(out@) + Seq::<Seq<char>>::empty() =~= string_views(out@));
                break;
            },
        };
        proof {
            lemma_find_from_bounds(s@, cl, start as int);
        }
        assert(occurs_at(s@, cl, e as int));
        assert(s@.len() == s.len());
        let end = e + close.len();
        let piece = crate::text::sub_chars(&s, start, end);
        let ghost before = string_views(out@);
        out.push(crate::text::chars_to_string(&piece));
        assert(string_views(out@) =~= before.push(s@.subrange(start as int, end as int)));
        assert(before + blocks_from(s@, op, cl, pos as int) =~= before.push(
            s@.subrange(start as int, end as int),
        ) + blocks_from(s@, op, cl, end as int));
        pos = end;
        if pos >= s.len() {
            break;
        }
    }
    out
}

} // verus!
