//! Sentence segmentation by SRX rules.
//!
//! Each rule becomes a zero-width assertion `(?<=before)(?=after)` searched in
//! the whole text; at every interior offset where some rule fires, the first
//! rule in list order decides whether a sentence break occurs there. Segments
//! are the pieces of the text between breaks, so that together they give the
//! text back.

use vstd::prelude::*;
use vstd::string::StringSliceAdditionalSpecFns;
use vstd::utf8::{encode_utf8, encode_scalar, char_is_scalar};
use crate::regex::{compile_chars, regex_compiles, regex_find_all, match_view, CompiledRegex, RegexMatch};
use crate::regex_translate::{java_to_fancy_chars, spec_java_to_fancy};
use crate::srx::{rules_from, srx_doc, srx_error_text, srx_rule_view, srx_rule_views, SrxDocument, SrxRule, SrxRuleV};
use crate::text::{append_chars, chars_to_string, lit, str_chars, string_chars, sub_chars};
use crate::xml::{string_views, xml_events};

verus! {

/// The assertion a rule becomes; empty when both sides are empty.
pub open spec fn rule_pattern(r: SrxRuleV) -> Seq<char> {
    let b = spec_java_to_fancy(r.before);
    let a = spec_java_to_fancy(r.after);
    (if b.len() == 0 {
        Seq::empty()
    } else {
        "(?<=(?:"@ + b + "))"@
    }) + (if a.len() == 0 {
        Seq::empty()
    } else {
        "(?=(?:"@ + a + "))"@
    })
}

/// The rules kept, in order, as `(is_break, assertion)`: those whose
/// assertion is nonempty and compiles.
pub open spec fn compiled_rules(rs: Seq<SrxRuleV>) -> Seq<(bool, Seq<char>)>
    decreases rs.len(),
{
    if rs.len() == 0 {
        Seq::empty()
    } else {
        let p = rule_pattern(rs.last());
        compiled_rules(rs.drop_last()) + if p.len() > 0 && regex_compiles(p) {
            seq![(rs.last().is_break, p)]
        } else {
            Seq::empty()
        }
    }
}

/// The rule fires at byte offset `p`: one of its matches starts there.
pub open spec fn fires(rule: (bool, Seq<char>), text: Seq<char>, p: int) -> bool {
    exists|j: int|
        0 <= j < regex_find_all(rule.1, text).len() && (#[trigger] regex_find_all(rule.1, text)[j]).0
            == p
}

/// What the first rule that fires at `p` decides.
pub open spec fn decision(rules: Seq<(bool, Seq<char>)>, text: Seq<char>, p: int) -> Option<bool>
    decreases rules.len(),
{
    if rules.len() == 0 {
        None
    } else {
        match decision(rules.drop_last(), text, p) {
            Some(b) => Some(b),
            None => if fires(rules.last(), text, p) {
                Some(rules.last().0)
            } else {
                None
            },
        }
    }
}

/// A sentence break at interior byte offset `p`.
pub open spec fn breaks_at(rules: Seq<(bool, Seq<char>)>, text: Seq<char>, p: int) -> bool {
    0 < p < encode_utf8(text).len() && decision(rules, text, p) == Some(true)
}

/// The byte offset of character `k`.
pub open spec fn byte_offset(t: Seq<char>, k: int) -> int {
    encode_utf8(t.take(k)).len() as int
}

/// The pieces of `t` from character `start`, cutting before each character
/// `i` (`0 < i`) where `cut` holds.
pub open spec fn pieces(t: Seq<char>, cut: spec_fn(int) -> bool, i: int, start: int) -> Seq<Seq<char>>
    decreases t.len() - i,
{
    if i >= t.len() {
        if start < t.len() {
            seq![t.subrange(start, t.len() as int)]
        } else {
            Seq::empty()
        }
    } else if 0 < i && cut(i) {
        seq![t.subrange(start, i)] + pieces(t, cut, i + 1, i)
    } else {
        pieces(t, cut, i + 1, start)
    }
}

/// Whether a sentence ends before character `k` of `t`.
pub open spec fn seg_cut(rules: Seq<(bool, Seq<char>)>, t: Seq<char>) -> spec_fn(int) -> bool {
    |k: int| breaks_at(rules, t, byte_offset(t, k))
}

/// The sentences of `t` under `rules`.
pub open spec fn spec_segments(rules: Seq<(bool, Seq<char>)>, t: Seq<char>) -> Seq<Seq<char>> {
    pieces(t, seg_cut(rules, t), 0, 0)
}

/// The concatenation of a list of texts.
pub open spec fn concat(v: Seq<Seq<char>>) -> Seq<char>
    decreases v.len(),
{
    if v.len() == 0 {
        Seq::empty()
    } else {
        v[0] + concat(v.drop_first())
    }
}

struct CompiledRule {
    is_break: bool,
    assertion: CompiledRegex,
}

/// A sentence segmenter: its rules, compiled, in order.
pub struct Segmenter {
    rules: Vec<CompiledRule>,
}

impl Segmenter {
    /// The rules as `(is_break, assertion)`.
    pub closed spec fn view(self) -> Seq<(bool, Seq<char>)> {
        self.rules@.map_values(|r: CompiledRule| (r.is_break, r.assertion.src()))
    }

    /// Builds a segmenter for `lang_code` (e.g. `"en-US"`) from an SRX text.
    pub fn from_srx(xml: &str, lang_code: &str) -> (r: Result<Segmenter, String>)
        ensures
            match r {
                Err(m) => xml_events(xml@).1 matches Some(err) && m@ == srx_error_text(err),
                Ok(seg) => xml_events(xml@).1 is None && seg@ == compiled_rules(
                    rules_from(srx_doc(xml@), lang_code@, 0),
                ),
            },
    {
        let doc = SrxDocument::parse(xml)?;
        let rules = doc.rules_for(lang_code);
        Ok(Segmenter::from_rules(&rules))
    }

    /// Compiles rules, leaving out those whose assertion is empty or does not
    /// compile.
    pub fn from_rules(rules: &[SrxRule]) -> (r: Segmenter)
        ensures
            r@ == compiled_rules(srx_rule_views(rules@)),
    {
        let ghost rv = srx_rule_views(rules@);
        let mut compiled: Vec<CompiledRule> = Vec::new();
        let mut i: usize = 0;
        while i < rules.len()
            invariant
                i <= rules@.len(),
                rv == srx_rule_views(rules@),
                compiled@.map_values(|r: CompiledRule| (r.is_break, r.assertion.src()))
                    == compiled_rules(rv.take(i as int)),
            decreases rules.len() - i,
        {
            let r = &rules[i];
            assert(rv[i as int] == srx_rule_view(*r));
            let before = java_to_fancy_chars(&string_chars(&r.before));
            let after = java_to_fancy_chars(&string_chars(&r.after));
            let mut pat: Vec<char> = Vec::new();
            if before.len() > 0 {
                pat = lit("(?<=(?:");
                append_chars(&mut pat, &before);
                append_chars(&mut pat, &lit("))"));
            }
            let ghost lb = pat@;
            let mut la: Vec<char> = Vec::new();
            if after.len() > 0 {
                la = lit("(?=(?:");
                append_chars(&mut la, &after);
                append_chars(&mut la, &lit("))"));
            }
            append_chars(&mut pat, &la);
            assert(pat@ == rule_pattern(rv[i as int]));
            let ghost cv = compiled@.map_values(|r: CompiledRule| (r.is_break, r.assertion.src()));
            assert(rv.take(i + 1).drop_last() =~= rv.take(i as int));
            assert(rv.take(i + 1).last() == rv[i as int]);
            if pat.len() > 0 {
                match compile_chars(&pat) {
                    Some(assertion) => {
                        let c = CompiledRule { is_break: r.is_break, assertion };
                        compiled.push(c);
                        assert(compiled@.map_values(|r: CompiledRule| (r.is_break, r.assertion.src()))
                            =~= cv + seq![(c.is_break, c.assertion.src())]);
                    },
                    None => {
                        assert(cv + Seq::<(bool, Seq<char>)>::empty() =~= cv);
                    },
                }
            } else {
                assert(cv + Seq::<(bool, Seq<char>)>::empty() =~= cv);
            }
            i += 1;
        }
        assert(rv.take(i as int) =~= rv);
        Segmenter { rules: compiled }
    }
}

/// 0: undecided; 2: a break; anything else: no break.
spec fn code(b: u8) -> Option<bool> {
    if b == 0 {
        None
    } else {
        Some(b == 2)
    }
}

impl Segmenter {
    /// The interior byte offsets at which a sentence break occurs, ascending.
    pub fn break_offsets(&self, text: &str) -> (r: Vec<usize>)
        ensures
            forall|i: int, j: int| 0 <= i < j < r@.len() ==> r@[i] < r@[j],
            forall|i: int| 0 <= i < r@.len() ==> breaks_at(self@, text@, #[trigger] r@[i] as int),
            forall|p: int|
                breaks_at(self@, text@, p) ==> exists|i: int| 0 <= i < r@.len() && #[trigger] r@[i] == p,
    {
        let n = text.as_bytes().len();
        let ghost rv = self@;
        let mut decided: Vec<u8> = Vec::new();
        while decided.len() < n
            invariant
                decided@.len() <= n,
                forall|p: int| 0 <= p < decided@.len() ==> decided@[p] == 0,
            decreases n - decided.len(),
        {
            decided.push(0);
        }
        let mut k: usize = 0;
        while k < self.rules.len()
            invariant
                k <= self.rules@.len(),
                rv == self@,
                n == encode_utf8(text@).len(),
                decided@.len() == n,
                forall|p: int|
                    0 < p < n ==> code(#[trigger] decided@[p]) == decision(rv.take(k as int), text@, p),
            decreases self.rules.len() - k,
        {
            let rule = &self.rules[k];
            assert(rv[k as int] == (rule.is_break, rule.assertion.src()));
            let ms = rule.assertion.find_all(text);
            let ghost mv = ms@.map_values(|m: RegexMatch| match_view(m));
            let ghost prev = rv.take(k as int);
            let mut j: usize = 0;
            while j < ms.len()
                invariant
                    j <= ms@.len(),
                    decided@.len() == n,
                    mv == ms@.map_values(|m: RegexMatch| match_view(m)),
                    forall|p: int|
                        0 < p < n ==> code(#[trigger] decided@[p]) == pending(decision(prev, text@, p), hit(mv, j as int, p), rule.is_break),
                decreases ms.len() - j,
            {
                let pos = ms[j].start;
                assert(mv[j as int].0 == pos);
                let ghost d0 = decided@;
                if pos > 0 && pos < n && decided[pos] == 0 {
                    decided.set(pos, if rule.is_break { 2 } else { 1 });
                }
                assert forall|p: int| 0 < p < n implies code(#[trigger] decided@[p]) == pending(decision(prev, text@, p), hit(mv, j + 1, p), rule.is_break) by {
                    lemma_hit_step(mv, j as int, p);
                    assert(code(d0[p]) == pending(decision(prev, text@, p), hit(mv, j as int, p), rule.is_break));
                    if p != pos {
                        assert(decided@[p] == d0[p]);
                        assert(mv[j as int].0 != p);
                        assert(hit(mv, j + 1, p) == hit(mv, j as int, p));
                    } else {
                        assert(mv[j as int].0 == p);
                        assert(hit(mv, j + 1, p));
                        if d0[p] == 0 {
                            assert(decided@[p] == (if rule.is_break { 2u8 } else { 1u8 }));
                        } else {
                            assert(decided@[p] == d0[p]);
                        }
                    }
                }
                j += 1;
            }
            proof {
                assert(rv.take(k + 1).drop_last() =~= prev);
                assert(rv.take(k + 1).last() == rv[k as int]);
                assert(mv == regex_find_all(rule.assertion.src(), text@));
                assert forall|p: int| 0 < p < n implies code(#[trigger] decided@[p]) == decision(rv.take(k + 1), text@, p) by {
                    if fires(rv[k as int], text@, p) {
                        let q = choose|q: int| 0 <= q < regex_find_all(rv[k as int].1, text@).len() && (#[trigger] regex_find_all(rv[k as int].1, text@)[q]).0 == p;
                        assert(mv[q].0 == p);
                    }
                    if hit(mv, j as int, p) {
                        let q = choose|q: int| 0 <= q < j && (#[trigger] mv[q]).0 == p;
                        assert(regex_find_all(rv[k as int].1, text@)[q].0 == p);
                    }
                }
            }
            k += 1;
        }
        assert(rv.take(k as int) =~= rv);
        let mut out: Vec<usize> = Vec::new();
        let mut p: usize = 1;
        while p < n
            invariant
                1 <= p,
                n == encode_utf8(text@).len(),
                decided@.len() == n,
                forall|q: int| 0 < q < n ==> code(#[trigger] decided@[q]) == decision(rv, text@, q),
                forall|i: int, j: int| 0 <= i < j < out@.len() ==> out@[i] < out@[j],
                forall|i: int| 0 <= i < out@.len() ==> #[trigger] out@[i] < p && breaks_at(rv, text@, out@[i] as int),
                forall|q: int| 0 < q < p && breaks_at(rv, text@, q) ==> exists|i: int| 0 <= i < out@.len() && #[trigger] out@[i] == q,
            decreases n - p,
        {
            assert(code(decided@[p as int]) == decision(rv, text@, p as int));
            let ghost o0 = out@;
            if decided[p] == 2 {
                out.push(p);
                assert(out@[out@.len() - 1] == p);
            }
            proof {
                assert forall|i: int| 0 <= i < o0.len() implies out@[i] == o0[i] by {}
                assert forall|q: int| 0 < q < p + 1 && breaks_at(rv, text@, q) implies exists|i: int| 0 <= i < out@.len() && #[trigger] out@[i] == q by {
                    if q == p {
                        assert(decided@[p as int] == 2);
                        assert(out@[out@.len() - 1] == q);
                    } else {
                        let i = choose|i: int| 0 <= i < o0.len() && #[trigger] o0[i] == q;
                        assert(out@[i] == q);
                    }
                }
            }
            p += 1;
        }
        out
    }
}

/// A decision already taken, or else the rule's own where it fires.
spec fn pending(d: Option<bool>, fired: bool, b: bool) -> Option<bool> {
    match d {
        Some(x) => Some(x),
        None => if fired {
            Some(b)
        } else {
            None
        },
    }
}

/// Some of the first `j` matches starts at `p`.
spec fn hit(mv: Seq<(int, int, Seq<char>)>, j: int, p: int) -> bool {
    exists|q: int| 0 <= q < j && (#[trigger] mv[q]).0 == p
}

proof fn lemma_hit_step(mv: Seq<(int, int, Seq<char>)>, j: int, p: int)
    requires
        0 <= j < mv.len(),
    ensures
        hit(mv, j + 1, p) == (hit(mv, j, p) || mv[j].0 == p),
{
    if hit(mv, j + 1, p) {
        let q = choose|q: int| 0 <= q < j + 1 && (#[trigger] mv[q]).0 == p;
        if q < j {
            assert(hit(mv, j, p));
        }
    }
    if hit(mv, j, p) {
        let q = choose|q: int| 0 <= q < j && (#[trigger] mv[q]).0 == p;
        assert(0 <= q < j + 1 && mv[q].0 == p);
    }
    if mv[j].0 == p {
        assert(0 <= j < j + 1 && mv[j].0 == p);
    }
}

// --- from byte offsets to characters ----------------------------------------

proof fn lemma_encode_push(s: Seq<char>, c: char)
    ensures
        encode_utf8(s.push(c)) == encode_utf8(s) + encode_scalar(c as u32),
    decreases s.len(),
{
    if s.len() == 0 {
        assert(s.push(c).drop_first() =~= Seq::<char>::empty());
        assert(encode_utf8(s.push(c)) =~= encode_scalar(c as u32) + encode_utf8(Seq::<char>::empty()));
        assert(encode_utf8(s) + encode_scalar(c as u32) =~= encode_scalar(c as u32));
    } else {
        assert(s.push(c).drop_first() =~= s.drop_first().push(c));
        lemma_encode_push(s.drop_first(), c);
        assert(encode_utf8(s.push(c)) =~= encode_scalar(s[0] as u32) + encode_utf8(s.drop_first().push(c)));
        assert(encode_utf8(s.push(c)) =~= encode_utf8(s) + encode_scalar(c as u32));
    }
}

proof fn lemma_encode_prefix_len(t: Seq<char>, k: int)
    requires
        0 <= k <= t.len(),
    ensures
        encode_utf8(t.take(k)).len() <= encode_utf8(t).len(),
    decreases t.len() - k,
{
    if k < t.len() {
        assert(t.take(k + 1) =~= t.take(k).push(t[k]));
        lemma_encode_push(t.take(k), t[k]);
        lemma_encode_prefix_len(t, k + 1);
    } else {
        assert(t.take(k) =~= t);
    }
}

/// The number of bytes of `c` in UTF-8.
pub(crate) fn utf8_width(c: char) -> (r: usize)
    ensures
        r == encode_scalar(c as u32).len(),
{
    proof {
        char_is_scalar(c);
    }
    let v = c as u32;
    if v <= 0x7F {
        1
    } else if v <= 0x7FF {
        2
    } else if v <= 0xFFFF {
        3
    } else {
        4
    }
}

proof fn lemma_pieces_nonempty(t: Seq<char>, cut: spec_fn(int) -> bool, i: int, start: int)
    requires
        0 <= start <= i <= t.len(),
        start < i || i == 0,
    ensures
        forall|k: int|
            0 <= k < pieces(t, cut, i, start).len() ==> (#[trigger] pieces(t, cut, i, start)[k]).len()
                > 0,
        pieces(t, cut, i, start).len() == 0 <==> start >= t.len(),
    decreases t.len() - i,
{
    if i < t.len() {
        if 0 < i && cut(i) {
            lemma_pieces_nonempty(t, cut, i + 1, i);
            let rest = pieces(t, cut, i + 1, i);
            let v = seq![t.subrange(start, i)] + rest;
            assert forall|k: int| 0 <= k < v.len() implies (#[trigger] v[k]).len() > 0 by {
                if k > 0 {
                    assert(v[k] == rest[k - 1]);
                }
            }
        } else {
            lemma_pieces_nonempty(t, cut, i + 1, start);
        }
    }
}

/// No sentence is empty, and only an empty text has none.
pub proof fn lemma_segments_nonempty(rules: Seq<(bool, Seq<char>)>, t: Seq<char>)
    ensures
        forall|k: int|
            0 <= k < spec_segments(rules, t).len() ==> (#[trigger] spec_segments(rules, t)[k]).len() > 0,
        spec_segments(rules, t).len() == 0 <==> t.len() == 0,
{
    lemma_pieces_nonempty(t, seg_cut(rules, t), 0, 0);
}

proof fn lemma_pieces_concat(t: Seq<char>, cut: spec_fn(int) -> bool, i: int, start: int)
    requires
        0 <= start <= i <= t.len(),
        start == 0 || start < i || i == t.len(),
    ensures
        concat(pieces(t, cut, i, start)) == t.subrange(start, t.len() as int),
    decreases t.len() - i,
{
    if i >= t.len() {
        if start < t.len() {
            let v = seq![t.subrange(start, t.len() as int)];
            assert(v.drop_first() =~= Seq::<Seq<char>>::empty());
            assert(concat(v.drop_first()) == Seq::<char>::empty());
            assert(v[0] + Seq::<char>::empty() =~= t.subrange(start, t.len() as int));
        } else {
            assert(t.subrange(start, t.len() as int) =~= Seq::<char>::empty());
        }
    } else if 0 < i && cut(i) {
        lemma_pieces_concat(t, cut, i + 1, i);
        let v = seq![t.subrange(start, i)] + pieces(t, cut, i + 1, i);
        assert(v[0] == t.subrange(start, i));
        assert(v.drop_first() =~= pieces(t, cut, i + 1, i));
        assert(t.subrange(start, i) + t.subrange(i, t.len() as int) =~= t.subrange(start, t.len() as int));
    } else {
        lemma_pieces_concat(t, cut, i + 1, start);
    }
}

/// Concatenating the sentences gives the text back.
pub proof fn lemma_segments_concat(rules: Seq<(bool, Seq<char>)>, t: Seq<char>)
    ensures
        concat(spec_segments(rules, t)) == t,
{
    lemma_pieces_concat(t, seg_cut(rules, t), 0, 0);
    assert(t.subrange(0, t.len() as int) =~= t);
}

impl Segmenter {
    /// Splits `text` into sentences (see [`spec_segments`]); together they
    /// give `text` back.
    pub fn segment(&self, text: &str) -> (r: Vec<String>)
        ensures
            string_views(r@) == spec_segments(self@, text@),
            concat(string_views(r@)) == text@,
            forall|k: int| 0 <= k < r@.len() ==> (#[trigger] r@[k])@.len() > 0,
            r@.len() == 0 <==> text@.len() == 0,
    {
        proof {
            lemma_segments_nonempty(self@, text@);
        }
        let breaks = self.break_offsets(text);
        let chars = str_chars(text);
        let ghost t = text@;
        let ghost cut = seg_cut(self@, t);
        let n = chars.len();
        let nb = text.as_bytes().len();
        let mut out: Vec<String> = Vec::new();
        let mut start: usize = 0;
        let mut off: usize = 0;
        let mut bi: usize = 0;
        let mut k: usize = 0;
        assert(t.take(0) =~= Seq::<char>::empty());
        while k < n
            invariant
                k <= n == t.len(),
                chars@ == t,
                start <= k,
                start == 0 || start < k,
                off == byte_offset(t, k as int),
                off <= encode_utf8(t).len(),
                encode_utf8(t).len() == nb,
                bi <= breaks@.len(),
                cut == seg_cut(self@, t),
                forall|i: int| 0 <= i < bi ==> #[trigger] breaks@[i] < off,
                forall|i: int, j: int| 0 <= i < j < breaks@.len() ==> breaks@[i] < breaks@[j],
                forall|i: int| 0 <= i < breaks@.len() ==> breaks_at(self@, t, #[trigger] breaks@[i] as int),
                forall|p: int| breaks_at(self@, t, p) ==> exists|i: int| 0 <= i < breaks@.len() && #[trigger] breaks@[i] == p,
                string_views(out@) + pieces(t, cut, k as int, start as int) == spec_segments(self@, t),
            decreases n - k,
        {
            while bi < breaks.len() && breaks[bi] < off
                invariant
                    bi <= breaks@.len(),
                    forall|i: int| 0 <= i < bi ==> #[trigger] breaks@[i] < off,
                decreases breaks.len() - bi,
            {
                bi += 1;
            }
            let is_cut = k > 0 && bi < breaks.len() && breaks[bi] == off;
            assert(is_cut == (0 < k && cut(k as int))) by {
                if k > 0 && cut(k as int) {
                    let i = choose|i: int| 0 <= i < breaks@.len() && #[trigger] breaks@[i] == off;
                    if i > bi {
                        assert(breaks@[bi as int] < breaks@[i]);
                    }
                }
            }
            let ghost prev = string_views(out@);
            if is_cut {
                let piece = chars_to_string(&sub_chars(&chars, start, k));
                out.push(piece);
                assert(string_views(out@) =~= prev.push(piece@));
                assert(prev + (seq![t.subrange(start as int, k as int)] + pieces(t, cut, k + 1, k as int)) =~= string_views(out@) + pieces(t, cut, k + 1, k as int));
                start = k;
            }
            proof {
                assert(t.take(k + 1) =~= t.take(k as int).push(t[k as int]));
                lemma_encode_push(t.take(k as int), t[k as int]);
                lemma_encode_prefix_len(t, k + 1);
            }
            off = off + utf8_width(chars[k]);
            k += 1;
        }
        let ghost prev = string_views(out@);
        if start < n {
            let piece = chars_to_string(&sub_chars(&chars, start, n));
            out.push(piece);
            assert(string_views(out@) =~= prev.push(piece@));
            assert(prev + seq![t.subrange(start as int, n as int)] =~= string_views(out@));
        } else {
            assert(prev + Seq::<Seq<char>>::empty() =~= prev);
        }
        proof {
            lemma_segments_concat(self@, t);
            assert(string_views(out@).len() == out@.len());
            assert forall|k: int| 0 <= k < out@.len() implies (#[trigger] out@[k])@.len() > 0 by {
                assert(string_views(out@)[k] == out@[k]@);
            }
        }
        out
    }
}

} // verus!
