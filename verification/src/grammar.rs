//! Grammar rules: a `<pattern>` (with `<antipattern>`s) and a `<message>`
//! holding `<suggestion>`s. A match of the pattern that no antipattern match
//! overlaps becomes a finding with the marked span, the rendered message and
//! the rendered suggestions as replacements. `\N` (and `<match no="N">`)
//! refers to the text matched by the N-th pattern token.

use vstd::prelude::*;
use crate::analyzed::{
    char_index, char_index_exec, lemma_char_index_bounds, lemma_char_index_mono, sentence_view,
    AnalyzedTokenReadings, TokenV,
};
use vstd::utf8::encode_utf8;
use crate::casing::{spec_upper_first, upper_first_chars};
use crate::pattern::{
    antipattern_coverage, covered, lemma_first_match, pattern_wf, pm_view, spec_first_match,
    spec_match_view, Pattern, PatternMatch, PatternMatchV,
};
use crate::regex::{regex_replace_all, CompiledRegex};
use crate::render::{
    capitalize_first_chars, lower_first_chars, normalize_spaces_chars, preserve_case_chars,
    spec_capitalize_first, spec_lower_first, spec_normalize_spaces, spec_preserve_case,
};
use crate::text::{
    append_chars, chars_to_string, is_uppercase_char, lower_str, str_chars, string_chars,
    to_lowercase_chars, to_uppercase_chars, uc_uppercase, upper_str, contains_seq, split_on,
};
use crate::render::{digit_run, is_ascii_digit, lemma_digit_run, spec_java_replacement};
use crate::parse::{
    all_digits, captured_state, captured_view, digits_value, is_pattern_wf, mirror, mirror_exec,
    note_all, opt_events_view, parse_pattern_body, pattern_from, push_all_unique, state_wf,
    Captured, CapturedV, PPState,
};
use crate::regex::{compile, compile_chars, opt_view, regex_compiles};
use crate::disambig::antis_notes;
use crate::xml::{
    attr, attr_spec, attrs_view, event_view, events_view, is_tag, note, push_unique, read_events,
    ref_chars, ref_text, string_views, tag_is, text_chars, text_of, xml_events, xml_error_text, error_text, xml_unescaped,
    XmlEvent, XmlEventV,
};

verus! {

/// One finding.
#[derive(Debug, Clone, PartialEq, Eq)]
pub struct GrammarMatch {
    /// Character offset of the marked span in the whole text.
    pub offset: usize,
    /// Character length of the marked span.
    pub length: usize,
    pub message: String,
    pub replacements: Vec<String>,
    pub rule_id: String,
    pub category_id: String,
}

/// A finding, as texts and numbers.
pub struct GrammarMatchV {
    pub offset: int,
    pub length: int,
    pub message: Seq<char>,
    pub replacements: Seq<Seq<char>>,
    pub rule_id: Seq<char>,
    pub category_id: Seq<char>,
}

pub open spec fn gm_view(g: GrammarMatch) -> GrammarMatchV {
    GrammarMatchV {
        offset: g.offset as int,
        length: g.length as int,
        message: g.message@,
        replacements: g.replacements@.map_values(|s: String| s@),
        rule_id: g.rule_id@,
        category_id: g.category_id@,
    }
}

pub open spec fn gm_views(v: Seq<GrammarMatch>) -> Seq<GrammarMatchV> {
    v.map_values(|g: GrammarMatch| gm_view(g))
}

/// `case_conversion` of a `<match>`.
#[derive(Clone, Copy)]
pub enum CaseConv {
    Unchanged,
    StartLower,
    StartUpper,
    AllLower,
    AllUpper,
    /// The referenced token's own case shape.
    Preserve,
}

/// A `<match no="N">`: the text of pattern token `no`, optionally rewritten by
/// a regex replacement, then case-converted.
pub struct MatchSpec {
    pub no: usize,
    pub case_conv: CaseConv,
    pub regex: Option<(CompiledRegex, String)>,
}

/// A literal fragment, a `\N` reference, or a `<match>`.
pub enum Seg {
    Text(String),
    Ref(usize),
    Match(MatchSpec),
}

/// A piece of a message: a fragment, or an inline suggestion.
pub enum MsgItem {
    Seg(Seg),
    Suggestion(Vec<Seg>),
}

/// An `<example>`: its text, the marked span (character offset and length),
/// the expected corrections (`None`: the rule must not fire).
pub struct Example {
    pub text: String,
    pub marker: Option<(usize, usize)>,
    pub correction: Option<Vec<String>>,
    /// `type="triggers_error"`: the rule is documented to fire here.
    pub triggers_error: bool,
}

pub struct GrammarRule {
    pub id: String,
    pub category_id: String,
    pub pattern: Pattern,
    pub antipatterns: Vec<Pattern>,
    pub message: Vec<MsgItem>,
    /// Every `<suggestion>` in document order: the replacements.
    pub suggestions: Vec<Vec<Seg>>,
    pub examples: Vec<Example>,
    /// Features the rule uses that are not run; such a rule is skipped.
    pub unsupported: Vec<String>,
}

/// The patterns of a rule can be matched.
pub open spec fn rule_wf(r: GrammarRule) -> bool {
    pattern_wf(r.pattern) && forall|a: int|
        0 <= a < r.antipatterns@.len() ==> pattern_wf(#[trigger] r.antipatterns@[a])
}

// ---------------------------------------------------------------------------
// Rendering
// ---------------------------------------------------------------------------

/// Tokens `i..end` joined, a space before each later token that had
/// whitespace before it; stops at the end of the sentence.
pub open spec fn join_tokens(toks: Seq<TokenV>, start: int, i: int, end: int) -> Seq<
    char,
>
    decreases end - i,
{
    if i < 0 || i >= end || i >= toks.len() {
        Seq::empty()
    } else {
        (if i > start && toks[i].whitespace_before {
            seq![' ']
        } else {
            Seq::empty()
        }) + toks[i].token + join_tokens(toks, start, i + 1, end)
    }
}

/// The text of pattern token `n` (1-based; out of range clamps to the last).
pub open spec fn resolve_spec(toks: Seq<TokenV>, m: PatternMatchV, n: int) -> Seq<
    char,
> {
    let k = m.starts.len();
    let last = if k > 0 {
        k - 1
    } else {
        0
    };
    let idx0 = if n >= 1 {
        n - 1
    } else {
        0
    };
    let idx = if idx0 < last {
        idx0
    } else {
        last
    };
    if idx >= k || idx >= m.counts.len() {
        Seq::empty()
    } else {
        join_tokens(toks, m.starts[idx], m.starts[idx], m.starts[idx] + m.counts[idx])
    }
}

/// A `<match>` rendered.
pub open spec fn match_spec_text(ms: MatchSpec, toks: Seq<TokenV>, m: PatternMatchV) -> Seq<
    char,
> {
    let source = resolve_spec(toks, m, ms.no as int);
    let s = match ms.regex {
        Some((re, rep)) => match regex_replace_all(re.src(), source, rep@) {
            Some(x) => x,
            None => source,
        },
        None => source,
    };
    match ms.case_conv {
        CaseConv::Unchanged => s,
        CaseConv::AllLower => lower_str(s),
        CaseConv::AllUpper => upper_str(s),
        CaseConv::StartLower => spec_lower_first(s),
        CaseConv::StartUpper => spec_upper_first(s),
        CaseConv::Preserve => spec_preserve_case(source, s),
    }
}

/// A `<match>` renders the referenced token's text, rewritten by its regular
/// expression where it has one and the replacement succeeds, and then
/// converted as its `case_conversion` says: all lowercase, all uppercase,
/// first letter lowered or raised, or in the referenced token's case shape.
/// Each conversion applies to what the same `<match>` renders unconverted.
pub proof fn lemma_match_case_conversion(ms: MatchSpec, toks: Seq<TokenV>, m: PatternMatchV)
    ensures
        ({
            let source = resolve_spec(toks, m, ms.no as int);
            let plain = match_spec_text(
                (MatchSpec { no: ms.no, case_conv: CaseConv::Unchanged, regex: ms.regex }),
                toks,
                m,
            );
            let r = match_spec_text(ms, toks, m);
            &&& plain == match ms.regex {
                Some((re, rep)) => match regex_replace_all(re.src(), source, rep@) {
                    Some(x) => x,
                    None => source,
                },
                None => source,
            }
            &&& (ms.case_conv is Unchanged ==> r == plain)
            &&& (ms.case_conv is AllLower ==> r == lower_str(plain))
            &&& (ms.case_conv is AllUpper ==> r == upper_str(plain))
            &&& (ms.case_conv is StartLower ==> r == spec_lower_first(plain))
            &&& (ms.case_conv is StartUpper ==> r == spec_upper_first(plain))
            &&& (ms.case_conv is Preserve ==> r == spec_preserve_case(source, plain))
        }),
{
}

pub open spec fn seg_text(seg: Seg, toks: Seq<TokenV>, m: PatternMatchV) -> Seq<char> {
    match seg {
        Seg::Text(t) => t@,
        Seg::Ref(n) => resolve_spec(toks, m, n as int),
        Seg::Match(ms) => match_spec_text(ms, toks, m),
    }
}

/// Segments rendered and concatenated.
pub open spec fn expand_spec(segs: Seq<Seg>, toks: Seq<TokenV>, m: PatternMatchV) -> Seq<
    char,
>
    decreases segs.len(),
{
    if segs.len() == 0 {
        Seq::empty()
    } else {
        expand_spec(segs.drop_last(), toks, m) + seg_text(segs.last(), toks, m)
    }
}

/// A message rendered; inline suggestions appear in curly quotes.
pub open spec fn message_spec(items: Seq<MsgItem>, toks: Seq<TokenV>, m: PatternMatchV) -> Seq<
    char,
>
    decreases items.len(),
{
    if items.len() == 0 {
        Seq::empty()
    } else {
        message_spec(items.drop_last(), toks, m) + match items.last() {
            MsgItem::Seg(s) => seg_text(s, toks, m),
            MsgItem::Suggestion(segs) => seq!['\u{201C}'] + expand_spec(segs@, toks, m) + seq![
                '\u{201D}',
            ],
        }
    }
}

/// A suggestion opening with a `\N` reference and holding a case-converting
/// `<match>` keeps its own case.
pub open spec fn suppresses_capitalize_spec(segs: Seq<Seg>) -> bool {
    &&& segs.len() > 0
    &&& segs[0] is Ref
    &&& exists|i: int|
        0 <= i < segs.len() && (#[trigger] segs[i] matches Seg::Match(ms) && !(
        ms.case_conv is Unchanged))
}

/// One replacement: the suggestion rendered with whitespace collapsed, and
/// capitalized when the marked text starts uppercase (unless it keeps its case).
pub open spec fn replacement_spec(
    segs: Seq<Seg>,
    toks: Seq<TokenV>,
    m: PatternMatchV,
    upper_initial: bool,
) -> Seq<char> {
    let s = spec_normalize_spaces(expand_spec(segs, toks, m));
    if upper_initial && !suppresses_capitalize_spec(segs) {
        spec_capitalize_first(s)
    } else {
        s
    }
}

/// The last marked position.
pub open spec fn marker_last_pos(m: PatternMatchV) -> int {
    let l = if m.marker_to >= 1 {
        m.marker_to - 1
    } else {
        0
    };
    if l < m.marker_from {
        m.marker_from
    } else {
        l
    }
}

/// The finding for match `m` over the sentence `text` (token positions are
/// byte offsets in it; `base` is the sentence's character offset in the whole
/// text), or none when the marked span does not lie in the sentence on
/// character boundaries. The finding's offset and length are in characters.
pub open spec fn render_spec(
    rule: GrammarRule,
    toks: Seq<TokenV>,
    m: PatternMatchV,
    text: Seq<char>,
    base: int,
) -> Option<GrammarMatchV> {
    let mf = m.marker_from;
    let ml = marker_last_pos(m);
    if mf < 0 || mf >= toks.len() || ml >= toks.len() {
        None
    } else {
        let start_b = toks[mf].start_pos as int;
        let end_b = toks[ml].start_pos + encode_utf8(toks[ml].token).len();
        if end_b > encode_utf8(text).len() || start_b > end_b || char_index(text, start_b) is None
            || char_index(text, end_b) is None {
            None
        } else {
            let start = char_index(text, start_b)->0;
            let end = char_index(text, end_b)->0;
            let first = toks[mf].token;
            let upper_initial = first.len() > 0 && uc_uppercase(first[0]);
            Some(
                GrammarMatchV {
                    offset: base + start,
                    length: end - start,
                    message: message_spec(rule.message@, toks, m),
                    replacements: rule.suggestions@.map_values(
                        |segs: Vec<Seg>| replacement_spec(segs@, toks, m, upper_initial),
                    ),
                    rule_id: rule.id@,
                    category_id: rule.category_id@,
                },
            )
        }
    }
}

/// The match overlaps a covered position.
pub open spec fn overlaps_covered(rule: GrammarRule, toks: Seq<TokenV>, m: PatternMatchV) -> bool {
    exists|i: int|
        m.from <= i < m.to && 0 <= i < toks.len() && covered(rule.antipatterns@, toks, i)
}

/// The findings of one rule, scanning from position `start`.
pub open spec fn rule_findings(
    rule: GrammarRule,
    toks: Seq<TokenV>,
    text: Seq<char>,
    base: int,
    start: int,
) -> Seq<GrammarMatchV>
    decreases toks.len() - start,
{
    if start < 0 || start >= toks.len() {
        Seq::empty()
    } else {
        match spec_first_match(rule.pattern, toks, start) {
            None => Seq::empty(),
            Some(f) => {
                proof {
                    lemma_first_match(rule.pattern, toks, start);
                }
                match spec_match_view(rule.pattern, toks, f) {
                    None => Seq::empty(),
                    Some(m) => {
                        let here = if overlaps_covered(rule, toks, m) {
                            Seq::empty()
                        } else {
                            match render_spec(rule, toks, m, text, base) {
                                Some(g) => seq![g],
                                None => Seq::empty(),
                            }
                        };
                        let next = if m.to > f {
                            m.to
                        } else {
                            f + 1
                        };
                        if next >= toks.len() {
                            here
                        } else {
                            here + rule_findings(rule, toks, text, base, next)
                        }
                    },
                }
            },
        }
    }
}

fn resolve(tokens: &[AnalyzedTokenReadings], m: &PatternMatch, n: usize) -> (r: Vec<char>)
    ensures
        r@ == resolve_spec(sentence_view(tokens@), pm_view(*m), n as int),
{
    let k = m.element_start.len();
    let last = if k > 0 {
        k - 1
    } else {
        0
    };
    let idx0 = if n >= 1 {
        n - 1
    } else {
        0
    };
    let idx = if idx0 < last {
        idx0
    } else {
        last
    };
    let mut s: Vec<char> = Vec::new();
    if idx >= k || idx >= m.element_count.len() {
        return s;
    }
    let start = m.element_start[idx];
    let count = m.element_count[idx];
    let ghost end = start + count;
    let mut i = start;
    assert(join_tokens(sentence_view(tokens@), start as int, start as int, end) == s@ + join_tokens(
        sentence_view(tokens@),
        start as int,
        i as int,
        end,
    ));
    while i - start < count && i < tokens.len()
        invariant
            start <= i,
            end == start + count,
            join_tokens(sentence_view(tokens@), start as int, start as int, end) == s@ + join_tokens(
                sentence_view(tokens@),
                start as int,
                i as int,
                end,
            ),
        decreases end - i,
    {
        let ghost s0 = s@;
        if i > start && tokens[i].whitespace_before {
            s.push(' ');
        }
        let t = string_chars(&tokens[i].token);
        append_chars(&mut s, &t);
        assert(s0 + ((if i > start && sentence_view(tokens@)[i as int].whitespace_before {
            seq![' ']
        } else {
            Seq::empty()
        }) + sentence_view(tokens@)[i as int].token + join_tokens(sentence_view(tokens@), start as int, i + 1, end)) =~= s@
            + join_tokens(sentence_view(tokens@), start as int, i + 1, end));
        i += 1;
    }
    assert(join_tokens(sentence_view(tokens@), start as int, i as int, end) == Seq::<char>::empty());
    assert(s@ + Seq::<char>::empty() =~= s@);
    s
}

fn apply_match_spec(ms: &MatchSpec, tokens: &[AnalyzedTokenReadings], m: &PatternMatch) -> (r: Vec<
    char,
>)
    ensures
        r@ == match_spec_text(*ms, sentence_view(tokens@), pm_view(*m)),
{
    let source = resolve(tokens, m, ms.no);
    let s = match &ms.regex {
        Some((re, rep)) => {
            let st = chars_to_string(&source);
            match re.replace_all(st.as_str(), rep.as_str()) {
                Some(x) => str_chars(x.as_str()),
                None => crate::text::chars_vec(&source),
            }
        },
        None => crate::text::chars_vec(&source),
    };
    match ms.case_conv {
        CaseConv::Unchanged => s,
        CaseConv::AllLower => to_lowercase_chars(&s),
        CaseConv::AllUpper => to_uppercase_chars(&s),
        CaseConv::StartLower => lower_first_chars(&s),
        CaseConv::StartUpper => upper_first_chars(&s),
        CaseConv::Preserve => preserve_case_chars(&source, &s),
    }
}

fn seg_chars(seg: &Seg, tokens: &[AnalyzedTokenReadings], m: &PatternMatch) -> (r: Vec<char>)
    ensures
        r@ == seg_text(*seg, sentence_view(tokens@), pm_view(*m)),
{
    match seg {
        Seg::Text(t) => string_chars(t),
        Seg::Ref(n) => resolve(tokens, m, *n),
        Seg::Match(ms) => apply_match_spec(ms, tokens, m),
    }
}

fn expand_segs(segs: &Vec<Seg>, tokens: &[AnalyzedTokenReadings], m: &PatternMatch) -> (r: Vec<
    char,
>)
    ensures
        r@ == expand_spec(segs@, sentence_view(tokens@), pm_view(*m)),
{
    let mut s: Vec<char> = Vec::new();
    let mut i: usize = 0;
    while i < segs.len()
        invariant
            i <= segs@.len(),
            s@ == expand_spec(segs@.subrange(0, i as int), sentence_view(tokens@), pm_view(*m)),
        decreases segs.len() - i,
    {
        let t = seg_chars(&segs[i], tokens, m);
        append_chars(&mut s, &t);
        assert(segs@.subrange(0, i + 1).drop_last() =~= segs@.subrange(0, i as int));
        i += 1;
    }
    assert(segs@.subrange(0, segs.len() as int) =~= segs@);
    s
}

fn render_message(items: &Vec<MsgItem>, tokens: &[AnalyzedTokenReadings], m: &PatternMatch) -> (r:
    Vec<char>)
    ensures
        r@ == message_spec(items@, sentence_view(tokens@), pm_view(*m)),
{
    let mut s: Vec<char> = Vec::new();
    let mut i: usize = 0;
    while i < items.len()
        invariant
            i <= items@.len(),
            s@ == message_spec(items@.subrange(0, i as int), sentence_view(tokens@), pm_view(*m)),
        decreases items.len() - i,
    {
        let ghost s0 = s@;
        match &items[i] {
            MsgItem::Seg(seg) => {
                let t = seg_chars(seg, tokens, m);
                append_chars(&mut s, &t);
            },
            MsgItem::Suggestion(segs) => {
                s.push('\u{201C}');
                let t = expand_segs(segs, tokens, m);
                append_chars(&mut s, &t);
                s.push('\u{201D}');
                assert(s@ =~= s0 + (seq!['\u{201C}'] + t@ + seq!['\u{201D}']));
            },
        }
        assert(items@.subrange(0, i + 1).drop_last() =~= items@.subrange(0, i as int));
        i += 1;
    }
    assert(items@.subrange(0, items.len() as int) =~= items@);
    s
}

fn suppresses_capitalize(segs: &Vec<Seg>) -> (r: bool)
    ensures
        r == suppresses_capitalize_spec(segs@),
{
    if segs.len() == 0 {
        return false;
    }
    let starts_with_ref = match &segs[0] {
        Seg::Ref(_) => true,
        _ => false,
    };
    let mut has = false;
    let mut i: usize = 0;
    while i < segs.len()
        invariant
            i <= segs@.len(),
            has == exists|k: int|
                0 <= k < i && (#[trigger] segs@[k] matches Seg::Match(ms) && !(
                ms.case_conv is Unchanged)),
        decreases segs.len() - i,
    {
        match &segs[i] {
            Seg::Match(ms) => match ms.case_conv {
                CaseConv::Unchanged => {},
                _ => {
                    has = true;
                },
            },
            _ => {},
        }
        i += 1;
    }
    starts_with_ref && has
}

/// The finding for match `m` (see [`render_spec`]).
pub fn render_match(
    rule: &GrammarRule,
    tokens: &[AnalyzedTokenReadings],
    m: &PatternMatch,
    text: &[char],
    nbytes: usize,
    base: usize,
) -> (r: Option<GrammarMatch>)
    requires
        base + text@.len() <= usize::MAX,
        nbytes == encode_utf8(text@).len(),
    ensures
        match r {
            None => render_spec(*rule, sentence_view(tokens@), pm_view(*m), text@, base as int) is None,
            Some(g) => render_spec(*rule, sentence_view(tokens@), pm_view(*m), text@, base as int)
                == Some(gm_view(g)),
        },
{
    let mf = m.marker_from_token;
    let l = if m.marker_to_token >= 1 {
        m.marker_to_token - 1
    } else {
        0
    };
    let ml = if l < mf {
        mf
    } else {
        l
    };
    if mf >= tokens.len() || ml >= tokens.len() {
        return None;
    }
    let start_b = tokens[mf].start_pos;
    let last_len = tokens[ml].token.as_str().as_bytes().len();
    if tokens[ml].start_pos > nbytes || last_len > nbytes - tokens[ml].start_pos {
        return None;
    }
    let end_b = tokens[ml].start_pos + last_len;
    if start_b > end_b {
        return None;
    }
    let start = match char_index_exec(text, start_b) {
        Some(k) => k,
        None => return None,
    };
    let end = match char_index_exec(text, end_b) {
        Some(k) => k,
        None => return None,
    };
    proof {
        lemma_char_index_bounds(text@, end_b as int);
        lemma_char_index_mono(text@, start_b as int, end_b as int);
    }
    let first = string_chars(&tokens[mf].token);
    let upper_initial = first.len() > 0 && is_uppercase_char(first[0]);
    let mut replacements: Vec<String> = Vec::new();
    let ghost mv = pm_view(*m);
    let mut i: usize = 0;
    while i < rule.suggestions.len()
        invariant
            i <= rule.suggestions@.len(),
            mv == pm_view(*m),
            replacements@.map_values(|s: String| s@) == rule.suggestions@.subrange(
                0,
                i as int,
            ).map_values(|segs: Vec<Seg>| replacement_spec(segs@, sentence_view(tokens@), mv, upper_initial)),
        decreases rule.suggestions.len() - i,
    {
        let segs = &rule.suggestions[i];
        let s = normalize_spaces_chars(&expand_segs(segs, tokens, m));
        let r = if upper_initial && !suppresses_capitalize(segs) {
            capitalize_first_chars(&s)
        } else {
            s
        };
        let ghost rv = replacements@;
        let rs = chars_to_string(&r);
        replacements.push(rs);
        proof {
            rv.lemma_push_map_commute(|s: String| s@, rs);
            assert(rule.suggestions@.subrange(0, i + 1) =~= rule.suggestions@.subrange(
                0,
                i as int,
            ).push(rule.suggestions@[i as int]));
            rule.suggestions@.subrange(0, i as int).lemma_push_map_commute(
                |segs: Vec<Seg>| replacement_spec(segs@, sentence_view(tokens@), mv, upper_initial),
                rule.suggestions@[i as int],
            );
        }
        i += 1;
    }
    assert(rule.suggestions@.subrange(0, rule.suggestions.len() as int) =~= rule.suggestions@);
    let message = chars_to_string(&render_message(&rule.message, tokens, m));
    let g = GrammarMatch {
        offset: base + start,
        length: end - start,
        message,
        replacements,
        rule_id: rule.id.clone(),
        category_id: rule.category_id.clone(),
    };
    assert(gm_view(g).replacements =~= rule.suggestions@.map_values(
        |segs: Vec<Seg>| replacement_spec(segs@, sentence_view(tokens@), mv, upper_initial),
    ));
    Some(g)
}

/// `b` sorts before `a`: smaller offset, or the same offset and longer.
pub open spec fn key_gt(a: GrammarMatchV, b: GrammarMatchV) -> bool {
    a.offset > b.offset || (a.offset == b.offset && a.length < b.length)
}

/// `m` inserted after every element that does not sort after it.
pub open spec fn insert_sorted(s: Seq<GrammarMatchV>, m: GrammarMatchV) -> Seq<GrammarMatchV>
    decreases s.len(),
{
    if s.len() == 0 {
        seq![m]
    } else if key_gt(s.last(), m) {
        insert_sorted(s.drop_last(), m).push(s.last())
    } else {
        s.push(m)
    }
}

/// The stable sort by offset, then by decreasing length.
pub open spec fn stable_sort(v: Seq<GrammarMatchV>) -> Seq<GrammarMatchV>
    decreases v.len(),
{
    if v.len() == 0 {
        Seq::empty()
    } else {
        insert_sorted(stable_sort(v.drop_last()), v.last())
    }
}

/// `k`'s span contains `m`'s and differs from it.
pub open spec fn strictly_contains(k: GrammarMatchV, m: GrammarMatchV) -> bool {
    k.offset <= m.offset && m.offset + m.length <= k.offset + k.length && (k.offset != m.offset
        || k.offset + k.length != m.offset + m.length)
}

pub open spec fn contained_in_any(kept: Seq<GrammarMatchV>, m: GrammarMatchV) -> bool {
    exists|i: int| 0 <= i < kept.len() && strictly_contains(#[trigger] kept[i], m)
}

/// Findings kept in order, dropping each one strictly inside one kept before it.
pub open spec fn keep_fold(sorted: Seq<GrammarMatchV>) -> Seq<GrammarMatchV>
    decreases sorted.len(),
{
    if sorted.len() == 0 {
        Seq::empty()
    } else {
        let k = keep_fold(sorted.drop_last());
        if contained_in_any(k, sorted.last()) {
            k
        } else {
            k.push(sorted.last())
        }
    }
}

/// Sorted by span, without findings strictly inside another.
pub open spec fn spec_filter_overlaps(v: Seq<GrammarMatchV>) -> Seq<GrammarMatchV> {
    keep_fold(stable_sort(v))
}

proof fn lemma_insert_at(s: Seq<GrammarMatchV>, m: GrammarMatchV, j: int)
    requires
        0 <= j <= s.len(),
        forall|k: int| j <= k < s.len() ==> key_gt(#[trigger] s[k], m),
        j == 0 || !key_gt(s[j - 1], m),
    ensures
        insert_sorted(s, m) == s.subrange(0, j) + seq![m] + s.subrange(j, s.len() as int),
    decreases s.len(),
{
    if s.len() == 0 {
        assert(s.subrange(0, j) + seq![m] + s.subrange(j, s.len() as int) =~= seq![m]);
    } else if j == s.len() {
        assert(s.subrange(0, j) + seq![m] + s.subrange(j, s.len() as int) =~= s.push(m));
    } else {
        assert(key_gt(s[s.len() - 1], m));
        assert(s.last() == s[s.len() - 1]);
        let t = s.drop_last();
        assert forall|k: int| j <= k < t.len() implies key_gt(#[trigger] t[k], m) by {
            assert(t[k] == s[k]);
        }
        if j > 0 {
            assert(t[j - 1] == s[j - 1]);
        }
        lemma_insert_at(t, m, j);
        assert(t.subrange(0, j) + seq![m] + t.subrange(j, t.len() as int) + seq![s.last()]
            =~= s.subrange(0, j) + seq![m] + s.subrange(j, s.len() as int));
    }
}

/// Findings in document order: by offset, the longer first at one offset,
/// otherwise as they came (a stable sort).
#[verifier::spinoff_prover]
pub fn sort_findings(matches: Vec<GrammarMatch>) -> (r: Vec<GrammarMatch>)
    ensures
        gm_views(r@) == stable_sort(gm_views(matches@)),
{
    let ghost orig = gm_views(matches@);
    let mut rest = matches;
    let mut sorted: Vec<GrammarMatch> = Vec::new();
    let ghost mut taken: int = 0;
    while rest.len() > 0
        invariant
            0 <= taken <= orig.len(),
            gm_views(rest@) == orig.subrange(taken, orig.len() as int),
            gm_views(sorted@) == stable_sort(orig.subrange(0, taken)),
        decreases rest.len(),
    {
        let m = rest.remove(0);
        let ghost mv = gm_view(m);
        assert(mv == orig[taken]) by {
            assert(gm_views(rest@) =~= orig.subrange(taken + 1, orig.len() as int)) by {
                assert(orig.subrange(taken, orig.len() as int).drop_first() =~= orig.subrange(
                    taken + 1,
                    orig.len() as int,
                ));
            }
            assert(orig.subrange(taken, orig.len() as int)[0] == orig[taken]);
        }
        let mut j = sorted.len();
        while j > 0 && (sorted[j - 1].offset > m.offset || (sorted[j - 1].offset == m.offset
            && sorted[j - 1].length < m.length))
            invariant
                j <= sorted@.len(),
                forall|k: int| j <= k < sorted@.len() ==> key_gt(#[trigger] gm_views(sorted@)[k], mv),
                mv == gm_view(m),
            decreases j,
        {
            j -= 1;
        }
        let ghost sv = gm_views(sorted@);
        proof {
            if j > 0 {
                assert(sv[j - 1] == gm_view(sorted@[j - 1]));
            }
            lemma_insert_at(sv, mv, j as int);
        }
        sorted.insert(j, m);
        proof {
            assert(gm_views(sorted@) =~= sv.subrange(0, j as int) + seq![mv] + sv.subrange(
                j as int,
                sv.len() as int,
            ));
            assert(orig.subrange(0, taken + 1).drop_last() =~= orig.subrange(0, taken));
            assert(orig.subrange(0, taken + 1).last() == orig[taken]);
            taken = taken + 1;
            assert(gm_views(rest@) =~= orig.subrange(taken, orig.len() as int)) by {
                assert(orig.subrange(taken - 1, orig.len() as int).drop_first() =~= orig.subrange(
                    taken,
                    orig.len() as int,
                ));
            }
        }
    }
    assert(orig.subrange(0, taken) =~= orig) by {
        assert(orig.subrange(taken, orig.len() as int).len() == 0);
    }
    sorted
}

/// The order of findings within a sentence, and the removal of a finding
/// whose span lies strictly inside another's.
pub fn filter_overlaps(matches: Vec<GrammarMatch>) -> (r: Vec<GrammarMatch>)
    ensures
        gm_views(r@) == spec_filter_overlaps(gm_views(matches@)),
{
    let mut sorted = sort_findings(matches);
    let ghost sorted_v = gm_views(sorted@);
    let mut kept: Vec<GrammarMatch> = Vec::new();
    let ghost mut used: int = 0;
    while sorted.len() > 0
        invariant
            0 <= used <= sorted_v.len(),
            gm_views(sorted@) == sorted_v.subrange(used, sorted_v.len() as int),
            gm_views(kept@) == keep_fold(sorted_v.subrange(0, used)),
        decreases sorted.len(),
    {
        let ghost sb = sorted@;
        assert(gm_views(sb).len() == sb.len());
        assert(used < sorted_v.len());
        let m = sorted.remove(0);
        let ghost mv = gm_view(m);
        assert(mv == sorted_v[used]) by {
            assert(m == sb[0]);
            assert(gm_views(sb)[0] == gm_view(sb[0]));
            assert(sorted_v.subrange(used, sorted_v.len() as int)[0] == sorted_v[used]);
        }
        let mut contained = false;
        let mut q: usize = 0;
        let ghost kv = gm_views(kept@);
        while q < kept.len()
            invariant
                q <= kept@.len(),
                kv == gm_views(kept@),
                mv == gm_view(m),
                contained == exists|i: int| 0 <= i < q && strictly_contains(#[trigger] kv[i], mv),
            decreases kept.len() - q,
        {
            let k = &kept[q];
            let k_end = k.offset as u128 + k.length as u128;
            let m_end = m.offset as u128 + m.length as u128;
            if k.offset <= m.offset && m_end <= k_end && (k.offset != m.offset || k_end != m_end) {
                assert(strictly_contains(kv[q as int], mv));
                contained = true;
            }
            q += 1;
        }
        assert(sorted_v.subrange(0, used + 1).drop_last() =~= sorted_v.subrange(0, used));
        assert(sorted_v.subrange(0, used + 1).last() == sorted_v[used]);
        if !contained {
            let ghost k0 = gm_views(kept@);
            kept.push(m);
            assert(gm_views(kept@) =~= k0.push(mv));
        }
        proof {
            assert(gm_views(sb).drop_first() =~= gm_views(sorted@));
            used = used + 1;
            assert(gm_views(sorted@) =~= sorted_v.subrange(used, sorted_v.len() as int)) by {
                assert(sorted_v.subrange(used - 1, sorted_v.len() as int).drop_first()
                    =~= sorted_v.subrange(used, sorted_v.len() as int));
            }
        }
    }
    assert(sorted_v.subrange(0, used) =~= sorted_v) by {
        assert(sorted_v.subrange(used, sorted_v.len() as int).len() == 0);
    }
    kept
}

/// Whether some covered position lies in `[from, to)`.
fn overlaps_blocked(blocked: &Vec<bool>, from: usize, to: usize) -> (r: bool)
    ensures
        r == exists|i: int| from <= i < to && 0 <= i < blocked@.len() && blocked@[i],
{
    let mut i = from;
    while i < to && i < blocked.len()
        invariant
            from <= i,
            forall|k: int| from <= k < i && k < blocked@.len() ==> !blocked@[k],
        decreases to - i,
    {
        if blocked[i] {
            return true;
        }
        i += 1;
    }
    false
}

/// The findings of one rule over a sentence, appended to `out`.
fn collect_rule_matches(
    rule: &GrammarRule,
    tokens: &[AnalyzedTokenReadings],
    text: &[char],
    nbytes: usize,
    base: usize,
    out: &mut Vec<GrammarMatch>,
)
    requires
        rule_wf(*rule),
        base + text@.len() <= usize::MAX,
        nbytes == encode_utf8(text@).len(),
    ensures
        gm_views(final(out)@) == gm_views(old(out)@) + rule_findings(
            *rule,
            sentence_view(tokens@),
            text@,
            base as int,
            0,
        ),
{
    let blocked = antipattern_coverage(rule.antipatterns.as_slice(), tokens);
    let ghost all = rule_findings(*rule, sentence_view(tokens@), text@, base as int, 0);
    let ghost o0 = gm_views(out@);
    let mut start: usize = 0;
    while start < tokens.len()
        invariant_except_break
            gm_views(out@) + rule_findings(*rule, sentence_view(tokens@), text@, base as int, start as int)
                == o0 + all,
        invariant
            rule_wf(*rule),
            base + text@.len() <= usize::MAX,
            nbytes == encode_utf8(text@).len(),
            blocked@.len() == sentence_view(tokens@).len(),
            forall|i: int|
                0 <= i < sentence_view(tokens@).len() ==> blocked@[i] == covered(
                    rule.antipatterns@,
                    sentence_view(tokens@),
                    i,
                ),
        ensures
            gm_views(out@) == o0 + all,
        decreases tokens.len() - start,
    {
        let m = match rule.pattern.find_at_or_after(tokens, start) {
            Some(m) => m,
            None => {
                assert(gm_views(out@) + Seq::<GrammarMatchV>::empty() =~= gm_views(out@));
                break;
            },
        };
        proof {
            lemma_first_match(rule.pattern, sentence_view(tokens@), start as int);
        }
        let ghost mv = pm_view(m);
        let ov = overlaps_blocked(&blocked, m.from_token, m.to_token);
        assert(ov == overlaps_covered(*rule, sentence_view(tokens@), mv)) by {
            if ov {
                let i = choose|i: int|
                    m.from_token <= i < m.to_token && 0 <= i < blocked@.len() && blocked@[i];
                assert(covered(rule.antipatterns@, sentence_view(tokens@), i));
            }
            if overlaps_covered(*rule, sentence_view(tokens@), mv) {
                let i = choose|i: int|
                    mv.from <= i < mv.to && 0 <= i < sentence_view(tokens@).len() && covered(
                        rule.antipatterns@,
                        sentence_view(tokens@),
                        i,
                    );
                assert(blocked@[i]);
            }
        }
        let ghost o1 = gm_views(out@);
        let ghost here: Seq<GrammarMatchV>;
        if !ov {
            match render_match(rule, tokens, &m, text, nbytes, base) {
                Some(g) => {
                    out.push(g);
                    proof {
                        here = seq![gm_view(g)];
                        assert(gm_views(out@) =~= o1 + here);
                    }
                },
                None => {
                    proof {
                        here = Seq::empty();
                        assert(gm_views(out@) =~= o1 + here);
                    }
                },
            }
        } else {
            proof {
                here = Seq::empty();
                assert(gm_views(out@) =~= o1 + here);
            }
        }
        let next = if m.to_token > m.from_token {
            m.to_token
        } else {
            m.from_token + 1
        };
        if next >= tokens.len() {
            assert(rule_findings(*rule, sentence_view(tokens@), text@, base as int, start as int)
                == here);
            assert(gm_views(out@) =~= o1 + here);
            break;
        }
        assert(rule_findings(*rule, sentence_view(tokens@), text@, base as int, start as int) == here
            + rule_findings(*rule, sentence_view(tokens@), text@, base as int, next as int));
        assert(o1 + (here + rule_findings(*rule, sentence_view(tokens@), text@, base as int, next as int))
            =~= gm_views(out@) + rule_findings(*rule, sentence_view(tokens@), text@, base as int, next as int));
        start = next;
    }
    proof {
        if start >= tokens.len() {
            assert(gm_views(out@) + Seq::<GrammarMatchV>::empty() =~= gm_views(out@));
        }
    }
}

/// The findings of all supported rules, rule by rule.
pub open spec fn all_findings(
    rules: Seq<GrammarRule>,
    toks: Seq<TokenV>,
    text: Seq<char>,
    base: int,
) -> Seq<GrammarMatchV>
    decreases rules.len(),
{
    if rules.len() == 0 {
        Seq::empty()
    } else {
        all_findings(rules.drop_last(), toks, text, base) + if rules.last().unsupported@.len()
            == 0 {
            rule_findings(rules.last(), toks, text, base, 0)
        } else {
            Seq::empty()
        }
    }
}

/// Run every supported rule over one analyzed sentence. Offsets are in
/// characters; `sentence_char_offset` is where the sentence starts in the
/// whole text, and token positions are byte offsets in the sentence.
pub fn check_sentence(
    rules: &[GrammarRule],
    tokens: &[AnalyzedTokenReadings],
    sentence_text: &str,
    sentence_char_offset: usize,
) -> (r: Vec<GrammarMatch>)
    requires
        forall|i: int|
            0 <= i < rules@.len() ==> (#[trigger] rules@[i]).unsupported@.len() == 0 ==> rule_wf(
                rules@[i],
            ),
        sentence_char_offset + sentence_text@.len() <= usize::MAX,
    ensures
        gm_views(r@) == spec_filter_overlaps(
            all_findings(rules@, sentence_view(tokens@), sentence_text@, sentence_char_offset as int),
        ),
{
    let text = str_chars(sentence_text);
    let nbytes = sentence_text.as_bytes().len();
    let mut out: Vec<GrammarMatch> = Vec::new();
    let mut i: usize = 0;
    while i < rules.len()
        invariant
            i <= rules@.len(),
            text@ == sentence_text@,
            nbytes == encode_utf8(text@).len(),
            sentence_char_offset + text@.len() <= usize::MAX,
            forall|k: int|
                0 <= k < rules@.len() ==> (#[trigger] rules@[k]).unsupported@.len() == 0
                    ==> rule_wf(rules@[k]),
            gm_views(out@) == all_findings(
                rules@.subrange(0, i as int),
                sentence_view(tokens@),
                text@,
                sentence_char_offset as int,
            ),
        decreases rules.len() - i,
    {
        let rule = &rules[i];
        assert(rules@.subrange(0, i + 1).drop_last() =~= rules@.subrange(0, i as int));
        assert(rules@.subrange(0, i + 1).last() == rules@[i as int]);
        if rule.unsupported.len() == 0 {
            collect_rule_matches(rule, tokens, &text, nbytes, sentence_char_offset, &mut out);
        } else {
            assert(gm_views(out@) + Seq::<GrammarMatchV>::empty() =~= gm_views(out@));
        }
        i += 1;
    }
    assert(rules@.subrange(0, rules.len() as int) =~= rules@);
    filter_overlaps(out)
}

/// One rule over one sentence, without the overlap filter (a rule flagged
/// unsupported finds nothing).
pub fn check_one(
    rule: &GrammarRule,
    tokens: &[AnalyzedTokenReadings],
    sentence_text: &str,
    base: usize,
) -> (r: Vec<GrammarMatch>)
    requires
        rule.unsupported@.len() == 0 ==> rule_wf(*rule),
        base + sentence_text@.len() <= usize::MAX,
    ensures
        gm_views(r@) == if rule.unsupported@.len() == 0 {
            rule_findings(*rule, sentence_view(tokens@), sentence_text@, base as int, 0)
        } else {
            Seq::empty()
        },
{
    let mut out: Vec<GrammarMatch> = Vec::new();
    if rule.unsupported.len() == 0 {
        let text = str_chars(sentence_text);
        let nbytes = sentence_text.as_bytes().len();
        collect_rule_matches(rule, tokens, &text, nbytes, base, &mut out);
        assert(gm_views(Seq::<GrammarMatch>::empty()) =~= Seq::<GrammarMatchV>::empty());
        assert(Seq::<GrammarMatchV>::empty() + rule_findings(
            *rule,
            sentence_view(tokens@),
            sentence_text@,
            base as int,
            0,
        ) =~= rule_findings(*rule, sentence_view(tokens@), sentence_text@, base as int, 0));
    } else {
        assert(gm_views(out@) =~= Seq::<GrammarMatchV>::empty());
    }
    out
}

// ---------------------------------------------------------------------------
// Reading rules
// ---------------------------------------------------------------------------

/// `usize::from_str` of a digit string (`+` allowed first): `None` when it is
/// malformed or too large.
pub open spec fn parse_usize_spec(s: Seq<char>) -> Option<usize> {
    let body = if s.len() > 0 && s[0] == '+' {
        s.drop_first()
    } else {
        s
    };
    if body.len() == 0 || !all_digits(body) || digits_value(body) > usize::MAX {
        None
    } else {
        Some(digits_value(body) as usize)
    }
}

/// A `<match>` as read: its token number, case conversion and (uncompiled)
/// regex replacement.
pub struct MatchDescV {
    pub no: usize,
    pub case_conv: CaseConv,
    pub regex: Option<(Seq<char>, Seq<char>)>,
}

pub enum SegV {
    Text(Seq<char>),
    Ref(usize),
    Match(MatchDescV),
}

pub enum MsgItemV {
    Seg(SegV),
    Suggestion(Seq<SegV>),
}

pub open spec fn spec_case_conv(v: Option<Seq<char>>) -> CaseConv {
    match v {
        Some(c) => if c == "startlower"@ {
            CaseConv::StartLower
        } else if c == "startupper"@ {
            CaseConv::StartUpper
        } else if c == "alllower"@ {
            CaseConv::AllLower
        } else if c == "allupper"@ {
            CaseConv::AllUpper
        } else if c == "preserve"@ {
            CaseConv::Preserve
        } else {
            CaseConv::Unchanged
        },
        None => CaseConv::Unchanged,
    }
}

/// A `<match>` element read: `None` when it needs the synthesizer (`postag`,
/// `postag_replace`), names no token (`no` absent, malformed or 0), or its
/// `regexp_match` does not compile.
pub open spec fn match_desc(a: Seq<(Seq<u8>, Seq<u8>)>) -> Option<MatchDescV> {
    if attr_spec(a, "postag"@) is Some || attr_spec(a, "postag_replace"@) is Some {
        None
    } else {
        let no = match attr_spec(a, "no"@) {
            Some(v) => match parse_usize_spec(v) {
                Some(n) => n,
                None => 0,
            },
            None => 0,
        };
        if no == 0 {
            None
        } else {
            let cc = spec_case_conv(attr_spec(a, "case_conversion"@));
            match (attr_spec(a, "regexp_match"@), attr_spec(a, "regexp_replace"@)) {
                (Some(m), Some(r)) => if regex_compiles(m) {
                    Some(MatchDescV { no, case_conv: cc, regex: Some((m, spec_java_replacement(r))) })
                } else {
                    None
                },
                _ => Some(MatchDescV { no, case_conv: cc, regex: None }),
            }
        }
    }
}

/// The value of a `\N` digit run (0 when it overflows).
pub open spec fn ref_number(d: Seq<char>) -> usize {
    if digits_value(d) <= usize::MAX {
        digits_value(d) as usize
    } else {
        0
    }
}

/// Text split into literal fragments and `\N` references; `cur` is the
/// literal read so far.
pub open spec fn backrefs_from(cur: Seq<char>, rest: Seq<char>) -> Seq<SegV>
    decreases rest.len(),
{
    if rest.len() == 0 {
        if cur.len() > 0 {
            seq![SegV::Text(cur)]
        } else {
            Seq::empty()
        }
    } else if rest[0] == '\\' && rest.len() > 1 && is_ascii_digit(rest[1]) {
        proof {
            lemma_digit_run(rest.drop_first());
        }
        let d = digit_run(rest.drop_first());
        (if cur.len() > 0 {
            seq![SegV::Text(cur)]
        } else {
            Seq::empty()
        }) + seq![SegV::Ref(ref_number(rest.subrange(1, 1 + d as int)))] + backrefs_from(
            Seq::empty(),
            rest.skip(1 + d as int),
        )
    } else {
        backrefs_from(cur.push(rest[0]), rest.drop_first())
    }
}

pub open spec fn spec_backrefs(s: Seq<char>) -> Seq<SegV> {
    backrefs_from(Seq::empty(), s)
}

/// An `<example>` as read.
pub struct ExampleV {
    pub text: Seq<char>,
    pub marker: Option<(int, int)>,
    pub correction: Option<Seq<Seq<char>>>,
    pub triggers_error: bool,
}

/// A `<rule>` as read, before its patterns are compiled.
pub struct GRuleDesc {
    pub id: Seq<char>,
    pub category_id: Seq<char>,
    pub pattern: CapturedV,
    /// The rule's antipatterns, then those of its rule group.
    pub antis: Seq<CapturedV>,
    pub message: Seq<MsgItemV>,
    pub suggestions: Seq<Seq<SegV>>,
    pub examples: Seq<ExampleV>,
    pub needs_synth: bool,
    pub off: bool,
}

/// Reader state for a grammar file.
pub struct GState {
    pub rules: Seq<GRuleDesc>,
    pub category_id: Seq<char>,
    pub group_id: Option<Seq<char>>,
    pub in_rule: bool,
    pub rule_id: Option<Seq<char>>,
    pub category_off: bool,
    pub group_off: bool,
    pub rule_off: bool,
    pub pattern: Option<CapturedV>,
    pub antis: Seq<CapturedV>,
    pub group_antis: Seq<CapturedV>,
    pub capture: Option<Seq<XmlEventV>>,
    pub capture_is_anti: bool,
    pub capture_cs: bool,
    pub in_message: bool,
    pub message: Seq<MsgItemV>,
    pub in_suggestion: bool,
    pub sugg: Seq<SegV>,
    pub suggestions: Seq<Seq<SegV>>,
    pub sugg_in_message: bool,
    pub needs_synth: bool,
    pub in_match: bool,
    pub has_filter: bool,
    pub examples: Seq<ExampleV>,
    pub in_example: bool,
    pub ex_text: Seq<char>,
    pub ex_correction: Option<Seq<Seq<char>>>,
    pub ex_marker: Option<(int, int)>,
    pub ex_marker_start: Option<int>,
    pub ex_triggers_error: bool,
}

pub open spec fn g_init() -> GState {
    GState {
        rules: Seq::empty(),
        category_id: Seq::empty(),
        group_id: None,
        in_rule: false,
        rule_id: None,
        category_off: false,
        group_off: false,
        rule_off: false,
        pattern: None,
        antis: Seq::empty(),
        group_antis: Seq::empty(),
        capture: None,
        capture_is_anti: false,
        capture_cs: false,
        in_message: false,
        message: Seq::empty(),
        in_suggestion: false,
        sugg: Seq::empty(),
        suggestions: Seq::empty(),
        sugg_in_message: false,
        needs_synth: false,
        in_match: false,
        has_filter: false,
        examples: Seq::empty(),
        in_example: false,
        ex_text: Seq::empty(),
        ex_correction: None,
        ex_marker: None,
        ex_marker_start: None,
        ex_triggers_error: false,
    }
}

/// `default="off"`, or `picky` among the tags.
pub open spec fn disabled_spec(a: Seq<(Seq<u8>, Seq<u8>)>) -> bool {
    attr_spec(a, "default"@) == Some("off"@) || match attr_spec(a, "tags"@) {
        Some(t) => contains_seq(t, "picky"@),
        None => false,
    }
}

/// The segments of `seq_map` as message items.
pub open spec fn segs_as_items(segs: Seq<SegV>) -> Seq<MsgItemV> {
    segs.map_values(|x: SegV| MsgItemV::Seg(x))
}

/// Text landing in the open `<match>` (dropped), suggestion or message.
pub open spec fn g_push_text(st: GState, txt: Seq<char>) -> GState {
    let segs = spec_backrefs(txt);
    if st.in_match {
        st
    } else if st.in_suggestion {
        GState { sugg: st.sugg + segs, ..st }
    } else if st.in_message {
        GState { message: st.message + segs_as_items(segs), ..st }
    } else {
        st
    }
}

/// Text in an example, a suggestion or the message.
#[verifier::opaque]
pub open spec fn g_text(st: GState, txt: Seq<char>) -> GState {
    if st.in_message || st.in_suggestion || st.in_example {
        if st.in_example {
            GState { ex_text: st.ex_text + txt, ..st }
        } else {
            g_push_text(st, txt)
        }
    } else {
        st
    }
}

/// A `<match>` read into the open suggestion or message.
#[verifier::opaque]
pub open spec fn g_match(st: GState, a: Seq<(Seq<u8>, Seq<u8>)>) -> GState {
    match match_desc(a) {
        Some(m) => if st.in_suggestion {
            GState { sugg: st.sugg.push(SegV::Match(m)), ..st }
        } else {
            GState { message: st.message.push(MsgItemV::Seg(SegV::Match(m))), ..st }
        },
        None => GState { needs_synth: true, ..st },
    }
}

/// The rule's id, or else its group's.
pub open spec fn g_rule_id(st: GState) -> Seq<char> {
    match st.rule_id {
        Some(i) => i,
        None => match st.group_id {
            Some(g) => g,
            None => Seq::empty(),
        },
    }
}

/// The rule read when `</rule>` closes it.
pub open spec fn g_rule_desc(st: GState, p: CapturedV) -> GRuleDesc {
    GRuleDesc {
        id: g_rule_id(st),
        category_id: st.category_id,
        pattern: p,
        antis: st.antis + st.group_antis,
        message: st.message,
        suggestions: st.suggestions,
        examples: st.examples,
        needs_synth: st.needs_synth || st.has_filter,
        off: st.rule_off,
    }
}

/// `<rule>`: a new rule starts; it is off when its own `default` says so, or
/// else when its group or category is off, or when it is tagged `picky`.
#[verifier::opaque]
pub open spec fn g_open_rule(st: GState, a: Seq<(Seq<u8>, Seq<u8>)>) -> GState {
    let off_by_default = match attr_spec(a, "default"@) {
        Some(d) => if d == "on"@ {
            false
        } else if d == "off"@ {
            true
        } else {
            st.group_off || st.category_off
        },
        None => st.group_off || st.category_off,
    };
    let picky = match attr_spec(a, "tags"@) {
        Some(t) => contains_seq(t, "picky"@),
        None => false,
    };
    GState {
        in_rule: true,
        rule_id: attr_spec(a, "id"@),
        rule_off: off_by_default || picky,
        pattern: None,
        antis: Seq::empty(),
        message: Seq::empty(),
        suggestions: Seq::empty(),
        needs_synth: false,
        has_filter: false,
        ..st
    }
}

/// `<example>`: its text, marker and corrections start afresh.
#[verifier::opaque]
pub open spec fn g_open_example(st: GState, a: Seq<(Seq<u8>, Seq<u8>)>) -> GState {
    GState {
        in_example: true,
        ex_text: Seq::empty(),
        ex_marker: None,
        ex_marker_start: None,
        ex_triggers_error: attr_spec(a, "type"@) == Some("triggers_error"@),
        ex_correction: correction_spec(a),
        ..st
    }
}

/// The corrections an example's `correction` attribute lists, `|` apart
/// (entities unescaped where that succeeds).
pub open spec fn correction_spec(a: Seq<(Seq<u8>, Seq<u8>)>) -> Option<Seq<Seq<char>>> {
    match attr_spec(a, "correction"@) {
        Some(c) => Some(
            split_on(
                match xml_unescaped(c) {
                    Some(u) => u,
                    None => c,
                },
                '|',
            ),
        ),
        None => None,
    }
}

/// `</pattern>` or `</antipattern>`: the captured events become the rule's
/// pattern, one of its antipatterns, or one of its group's antipatterns.
#[verifier::opaque]
pub open spec fn g_close_capture(st: GState) -> GState {
    let cap = CapturedV { events: st.capture->0, case_sensitive: st.capture_cs };
    if st.capture_is_anti {
        if st.in_rule {
            GState { antis: st.antis.push(cap), capture: None, ..st }
        } else {
            GState { group_antis: st.group_antis.push(cap), capture: None, ..st }
        }
    } else {
        GState { pattern: Some(cap), capture: None, ..st }
    }
}

/// `</suggestion>`: the block joins the rule's suggestions (and its message,
/// when it stood inside the message).
#[verifier::opaque]
pub open spec fn g_close_suggestion(st: GState) -> GState {
    GState {
        in_suggestion: false,
        sugg: Seq::empty(),
        message: if st.sugg_in_message {
            st.message.push(MsgItemV::Suggestion(st.sugg))
        } else {
            st.message
        },
        suggestions: st.suggestions.push(st.sugg),
        ..st
    }
}

/// `</example>`: the example joins the rule's examples.
#[verifier::opaque]
pub open spec fn g_close_example(st: GState) -> GState {
    GState {
        in_example: false,
        examples: st.examples.push(
            ExampleV {
                text: st.ex_text,
                marker: st.ex_marker,
                correction: st.ex_correction,
                triggers_error: st.ex_triggers_error,
            },
        ),
        ex_text: Seq::empty(),
        ex_marker: None,
        ex_correction: None,
        ex_triggers_error: false,
        ..st
    }
}

/// `</rule>`: a rule with a pattern is added to what was read.
#[verifier::opaque]
pub open spec fn g_close_rule(st: GState) -> GState {
    GState {
        rules: match st.pattern {
            Some(p) => st.rules.push(g_rule_desc(st, p)),
            None => st.rules,
        },
        pattern: None,
        message: Seq::empty(),
        suggestions: Seq::empty(),
        examples: Seq::empty(),
        in_rule: false,
        rule_id: None,
        ..st
    }
}

/// `<category>`: its id, and whether its rules are off by default.
#[verifier::opaque]
pub open spec fn g_open_category(st: GState, a: Seq<(Seq<u8>, Seq<u8>)>) -> GState {
    GState {
        category_id: match attr_spec(a, "id"@) {
            Some(v) => v,
            None => Seq::empty(),
        },
        category_off: disabled_spec(a),
        ..st
    }
}

/// `<rulegroup>`: its id, no antipatterns yet, and whether it is off.
#[verifier::opaque]
pub open spec fn g_open_group(st: GState, a: Seq<(Seq<u8>, Seq<u8>)>) -> GState {
    GState {
        group_id: attr_spec(a, "id"@),
        group_antis: Seq::empty(),
        group_off: disabled_spec(a),
        ..st
    }
}

/// `<pattern>` or `<antipattern>`: capturing starts.
#[verifier::opaque]
pub open spec fn g_open_capture(st: GState, anti: bool, a: Seq<(Seq<u8>, Seq<u8>)>) -> GState {
    GState {
        capture_is_anti: anti,
        capture_cs: attr_spec(a, "case_sensitive"@) == Some("yes"@),
        capture: Some(Seq::empty()),
        ..st
    }
}

/// `<message>`.
#[verifier::opaque]
pub open spec fn g_open_message(st: GState) -> GState {
    GState { in_message: true, message: Seq::empty(), ..st }
}

/// `<suggestion>`, inside the message or not.
#[verifier::opaque]
pub open spec fn g_open_suggestion(st: GState) -> GState {
    GState { in_suggestion: true, sugg: Seq::empty(), sugg_in_message: st.in_message, ..st }
}

/// `<match>` as an opening tag: read, and its text ignored until it closes.
#[verifier::opaque]
pub open spec fn g_open_match(st: GState, a: Seq<(Seq<u8>, Seq<u8>)>) -> GState {
    GState { in_match: true, ..g_match(st, a) }
}

/// `<filter>`: the rule needs what is not supported.
#[verifier::opaque]
pub open spec fn g_filter(st: GState) -> GState {
    GState { has_filter: true, ..st }
}

/// `<marker>`: the marked span starts at the example text read so far.
#[verifier::opaque]
pub open spec fn g_open_marker(st: GState) -> GState {
    GState { ex_marker_start: Some(st.ex_text.len() as int), ..st }
}

/// An opening tag.
#[verifier::opaque]
pub open spec fn g_start(st: GState, n: Seq<u8>, a: Seq<(Seq<u8>, Seq<u8>)>) -> GState {
    if is_tag(n, "category"@) {
        g_open_category(st, a)
    } else if is_tag(n, "rulegroup"@) {
        g_open_group(st, a)
    } else if is_tag(n, "rule"@) {
        g_open_rule(st, a)
    } else if (is_tag(n, "pattern"@) || is_tag(n, "antipattern"@)) && (st.in_rule
        || st.group_id is Some) {
        g_open_capture(st, is_tag(n, "antipattern"@), a)
    } else if is_tag(n, "message"@) && st.in_rule {
        g_open_message(st)
    } else if is_tag(n, "suggestion"@) && st.in_rule {
        g_open_suggestion(st)
    } else if is_tag(n, "match"@) && (st.in_suggestion || st.in_message) {
        g_open_match(st, a)
    } else if is_tag(n, "filter"@) && st.in_rule {
        g_filter(st)
    } else if is_tag(n, "example"@) && st.in_rule {
        g_open_example(st, a)
    } else if is_tag(n, "marker"@) && st.in_example {
        g_open_marker(st)
    } else {
        st
    }
}

/// `</match>`.
#[verifier::opaque]
pub open spec fn g_close_match(st: GState) -> GState {
    GState { in_match: false, ..st }
}

/// `</message>`.
#[verifier::opaque]
pub open spec fn g_close_message(st: GState) -> GState {
    GState { in_message: false, ..st }
}

/// `</marker>`: the span from its start to the example text read so far.
#[verifier::opaque]
pub open spec fn g_close_marker(st: GState) -> GState {
    match st.ex_marker_start {
        Some(s) => GState {
            ex_marker: Some((s, st.ex_text.len() - s)),
            ex_marker_start: None,
            ..st
        },
        None => st,
    }
}

/// `</rulegroup>`.
#[verifier::opaque]
pub open spec fn g_close_group(st: GState) -> GState {
    GState { group_id: None, group_off: false, ..st }
}

/// A closing tag.
#[verifier::opaque]
pub open spec fn g_end(st: GState, n: Seq<u8>) -> GState {
    if (is_tag(n, "pattern"@) || is_tag(n, "antipattern"@)) && st.capture is Some {
        g_close_capture(st)
    } else if is_tag(n, "match"@) {
        g_close_match(st)
    } else if is_tag(n, "suggestion"@) && st.in_suggestion {
        g_close_suggestion(st)
    } else if is_tag(n, "message"@) {
        g_close_message(st)
    } else if is_tag(n, "marker"@) && st.in_example {
        g_close_marker(st)
    } else if is_tag(n, "example"@) && st.in_example {
        g_close_example(st)
    } else if is_tag(n, "rule"@) && st.in_rule {
        g_close_rule(st)
    } else if is_tag(n, "rulegroup"@) {
        g_close_group(st)
    } else {
        st
    }
}

/// What one event of the rule file does to the reading state.
pub open spec fn g_handle(st: GState, ev: XmlEventV) -> GState {
    match ev {
        XmlEventV::Start(n, a) => g_start(st, n, a),
        XmlEventV::Empty(n, a) => if is_tag(n, "match"@) && (st.in_suggestion || st.in_message) {
            g_match(st, a)
        } else if is_tag(n, "filter"@) && st.in_rule {
            g_filter(st)
        } else {
            st
        },
        XmlEventV::Text(raw) => g_text(st, text_of(raw)),
        XmlEventV::Ref(name, ch) => match ref_text(name, ch) {
            Some(txt) => g_text(st, txt),
            None => st,
        },
        XmlEventV::End(n) => g_end(st, n),
        XmlEventV::Other => st,
    }
}

pub open spec fn g_step(st: GState, ev: XmlEventV) -> GState {
    g_handle(GState { capture: mirror(st.capture, ev), ..st }, ev)
}

pub open spec fn g_run(evs: Seq<XmlEventV>, n: int) -> GState
    decreases n,
{
    if n <= 0 {
        g_init()
    } else {
        g_step(g_run(evs, n - 1), evs[n - 1])
    }
}

// --- views of what was read ------------------------------------------------

pub open spec fn seg_view(seg: Seg) -> SegV {
    match seg {
        Seg::Text(t) => SegV::Text(t@),
        Seg::Ref(n) => SegV::Ref(n),
        Seg::Match(ms) => SegV::Match(
            MatchDescV {
                no: ms.no,
                case_conv: ms.case_conv,
                regex: match ms.regex {
                    Some((re, rep)) => Some((re.src(), rep@)),
                    None => None,
                },
            },
        ),
    }
}

pub open spec fn segs_view(v: Seq<Seg>) -> Seq<SegV> {
    v.map_values(|x: Seg| seg_view(x))
}

pub open spec fn item_view(it: MsgItem) -> MsgItemV {
    match it {
        MsgItem::Seg(x) => MsgItemV::Seg(seg_view(x)),
        MsgItem::Suggestion(v) => MsgItemV::Suggestion(segs_view(v@)),
    }
}

pub open spec fn items_view(v: Seq<MsgItem>) -> Seq<MsgItemV> {
    v.map_values(|x: MsgItem| item_view(x))
}

pub open spec fn blocks_view(v: Seq<Vec<Seg>>) -> Seq<Seq<SegV>> {
    v.map_values(|x: Vec<Seg>| segs_view(x@))
}

/// Every `<match>` regex of the segments compiles.
pub open spec fn segs_compile(v: Seq<Seg>) -> bool {
    forall|i: int|
        0 <= i < v.len() ==> match #[trigger] v[i] {
            Seg::Match(ms) => match ms.regex {
                Some((re, _r)) => regex_compiles(re.src()),
                None => true,
            },
            _ => true,
        }
}

pub open spec fn example_view(e: Example) -> ExampleV {
    ExampleV {
        text: e.text@,
        marker: match e.marker {
            Some((a, b)) => Some((a as int, b as int)),
            None => None,
        },
        correction: match e.correction {
            Some(v) => Some(string_views(v@)),
            None => None,
        },
        triggers_error: e.triggers_error,
    }
}

pub open spec fn examples_view(v: Seq<Example>) -> Seq<ExampleV> {
    v.map_values(|x: Example| example_view(x))
}

/// The antipatterns and this rule's own pattern have their markers inside.
pub open spec fn gdesc_wf(d: GRuleDesc) -> bool {
    state_wf(captured_state(d.pattern)) && forall|a: int|
        0 <= a < d.antis.len() ==> state_wf(captured_state(#[trigger] d.antis[a]))
}

/// The unsupported features of a rule: those of its pattern, a `<match>`
/// needing the synthesizer or a `<filter>`, those of its antipatterns, a
/// marker outside a pattern, and being off by default.
pub open spec fn grule_unsupported(d: GRuleDesc) -> Seq<Seq<char>> {
    let st = captured_state(d.pattern);
    let u1 = if d.needs_synth {
        note(st.unsupported, "match-synth"@)
    } else {
        st.unsupported
    };
    let u2 = antis_notes(d.antis, u1);
    let u3 = if !gdesc_wf(d) {
        note(u2, "marker"@)
    } else {
        u2
    };
    if d.off {
        note(u3, "disabled"@)
    } else {
        u3
    }
}

/// `r` is the rule a description compiles to.
#[verifier::opaque]
pub open spec fn grule_built(r: GrammarRule, d: GRuleDesc) -> bool {
    &&& r.id@ == d.id
    &&& r.category_id@ == d.category_id
    &&& pattern_from(r.pattern, captured_state(d.pattern))
    &&& r.antipatterns@.len() == d.antis.len()
    &&& forall|a: int|
        0 <= a < d.antis.len() ==> pattern_from(
            #[trigger] r.antipatterns@[a],
            captured_state(d.antis[a]),
        )
    &&& items_view(r.message@) == d.message
    &&& blocks_view(r.suggestions@) == d.suggestions
    &&& examples_view(r.examples@) == d.examples
    &&& string_views(r.unsupported@) == grule_unsupported(d)
}

// --- helpers --------------------------------------------------------------

fn parse_usize(s: &[char]) -> (r: Option<usize>)
    ensures
        r == parse_usize_spec(s@),
{
    let start: usize = if s.len() > 0 && s[0] == '+' {
        1
    } else {
        0
    };
    let ghost body = if s@.len() > 0 && s@[0] == '+' {
        s@.drop_first()
    } else {
        s@
    };
    assert(body =~= s@.subrange(start as int, s.len() as int));
    if start >= s.len() {
        return None;
    }
    let mut v: usize = 0;
    let mut over = false;
    let mut i = start;
    while i < s.len()
        invariant
            start <= i <= s.len(),
            body == (if s@.len() > 0 && s@[0] == '+' {
                s@.drop_first()
            } else {
                s@
            }),
            body == s@.subrange(start as int, s.len() as int),
            forall|k: int| start <= k < i ==> '0' <= #[trigger] s@[k] <= '9',
            !over ==> v == digits_value(s@.subrange(start as int, i as int)),
            over ==> digits_value(s@.subrange(start as int, i as int)) > usize::MAX,
        decreases s.len() - i,
    {
        let c = s[i];
        if c < '0' || c > '9' {
            assert(!all_digits(body)) by {
                assert(body[i - start] == s@[i as int]);
            }
            return None;
        }
        let ghost pre = s@.subrange(start as int, i as int);
        let ghost nxt = s@.subrange(start as int, i + 1);
        assert(nxt.drop_last() =~= pre);
        assert(nxt.last() == c);
        let d = (c as u32 - '0' as u32) as usize;
        if !over {
            if v > (usize::MAX - d) / 10 {
                over = true;
                assert(digits_value(nxt) > usize::MAX) by (nonlinear_arith)
                    requires
                        digits_value(nxt) == v * 10 + d,
                        v > (usize::MAX - d) / 10,
                        d <= 9,
                ;
            } else {
                assert(v * 10 + d <= usize::MAX) by (nonlinear_arith)
                    requires
                        v <= (usize::MAX - d) / 10,
                        d <= 9,
                ;
                v = v * 10 + d;
            }
        } else {
            proof {
                crate::parse::lemma_digits_nonneg(pre);
            }
        }
        i += 1;
    }
    assert(all_digits(body)) by {
        assert forall|k: int| 0 <= k < body.len() implies '0' <= #[trigger] body[k] <= '9' by {
            assert(body[k] == s@[start + k]);
        }
    }
    if over {
        return None;
    }
    Some(v)
}

fn case_conv_of(v: Option<Vec<char>>) -> (r: CaseConv)
    ensures
        r == spec_case_conv(match v {
            Some(c) => Some(c@),
            None => None,
        }),
{
    match v {
        None => CaseConv::Unchanged,
        Some(c) => {
            if crate::text::chars_eq(&c, &crate::text::lit("startlower")) {
                CaseConv::StartLower
            } else if crate::text::chars_eq(&c, &crate::text::lit("startupper")) {
                CaseConv::StartUpper
            } else if crate::text::chars_eq(&c, &crate::text::lit("alllower")) {
                CaseConv::AllLower
            } else if crate::text::chars_eq(&c, &crate::text::lit("allupper")) {
                CaseConv::AllUpper
            } else if crate::text::chars_eq(&c, &crate::text::lit("preserve")) {
                CaseConv::Preserve
            } else {
                CaseConv::Unchanged
            }
        },
    }
}

/// A `<match>` element read (see [`match_desc`]).
pub fn parse_match_spec(a: &Vec<(Vec<u8>, Vec<u8>)>) -> (r: Option<MatchSpec>)
    ensures
        match r {
            Some(ms) => match_desc(attrs_view(a@)) == Some(
                MatchDescV {
                    no: ms.no,
                    case_conv: ms.case_conv,
                    regex: match ms.regex {
                        Some((re, rep)) => Some((re.src(), rep@)),
                        None => None,
                    },
                },
            ) && match ms.regex {
                Some((re, _r)) => regex_compiles(re.src()),
                None => true,
            },
            None => match_desc(attrs_view(a@)) is None,
        },
{
    if attr(a, "postag").is_some() || attr(a, "postag_replace").is_some() {
        return None;
    }
    let no = match attr(a, "no") {
        Some(v) => match parse_usize(&v) {
            Some(n) => n,
            None => 0,
        },
        None => 0,
    };
    if no == 0 {
        return None;
    }
    let case_conv = case_conv_of(attr(a, "case_conversion"));
    let regex = match (attr(a, "regexp_match"), attr(a, "regexp_replace")) {
        (Some(m), Some(rp)) => match compile_chars(&m) {
            Some(re) => {
                let rep = crate::render::java_replacement_chars(&rp);
                Some((re, chars_to_string(&rep)))
            },
            None => return None,
        },
        _ => None,
    };
    Some(MatchSpec { no, case_conv, regex })
}

/// `\N` references and literal fragments of a text (see [`spec_backrefs`]).
pub fn parse_backrefs(s: &[char]) -> (r: Vec<Seg>)
    ensures
        segs_view(r@) == spec_backrefs(s@),
        segs_compile(r@),
{
    let mut out: Vec<Seg> = Vec::new();
    let mut cur: Vec<char> = Vec::new();
    let mut i: usize = 0;
    assert(s@.skip(0) =~= s@);
    while i < s.len()
        invariant
            i <= s.len(),
            segs_view(out@) + backrefs_from(cur@, s@.skip(i as int)) == spec_backrefs(s@),
            segs_compile(out@),
        decreases s.len() - i,
    {
        let ghost rest = s@.skip(i as int);
        let ghost o0 = segs_view(out@);
        if s[i] == '\\' && i + 1 < s.len() && '0' <= s[i + 1] && s[i + 1] <= '9' {
            proof {
                lemma_digit_run(rest.drop_first());
            }
            let start = i + 1;
            let mut j = start;
            while j < s.len() && '0' <= s[j] && s[j] <= '9'
                invariant
                    start <= j <= s.len(),
                    forall|k: int| start <= k < j ==> is_ascii_digit(#[trigger] s@[k]),
                decreases s.len() - j,
            {
                j += 1;
            }
            assert(digit_run(rest.drop_first()) == j - start) by {
                let d = digit_run(rest.drop_first()) as int;
                if d < j - start {
                    assert(rest.drop_first()[d] == s@[start + d]);
                } else if d > j - start {
                    assert(rest.drop_first()[j - start] == s@[j as int]);
                }
            }
            let digits = crate::text::sub_chars(s, start, j);
            assert(digits@ =~= rest.subrange(1, 1 + (j - start)));
            let n = match parse_usize(&digits) {
                Some(n) => n,
                None => 0,
            };
            assert(n == ref_number(digits@)) by {
                assert(all_digits(digits@)) by {
                    assert forall|k: int| 0 <= k < digits@.len() implies '0' <= #[trigger] digits@[k] <= '9' by {
                        assert(digits@[k] == s@[start + k]);
                    }
                }
                assert(digits@.len() > 0);
                assert(digits@[0] != '+');
            }
            let had_cur = cur.len() > 0;
            if had_cur {
                let t = chars_to_string(&cur);
                out.push(Seg::Text(t));
            }
            out.push(Seg::Ref(n));
            proof {
                let flushed = if cur@.len() > 0 {
                    seq![SegV::Text(cur@)]
                } else {
                    Seq::<SegV>::empty()
                };
                assert(segs_view(out@) =~= o0 + flushed + seq![SegV::Ref(n)]);
                assert(rest.skip(1 + (j - start)) =~= s@.skip(j as int));
                assert(segs_compile(out@)) by {
                    assert forall|k: int| 0 <= k < out@.len() implies match #[trigger] out@[k] {
                        Seg::Match(ms) => match ms.regex {
                            Some((re, _r)) => regex_compiles(re.src()),
                            None => true,
                        },
                        _ => true,
                    } by {
                    }
                }
            }
            cur = Vec::new();
            assert(o0 + (if cur@.len() > 0 {
                seq![SegV::Text(cur@)]
            } else {
                Seq::<SegV>::empty()
            }) =~= o0);
            i = j;
        } else {
            proof {
                assert(rest.drop_first() =~= s@.skip(i + 1));
                if i + 1 < s.len() {
                    assert(rest[1] == s@[i + 1]);
                }
            }
            cur.push(s[i]);
            i += 1;
        }
    }
    assert(s@.skip(i as int) =~= Seq::<char>::empty());
    if cur.len() > 0 {
        let t = chars_to_string(&cur);
        let ghost o0 = segs_view(out@);
        out.push(Seg::Text(t));
        assert(segs_view(out@) =~= o0 + seq![SegV::Text(cur@)]);
    } else {
        assert(segs_view(out@) + Seq::<SegV>::empty() =~= segs_view(out@));
    }
    out
}

/// A copy of segments (compiled regexes compiled again from their sources).
fn dup_segs(v: &Vec<Seg>) -> (r: Vec<Seg>)
    requires
        segs_compile(v@),
    ensures
        segs_view(r@) == segs_view(v@),
        segs_compile(r@),
{
    let mut out: Vec<Seg> = Vec::new();
    let mut i: usize = 0;
    while i < v.len()
        invariant
            i <= v@.len(),
            segs_compile(v@),
            segs_view(out@) == segs_view(v@).subrange(0, i as int),
            segs_compile(out@),
        decreases v.len() - i,
    {
        let seg = match &v[i] {
            Seg::Text(t) => Seg::Text(t.clone()),
            Seg::Ref(n) => Seg::Ref(*n),
            Seg::Match(ms) => {
                let regex = match &ms.regex {
                    Some((re, rep)) => {
                        assert(regex_compiles(re.src()));
                        match compile_chars(&re.source_chars()) {
                            Some(r2) => Some((r2, rep.clone())),
                            None => None,
                        }
                    },
                    None => None,
                };
                Seg::Match(MatchSpec { no: ms.no, case_conv: ms.case_conv, regex })
            },
        };
        let ghost o = segs_view(out@);
        out.push(seg);
        proof {
            assert(segs_view(out@) =~= o.push(seg_view(seg)));
            assert(segs_view(v@).subrange(0, i + 1) =~= segs_view(v@).subrange(0, i as int).push(
                seg_view(v@[i as int]),
            ));
            assert(segs_compile(out@)) by {
                assert forall|k: int| 0 <= k < out@.len() implies match #[trigger] out@[k] {
                    Seg::Match(ms) => match ms.regex {
                        Some((re, _r)) => regex_compiles(re.src()),
                        None => true,
                    },
                    _ => true,
                } by {
                    if k < i {
                        assert(out@[k] == out@.drop_last()[k]);
                    }
                }
            }
        }
        i += 1;
    }
    assert(segs_view(v@).subrange(0, i as int) =~= segs_view(v@));
    out
}

/// Compile a rule description.
fn build_grule(
    id: String,
    category_id: String,
    cap: Captured,
    antis: Vec<Captured>,
    message: Vec<MsgItem>,
    suggestions: Vec<Vec<Seg>>,
    examples: Vec<Example>,
    needs_synth: bool,
    off: bool,
) -> (r: GrammarRule)
    ensures
        grule_built(
            r,
            GRuleDesc {
                id: id@,
                category_id: category_id@,
                pattern: captured_view(cap),
                antis: caps_view(antis@),
                message: items_view(message@),
                suggestions: blocks_view(suggestions@),
                examples: examples_view(examples@),
                needs_synth,
                off,
            },
        ),
        r.unsupported@.len() == 0 ==> rule_wf(r),
{
    proof {
        reveal(grule_built);
    }
    let ghost d = GRuleDesc {
        id: id@,
        category_id: category_id@,
        pattern: captured_view(cap),
        antis: caps_view(antis@),
        message: items_view(message@),
        suggestions: blocks_view(suggestions@),
        examples: examples_view(examples@),
        needs_synth,
        off,
    };
    let parsed = parse_pattern_body(&cap.events, cap.case_sensitive);
    let mut unsupported = parsed.unsupported;
    if needs_synth {
        push_unique(&mut unsupported, "match-synth");
    }
    let mut all_wf = is_pattern_wf(&parsed.pattern);
    proof {
        crate::disambig::lemma_pattern_from_wf(parsed.pattern, captured_state(d.pattern));
    }
    let mut antipatterns: Vec<Pattern> = Vec::new();
    let mut i: usize = 0;
    while i < antis.len()
        invariant
            i <= antis@.len(),
            d.antis == caps_view(antis@),
            antipatterns@.len() == i,
            forall|a: int|
                0 <= a < i ==> pattern_from(
                    #[trigger] antipatterns@[a],
                    captured_state(d.antis[a]),
                ),
            string_views(unsupported@) == antis_notes(
                d.antis.subrange(0, i as int),
                if needs_synth {
                    note(captured_state(d.pattern).unsupported, "match-synth"@)
                } else {
                    captured_state(d.pattern).unsupported
                },
            ),
            all_wf == (state_wf(captured_state(d.pattern)) && forall|a: int|
                0 <= a < i ==> state_wf(captured_state(#[trigger] d.antis[a]))),
        decreases antis.len() - i,
    {
        let p = parse_pattern_body(&antis[i].events, antis[i].case_sensitive);
        assert(d.antis[i as int] == captured_view(antis@[i as int]));
        push_all_unique(&mut unsupported, &p.unsupported);
        assert(d.antis.subrange(0, i + 1).drop_last() =~= d.antis.subrange(0, i as int));
        proof {
            crate::disambig::lemma_pattern_from_wf(p.pattern, captured_state(d.antis[i as int]));
        }
        if !is_pattern_wf(&p.pattern) {
            all_wf = false;
        }
        antipatterns.push(p.pattern);
        i += 1;
    }
    assert(d.antis.subrange(0, antis.len() as int) =~= d.antis);
    if !all_wf {
        let ghost u2 = string_views(unsupported@);
        push_unique(&mut unsupported, "marker");
        proof {
            if !u2.contains("marker"@) {
                assert(u2.push("marker"@)[u2.len() as int] == "marker"@);
            }
        }
    }
    let ghost u3 = string_views(unsupported@);
    assert(!all_wf ==> u3.contains("marker"@));
    if off {
        push_unique(&mut unsupported, "disabled");
        proof {
            if !u3.contains("disabled"@) {
                assert(u3.push("disabled"@)[u3.len() as int] == "disabled"@);
            }
        }
    }
    proof {
        if !all_wf {
            let m = choose|k: int| 0 <= k < u3.len() && u3[k] == "marker"@;
            assert(string_views(unsupported@)[m] == "marker"@);
        }
    }
    let r = GrammarRule {
        id,
        category_id,
        pattern: parsed.pattern,
        antipatterns,
        message,
        suggestions,
        examples,
        unsupported,
    };
    proof {
        if r.unsupported@.len() == 0 {
            assert(string_views(r.unsupported@).len() == 0);
            assert(all_wf);
        }
    }
    r
}

struct GExec {
    rules: Vec<GrammarRule>,
    category_id: String,
    group_id: Option<String>,
    in_rule: bool,
    rule_id: Option<String>,
    category_off: bool,
    group_off: bool,
    rule_off: bool,
    pattern: Option<Captured>,
    antis: Vec<Captured>,
    group_antis: Vec<Captured>,
    capture: Option<Vec<XmlEvent>>,
    capture_is_anti: bool,
    capture_cs: bool,
    in_message: bool,
    message: Vec<MsgItem>,
    in_suggestion: bool,
    sugg: Vec<Seg>,
    suggestions: Vec<Vec<Seg>>,
    sugg_in_message: bool,
    needs_synth: bool,
    in_match: bool,
    has_filter: bool,
    examples: Vec<Example>,
    in_example: bool,
    ex_text: Vec<char>,
    ex_correction: Option<Vec<String>>,
    ex_marker: Option<(usize, usize)>,
    ex_marker_start: Option<usize>,
    ex_triggers_error: bool,
}

pub open spec fn caps_view(v: Seq<Captured>) -> Seq<CapturedV> {
    v.map_values(|c: Captured| captured_view(c))
}

impl GExec {
    fn new() -> (r: GExec)
        ensures
            g_rel(r, g_init()),
    {
        let r = GExec {
            rules: Vec::new(),
            category_id: String::new(),
            group_id: None,
            in_rule: false,
            rule_id: None,
            category_off: false,
            group_off: false,
            rule_off: false,
            pattern: None,
            antis: Vec::new(),
            group_antis: Vec::new(),
            capture: None,
            capture_is_anti: false,
            capture_cs: false,
            in_message: false,
            message: Vec::new(),
            in_suggestion: false,
            sugg: Vec::new(),
            suggestions: Vec::new(),
            sugg_in_message: false,
            needs_synth: false,
            in_match: false,
            has_filter: false,
            examples: Vec::new(),
            in_example: false,
            ex_text: Vec::new(),
            ex_correction: None,
            ex_marker: None,
            ex_marker_start: None,
            ex_triggers_error: false,
        };
        proof {
            reveal(rules_rel);
            reveal(ctx_rel);
            reveal(pat_rel);
            reveal(msg_rel);
            reveal(ex_rel);
            assert(caps_view(r.antis@) =~= Seq::<CapturedV>::empty());
            assert(caps_view(r.group_antis@) =~= Seq::<CapturedV>::empty());
            assert(items_view(r.message@) =~= Seq::<MsgItemV>::empty());
            assert(segs_view(r.sugg@) =~= Seq::<SegV>::empty());
            assert(blocks_view(r.suggestions@) =~= Seq::<Seq<SegV>>::empty());
            assert(examples_view(r.examples@) =~= Seq::<ExampleV>::empty());
        }
        r
    }
}

/// The rules built so far are those described, each well-formed unless
/// something in it is unsupported.
#[verifier::opaque]
spec fn rules_rel(rules: Seq<GrammarRule>, descs: Seq<GRuleDesc>) -> bool {
    &&& rules.len() == descs.len()
    &&& forall|i: int| 0 <= i < descs.len() ==> grule_built(#[trigger] rules[i], descs[i])
    &&& forall|i: int|
        0 <= i < rules.len() ==> (#[trigger] rules[i]).unsupported@.len() == 0 ==> rule_wf(
            rules[i],
        )
}

proof fn lemma_rules_push(rules: Seq<GrammarRule>, descs: Seq<GRuleDesc>, r: GrammarRule, d: GRuleDesc)
    requires
        rules_rel(rules, descs),
        grule_built(r, d),
        r.unsupported@.len() == 0 ==> rule_wf(r),
    ensures
        rules_rel(rules.push(r), descs.push(d)),
{
    reveal(rules_rel);
    assert forall|i: int| 0 <= i < descs.len() + 1 implies grule_built(
        #[trigger] rules.push(r)[i],
        descs.push(d)[i],
    ) by {
        if i < rules.len() {
            assert(rules.push(r)[i] == rules[i]);
        }
    }
    assert forall|i: int|
        0 <= i < rules.len() + 1 && (#[trigger] rules.push(r)[i]).unsupported@.len() == 0 implies rule_wf(
        rules.push(r)[i],
    ) by {
        if i < rules.len() {
            assert(rules.push(r)[i] == rules[i]);
        }
    }
}

// The reading state is related to the executable one part by part, so that a
// step that changes one part leaves the others' relations untouched.

spec fn ctx_e(e: GExec) -> (String, Option<String>, bool, Option<String>, bool, bool, bool) {
    (e.category_id, e.group_id, e.in_rule, e.rule_id, e.category_off, e.group_off, e.rule_off)
}

spec fn ctx_s(s: GState) -> (
    Seq<char>,
    Option<Seq<char>>,
    bool,
    Option<Seq<char>>,
    bool,
    bool,
    bool,
) {
    (s.category_id, s.group_id, s.in_rule, s.rule_id, s.category_off, s.group_off, s.rule_off)
}

#[verifier::opaque]
spec fn ctx_rel(
    a: (String, Option<String>, bool, Option<String>, bool, bool, bool),
    b: (Seq<char>, Option<Seq<char>>, bool, Option<Seq<char>>, bool, bool, bool),
) -> bool {
    &&& a.0@ == b.0
    &&& opt_view(a.1) == b.1
    &&& a.2 == b.2
    &&& opt_view(a.3) == b.3
    &&& a.4 == b.4
    &&& a.5 == b.5
    &&& a.6 == b.6
}

spec fn pat_e(e: GExec) -> (Option<Captured>, Seq<Captured>, Seq<Captured>, Option<Vec<XmlEvent>>, bool, bool) {
    (e.pattern, e.antis@, e.group_antis@, e.capture, e.capture_is_anti, e.capture_cs)
}

spec fn pat_s(s: GState) -> (
    Option<CapturedV>,
    Seq<CapturedV>,
    Seq<CapturedV>,
    Option<Seq<XmlEventV>>,
    bool,
    bool,
) {
    (s.pattern, s.antis, s.group_antis, s.capture, s.capture_is_anti, s.capture_cs)
}

#[verifier::opaque]
spec fn pat_rel(
    a: (Option<Captured>, Seq<Captured>, Seq<Captured>, Option<Vec<XmlEvent>>, bool, bool),
    b: (Option<CapturedV>, Seq<CapturedV>, Seq<CapturedV>, Option<Seq<XmlEventV>>, bool, bool),
) -> bool {
    &&& match a.0 {
        Some(c) => b.0 == Some(captured_view(c)),
        None => b.0 is None,
    }
    &&& caps_view(a.1) == b.1
    &&& caps_view(a.2) == b.2
    &&& opt_events_view(a.3) == b.3
    &&& a.4 == b.4
    &&& a.5 == b.5
}

spec fn msg_e(e: GExec) -> (bool, Seq<MsgItem>, bool, Seq<Seg>, Seq<Vec<Seg>>, bool, bool, bool, bool) {
    (
        e.in_message,
        e.message@,
        e.in_suggestion,
        e.sugg@,
        e.suggestions@,
        e.sugg_in_message,
        e.needs_synth,
        e.in_match,
        e.has_filter,
    )
}

spec fn msg_s(s: GState) -> (bool, Seq<MsgItemV>, bool, Seq<SegV>, Seq<Seq<SegV>>, bool, bool, bool, bool) {
    (
        s.in_message,
        s.message,
        s.in_suggestion,
        s.sugg,
        s.suggestions,
        s.sugg_in_message,
        s.needs_synth,
        s.in_match,
        s.has_filter,
    )
}

#[verifier::opaque]
spec fn msg_rel(
    a: (bool, Seq<MsgItem>, bool, Seq<Seg>, Seq<Vec<Seg>>, bool, bool, bool, bool),
    b: (bool, Seq<MsgItemV>, bool, Seq<SegV>, Seq<Seq<SegV>>, bool, bool, bool, bool),
) -> bool {
    &&& a.0 == b.0
    &&& items_view(a.1) == b.1
    &&& a.2 == b.2
    &&& segs_view(a.3) == b.3
    &&& segs_compile(a.3)
    &&& blocks_view(a.4) == b.4
    &&& a.5 == b.5
    &&& a.6 == b.6
    &&& a.7 == b.7
    &&& a.8 == b.8
}

spec fn ex_e(e: GExec) -> (
    Seq<Example>,
    bool,
    Seq<char>,
    Option<Vec<String>>,
    Option<(usize, usize)>,
    Option<usize>,
    bool,
) {
    (
        e.examples@,
        e.in_example,
        e.ex_text@,
        e.ex_correction,
        e.ex_marker,
        e.ex_marker_start,
        e.ex_triggers_error,
    )
}

spec fn ex_s(s: GState) -> (
    Seq<ExampleV>,
    bool,
    Seq<char>,
    Option<Seq<Seq<char>>>,
    Option<(int, int)>,
    Option<int>,
    bool,
) {
    (
        s.examples,
        s.in_example,
        s.ex_text,
        s.ex_correction,
        s.ex_marker,
        s.ex_marker_start,
        s.ex_triggers_error,
    )
}

#[verifier::opaque]
spec fn ex_rel(
    a: (Seq<Example>, bool, Seq<char>, Option<Vec<String>>, Option<(usize, usize)>, Option<usize>, bool),
    b: (Seq<ExampleV>, bool, Seq<char>, Option<Seq<Seq<char>>>, Option<(int, int)>, Option<int>, bool),
) -> bool {
    &&& examples_view(a.0) == b.0
    &&& a.1 == b.1
    &&& a.2 == b.2
    &&& match a.3 {
        Some(v) => b.3 == Some(string_views(v@)),
        None => b.3 is None,
    }
    &&& match a.4 {
        Some((x, y)) => b.4 == Some((x as int, y as int)),
        None => b.4 is None,
    }
    &&& match a.5 {
        Some(x) => b.5 == Some(x as int) && (a.1 ==> x <= a.2.len()),
        None => b.5 is None,
    }
    &&& a.6 == b.6
}

spec fn g_rel(e: GExec, s: GState) -> bool {
    &&& rules_rel(e.rules@, s.rules)
    &&& ctx_rel(ctx_e(e), ctx_s(s))
    &&& pat_rel(pat_e(e), pat_s(s))
    &&& msg_rel(msg_e(e), msg_s(s))
    &&& ex_rel(ex_e(e), ex_s(s))
}

fn opt_string_of(v: Option<Vec<char>>) -> (r: Option<String>)
    ensures
        opt_view(r) == match v {
            Some(c) => Some(c@),
            None => None::<Seq<char>>,
        },
{
    match v {
        Some(c) => Some(chars_to_string(&c)),
        None => None,
    }
}

fn disabled_exec(a: &Vec<(Vec<u8>, Vec<u8>)>) -> (r: bool)
    ensures
        r == disabled_spec(attrs_view(a@)),
{
    let off = match attr(a, "default") {
        Some(v) => crate::text::chars_eq(&v, &crate::text::lit("off")),
        None => false,
    };
    off || match attr(a, "tags") {
        Some(t) => crate::text::contains_chars(&t, &crate::text::lit("picky")),
        None => false,
    }
}

fn g_push_text_exec(e: GExec, txt: &Vec<char>, Ghost(s): Ghost<GState>) -> (r: GExec)
    requires
        g_rel(e, s),
    ensures
        g_rel(r, g_push_text(s, txt@)),
{
    let mut e = e;
    proof {
        reveal(msg_rel);
    }
    let segs = parse_backrefs(txt);
    if e.in_match {
    } else if e.in_suggestion {
        let mut sugg: Vec<Seg> = Vec::new();
        std::mem::swap(&mut sugg, &mut e.sugg);
        let ghost sv = segs_view(sugg@);
        let ghost s0 = sugg@;
        let mut k: usize = 0;
        while k < segs.len()
            invariant
                k <= segs@.len(),
                segs_compile(segs@),
                segs_view(sugg@) == sv + segs_view(segs@).subrange(0, k as int),
                segs_compile(sugg@),
            decreases segs.len() - k,
        {
            let one = dup_segs_one(&segs, k);
            let ghost sb = sugg@;
            sugg.push(one);
            proof {
                assert(segs_view(sugg@) =~= segs_view(sb).push(seg_view(one)));
                assert(segs_view(segs@).subrange(0, k + 1) =~= segs_view(segs@).subrange(
                    0,
                    k as int,
                ).push(seg_view(segs@[k as int])));
                assert(segs_compile(sugg@)) by {
                    assert forall|q: int| 0 <= q < sugg@.len() implies match #[trigger] sugg@[q] {
                        Seg::Match(ms) => match ms.regex {
                            Some((re, _r)) => regex_compiles(re.src()),
                            None => true,
                        },
                        _ => true,
                    } by {
                        if q < sb.len() {
                            assert(sugg@[q] == sb[q]);
                        }
                    }
                }
            }
            k += 1;
        }
        assert(segs_view(segs@).subrange(0, k as int) =~= segs_view(segs@));
        e.sugg = sugg;
    } else if e.in_message {
        let mut message: Vec<MsgItem> = Vec::new();
        std::mem::swap(&mut message, &mut e.message);
        let ghost mv = items_view(message@);
        let mut k: usize = 0;
        while k < segs.len()
            invariant
                k <= segs@.len(),
                segs_compile(segs@),
                items_view(message@) == mv + segs_as_items(segs_view(segs@).subrange(0, k as int)),
            decreases segs.len() - k,
        {
            let one = dup_segs_one(&segs, k);
            let ghost mb = items_view(message@);
            message.push(MsgItem::Seg(one));
            proof {
                assert(items_view(message@) =~= mb.push(MsgItemV::Seg(seg_view(one))));
                assert(segs_as_items(segs_view(segs@).subrange(0, k + 1)) =~= segs_as_items(
                    segs_view(segs@).subrange(0, k as int),
                ).push(MsgItemV::Seg(seg_view(segs@[k as int]))));
            }
            k += 1;
        }
        assert(segs_view(segs@).subrange(0, k as int) =~= segs_view(segs@));
        e.message = message;
    }
    e
}

/// A copy of segment `k`.
fn dup_segs_one(v: &Vec<Seg>, k: usize) -> (r: Seg)
    requires
        k < v@.len(),
        segs_compile(v@),
    ensures
        seg_view(r) == seg_view(v@[k as int]),
        match r {
            Seg::Match(ms) => match ms.regex {
                Some((re, _r)) => regex_compiles(re.src()),
                None => true,
            },
            _ => true,
        },
{
    match &v[k] {
        Seg::Text(t) => Seg::Text(t.clone()),
        Seg::Ref(n) => Seg::Ref(*n),
        Seg::Match(ms) => {
            let regex = match &ms.regex {
                Some((re, rep)) => {
                    assert(regex_compiles(re.src()));
                    match compile_chars(&re.source_chars()) {
                        Some(r2) => Some((r2, rep.clone())),
                        None => None,
                    }
                },
                None => None,
            };
            Seg::Match(MatchSpec { no: ms.no, case_conv: ms.case_conv, regex })
        },
    }
}

fn g_text_exec(e: GExec, txt: &Vec<char>, Ghost(s): Ghost<GState>) -> (r: GExec)
    requires
        g_rel(e, s),
    ensures
        g_rel(r, g_text(s, txt@)),
{
    let mut e = e;
    proof {
        reveal(g_text);
        reveal(msg_rel);
        reveal(ex_rel);
    }
    if e.in_message || e.in_suggestion || e.in_example {
        if e.in_example {
            append_chars(&mut e.ex_text, txt);
        } else {
            e = g_push_text_exec(e, txt, Ghost(s));
        }
    }
    e
}

#[verifier::rlimit(30)]
fn g_match_exec(e: GExec, a: &Vec<(Vec<u8>, Vec<u8>)>, Ghost(s): Ghost<GState>) -> (r: GExec)
    requires
        g_rel(e, s),
    ensures
        g_rel(r, g_match(s, attrs_view(a@))),
{
    let mut e = e;
    proof {
        reveal(g_match);
        reveal(msg_rel);
    }
    match parse_match_spec(a) {
        Some(ms) => {
            if e.in_suggestion {
                let ghost sb = e.sugg@;
                e.sugg.push(Seg::Match(ms));
                proof {
                    assert(segs_view(e.sugg@) =~= segs_view(sb).push(seg_view(Seg::Match(ms))));
                    assert(segs_compile(e.sugg@)) by {
                        assert forall|q: int| 0 <= q < e.sugg@.len() implies match #[trigger] e.sugg@[q] {
                            Seg::Match(ms) => match ms.regex {
                                Some((re, _r)) => regex_compiles(re.src()),
                                None => true,
                            },
                            _ => true,
                        } by {
                            if q < sb.len() {
                                assert(e.sugg@[q] == sb[q]);
                            }
                        }
                    }
                }
            } else {
                let ghost mb = items_view(e.message@);
                e.message.push(MsgItem::Seg(Seg::Match(ms)));
                assert(items_view(e.message@) =~= mb.push(
                    MsgItemV::Seg(seg_view(Seg::Match(ms))),
                ));
            }
        },
        None => {
            e.needs_synth = true;
        },
    }
    e
}

fn dup_captured(c: &Captured) -> (r: Captured)
    ensures
        captured_view(r) == captured_view(*c),
{
    let mut events: Vec<XmlEvent> = Vec::new();
    let mut i: usize = 0;
    while i < c.events.len()
        invariant
            i <= c.events@.len(),
            events_view(events@) == events_view(c.events@).subrange(0, i as int),
        decreases c.events.len() - i,
    {
        let ghost ev = events_view(events@);
        let e = crate::parse::copy_event(&c.events[i]);
        events.push(e);
        assert(events_view(events@) =~= ev.push(event_view(e)));
        assert(events_view(c.events@).subrange(0, i + 1) =~= events_view(c.events@).subrange(
            0,
            i as int,
        ).push(event_view(c.events@[i as int])));
        i += 1;
    }
    assert(events_view(c.events@).subrange(0, i as int) =~= events_view(c.events@));
    Captured { events, case_sensitive: c.case_sensitive }
}

/// Copies of the rule's antipatterns followed by those of its group.
fn joined_antis(a: &Vec<Captured>, b: &Vec<Captured>) -> (r: Vec<Captured>)
    ensures
        caps_view(r@) == caps_view(a@) + caps_view(b@),
{
    let mut out: Vec<Captured> = Vec::new();
    let mut i: usize = 0;
    while i < a.len()
        invariant
            i <= a@.len(),
            caps_view(out@) == caps_view(a@).subrange(0, i as int),
        decreases a.len() - i,
    {
        let ghost o = caps_view(out@);
        let c = dup_captured(&a[i]);
        out.push(c);
        assert(caps_view(out@) =~= o.push(captured_view(c)));
        assert(caps_view(a@).subrange(0, i + 1) =~= caps_view(a@).subrange(0, i as int).push(
            captured_view(a@[i as int]),
        ));
        i += 1;
    }
    let mut j: usize = 0;
    while j < b.len()
        invariant
            j <= b@.len(),
            caps_view(out@) == caps_view(a@) + caps_view(b@).subrange(0, j as int),
        decreases b.len() - j,
    {
        let ghost o = caps_view(out@);
        let c = dup_captured(&b[j]);
        out.push(c);
        assert(caps_view(out@) =~= o.push(captured_view(c)));
        assert(caps_view(b@).subrange(0, j + 1) =~= caps_view(b@).subrange(0, j as int).push(
            captured_view(b@[j as int]),
        ));
        j += 1;
    }
    assert(caps_view(a@).subrange(0, a.len() as int) =~= caps_view(a@));
    assert(caps_view(b@).subrange(0, j as int) =~= caps_view(b@));
    out
}

fn strings_of(v: Vec<Vec<char>>) -> (r: Vec<String>)
    ensures
        string_views(r@) == v@.map_values(|c: Vec<char>| c@),
{
    let mut out: Vec<String> = Vec::new();
    let mut i: usize = 0;
    while i < v.len()
        invariant
            i <= v@.len(),
            string_views(out@) == v@.map_values(|c: Vec<char>| c@).subrange(0, i as int),
        decreases v.len() - i,
    {
        let ghost o = string_views(out@);
        let st = chars_to_string(&v[i]);
        out.push(st);
        assert(string_views(out@) =~= o.push(st@));
        assert(v@.map_values(|c: Vec<char>| c@).subrange(0, i + 1) =~= v@.map_values(
            |c: Vec<char>| c@,
        ).subrange(0, i as int).push(v@[i as int]@));
        i += 1;
    }
    assert(v@.map_values(|c: Vec<char>| c@).subrange(0, i as int) =~= v@.map_values(
        |c: Vec<char>| c@,
    ));
    out
}

fn g_open_rule_exec(e: GExec, a: &Vec<(Vec<u8>, Vec<u8>)>, Ghost(s): Ghost<GState>) -> (r: GExec)
    requires
        g_rel(e, s),
    ensures
        g_rel(r, g_open_rule(s, attrs_view(a@))),
{
    let mut e = e;
    proof {
        reveal(g_open_rule);
        reveal(ctx_rel);
        reveal(pat_rel);
        reveal(msg_rel);
    }
    let off_by_default = match attr(a, "default") {
        Some(d) => if crate::text::chars_eq(&d, &crate::text::lit("on")) {
            false
        } else if crate::text::chars_eq(&d, &crate::text::lit("off")) {
            true
        } else {
            e.group_off || e.category_off
        },
        None => e.group_off || e.category_off,
    };
    let picky = match attr(a, "tags") {
        Some(t) => crate::text::contains_chars(&t, &crate::text::lit("picky")),
        None => false,
    };
    e.in_rule = true;
    e.rule_id = opt_string_of(attr(a, "id"));
    e.rule_off = off_by_default || picky;
    e.pattern = None;
    e.antis = Vec::new();
    e.message = Vec::new();
    e.suggestions = Vec::new();
    e.needs_synth = false;
    e.has_filter = false;
    assert(caps_view(e.antis@) =~= Seq::<CapturedV>::empty());
    assert(items_view(e.message@) =~= Seq::<MsgItemV>::empty());
    assert(blocks_view(e.suggestions@) =~= Seq::<Seq<SegV>>::empty());
    e
}

fn g_open_example_exec(e: GExec, a: &Vec<(Vec<u8>, Vec<u8>)>, Ghost(s): Ghost<GState>) -> (r: GExec)
    requires
        g_rel(e, s),
    ensures
        g_rel(r, g_open_example(s, attrs_view(a@))),
{
    let mut e = e;
    proof {
        reveal(g_open_example);
        reveal(ex_rel);
    }
    e.in_example = true;
    e.ex_text = Vec::new();
    e.ex_marker = None;
    e.ex_marker_start = None;
    e.ex_triggers_error = match attr(a, "type") {
        Some(t) => crate::text::chars_eq(&t, &crate::text::lit("triggers_error")),
        None => false,
    };
    e.ex_correction = correction_of(a);
    e
}

/// The corrections an example's `correction` attribute lists, `|` apart.
fn correction_of(a: &Vec<(Vec<u8>, Vec<u8>)>) -> (r: Option<Vec<String>>)
    ensures
        match r {
            Some(v) => correction_spec(attrs_view(a@)) == Some(string_views(v@)),
            None => correction_spec(attrs_view(a@)) is None,
        },
{
    match attr(a, "correction") {
        Some(c) => {
            let u = match crate::xml::unescape_chars(&c) {
                Some(u) => u,
                None => c,
            };
            Some(strings_of(crate::text::split_chars(&u, '|')))
        },
        None => None,
    }
}

fn g_open_category_exec(e: GExec, a: &Vec<(Vec<u8>, Vec<u8>)>, Ghost(s): Ghost<GState>) -> (r: GExec)
    requires
        g_rel(e, s),
    ensures
        g_rel(r, g_open_category(s, attrs_view(a@))),
{
    let mut e = e;
    proof {
        reveal(g_open_category);
        reveal(ctx_rel);
    }
    e.category_id = match attr(a, "id") {
        Some(v) => chars_to_string(&v),
        None => String::new(),
    };
    e.category_off = disabled_exec(a);
    e
}

fn g_open_group_exec(e: GExec, a: &Vec<(Vec<u8>, Vec<u8>)>, Ghost(s): Ghost<GState>) -> (r: GExec)
    requires
        g_rel(e, s),
    ensures
        g_rel(r, g_open_group(s, attrs_view(a@))),
{
    let mut e = e;
    proof {
        reveal(g_open_group);
        reveal(ctx_rel);
        reveal(pat_rel);
    }
    e.group_id = opt_string_of(attr(a, "id"));
    e.group_antis = Vec::new();
    assert(caps_view(e.group_antis@) =~= Seq::<CapturedV>::empty());
    e.group_off = disabled_exec(a);
    e
}

fn g_open_capture_exec(
    e: GExec,
    anti: bool,
    a: &Vec<(Vec<u8>, Vec<u8>)>,
    Ghost(s): Ghost<GState>,
) -> (r: GExec)
    requires
        g_rel(e, s),
    ensures
        g_rel(r, g_open_capture(s, anti, attrs_view(a@))),
{
    let mut e = e;
    proof {
        reveal(g_open_capture);
        reveal(pat_rel);
    }
    e.capture_is_anti = anti;
    e.capture_cs = crate::xml::attr_is_yes(a, "case_sensitive");
    e.capture = Some(Vec::new());
    assert(opt_events_view(e.capture) == Some(Seq::<XmlEventV>::empty()));
    e
}

fn g_open_message_exec(e: GExec, Ghost(s): Ghost<GState>) -> (r: GExec)
    requires
        g_rel(e, s),
    ensures
        g_rel(r, g_open_message(s)),
{
    let mut e = e;
    proof {
        reveal(g_open_message);
        reveal(msg_rel);
    }
    e.in_message = true;
    e.message = Vec::new();
    assert(items_view(e.message@) =~= Seq::<MsgItemV>::empty());
    e
}

fn g_open_suggestion_exec(e: GExec, Ghost(s): Ghost<GState>) -> (r: GExec)
    requires
        g_rel(e, s),
    ensures
        g_rel(r, g_open_suggestion(s)),
{
    let mut e = e;
    proof {
        reveal(g_open_suggestion);
        reveal(msg_rel);
    }
    e.in_suggestion = true;
    e.sugg = Vec::new();
    assert(segs_view(e.sugg@) =~= Seq::<SegV>::empty());
    e.sugg_in_message = e.in_message;
    e
}

fn g_open_match_exec(e: GExec, a: &Vec<(Vec<u8>, Vec<u8>)>, Ghost(s): Ghost<GState>) -> (r: GExec)
    requires
        g_rel(e, s),
    ensures
        g_rel(r, g_open_match(s, attrs_view(a@))),
{
    let mut e = e;
    proof {
        reveal(g_open_match);
        reveal(msg_rel);
    }
    e = g_match_exec(e, a, Ghost(s));
    e.in_match = true;
    e
}

fn g_filter_exec(e: GExec, Ghost(s): Ghost<GState>) -> (r: GExec)
    requires
        g_rel(e, s),
    ensures
        g_rel(r, g_filter(s)),
{
    let mut e = e;
    proof {
        reveal(g_filter);
        reveal(msg_rel);
    }
    e.has_filter = true;
    e
}

fn g_open_marker_exec(e: GExec, Ghost(s): Ghost<GState>) -> (r: GExec)
    requires
        g_rel(e, s),
    ensures
        g_rel(r, g_open_marker(s)),
{
    let mut e = e;
    proof {
        reveal(g_open_marker);
        reveal(ex_rel);
    }
    e.ex_marker_start = Some(e.ex_text.len());
    e
}

/// The flags that decide which step an event is.
proof fn lemma_g_flags(e: GExec, s: GState)
    requires
        g_rel(e, s),
    ensures
        e.in_rule == s.in_rule,
        (e.group_id is Some) == (s.group_id is Some),
        (e.capture is Some) == (s.capture is Some),
        e.in_message == s.in_message,
        e.in_suggestion == s.in_suggestion,
        e.in_example == s.in_example,
        opt_events_view(e.capture) == s.capture,
{
    reveal(ctx_rel);
    reveal(pat_rel);
    reveal(msg_rel);
    reveal(ex_rel);
}

fn g_start_exec(
    e: GExec,
    n: &Vec<u8>,
    a: &Vec<(Vec<u8>, Vec<u8>)>,
    Ghost(s): Ghost<GState>,
) -> (r: GExec)
    requires
        g_rel(e, s),
    ensures
        g_rel(r, g_start(s, n@, attrs_view(a@))),
{
    let mut e = e;
    proof {
        reveal(g_start);
        lemma_g_flags(e, s);
    }
    if tag_is(n, "category") {
        e = g_open_category_exec(e, a, Ghost(s));
    } else if tag_is(n, "rulegroup") {
        e = g_open_group_exec(e, a, Ghost(s));
    } else if tag_is(n, "rule") {
        e = g_open_rule_exec(e, a, Ghost(s));
    } else if (tag_is(n, "pattern") || tag_is(n, "antipattern")) && (e.in_rule
        || e.group_id.is_some()) {
        let anti = tag_is(n, "antipattern");
        e = g_open_capture_exec(e, anti, a, Ghost(s));
    } else if tag_is(n, "message") && e.in_rule {
        e = g_open_message_exec(e, Ghost(s));
    } else if tag_is(n, "suggestion") && e.in_rule {
        e = g_open_suggestion_exec(e, Ghost(s));
    } else if tag_is(n, "match") && (e.in_suggestion || e.in_message) {
        e = g_open_match_exec(e, a, Ghost(s));
    } else if tag_is(n, "filter") && e.in_rule {
        e = g_filter_exec(e, Ghost(s));
    } else if tag_is(n, "example") && e.in_rule {
        e = g_open_example_exec(e, a, Ghost(s));
    } else if tag_is(n, "marker") && e.in_example {
        e = g_open_marker_exec(e, Ghost(s));
    }
    e
}

#[verifier::spinoff_prover]
#[verifier::rlimit(50)]
fn g_close_capture_exec(e: GExec, Ghost(s): Ghost<GState>) -> (r: GExec)
    requires
        g_rel(e, s),
        e.capture is Some,
    ensures
        g_rel(r, g_close_capture(s)),
{
    let mut e = e;
    proof {
        reveal(g_close_capture);
        reveal(pat_rel);
        lemma_g_flags(e, s);
    }
    let evs = e.capture.take().unwrap();
    let cap = Captured { events: evs, case_sensitive: e.capture_cs };
    if e.capture_is_anti {
        if e.in_rule {
            let ghost av = caps_view(e.antis@);
            e.antis.push(cap);
            assert(caps_view(e.antis@) =~= av.push(captured_view(cap)));
        } else {
            let ghost av = caps_view(e.group_antis@);
            e.group_antis.push(cap);
            assert(caps_view(e.group_antis@) =~= av.push(captured_view(cap)));
        }
    } else {
        e.pattern = Some(cap);
    }
    e
}

fn g_close_suggestion_exec(e: GExec, Ghost(s): Ghost<GState>) -> (r: GExec)
    requires
        g_rel(e, s),
    ensures
        g_rel(r, g_close_suggestion(s)),
{
    let mut e = e;
    proof {
        reveal(g_close_suggestion);
        reveal(msg_rel);
    }
    e.in_suggestion = false;
    let mut block: Vec<Seg> = Vec::new();
    std::mem::swap(&mut block, &mut e.sugg);
    assert(segs_view(e.sugg@) =~= Seq::<SegV>::empty());
    if e.sugg_in_message {
        let copy = dup_segs(&block);
        let ghost mb = items_view(e.message@);
        e.message.push(MsgItem::Suggestion(copy));
        assert(items_view(e.message@) =~= mb.push(MsgItemV::Suggestion(segs_view(block@))));
    }
    let ghost bb = blocks_view(e.suggestions@);
    let ghost blv = segs_view(block@);
    e.suggestions.push(block);
    assert(blocks_view(e.suggestions@) =~= bb.push(blv));
    assert(segs_compile(e.sugg@));
    e
}

fn g_close_example_exec(e: GExec, Ghost(s): Ghost<GState>) -> (r: GExec)
    requires
        g_rel(e, s),
    ensures
        g_rel(r, g_close_example(s)),
{
    let mut e = e;
    proof {
        reveal(g_close_example);
        reveal(ex_rel);
    }
    e.in_example = false;
    let mut text: Vec<char> = Vec::new();
    std::mem::swap(&mut text, &mut e.ex_text);
    let ex = Example {
        text: chars_to_string(&text),
        marker: e.ex_marker.take(),
        correction: e.ex_correction.take(),
        triggers_error: e.ex_triggers_error,
    };
    e.ex_triggers_error = false;
    let ghost xv = examples_view(e.examples@);
    e.examples.push(ex);
    assert(examples_view(e.examples@) =~= xv.push(example_view(ex)));
    e
}

/// What `</rule>` reads from the state, in plain terms.
proof fn lemma_g_rule_facts(e: GExec, s: GState)
    requires
        g_rel(e, s),
    ensures
        opt_view(e.rule_id) == s.rule_id,
        opt_view(e.group_id) == s.group_id,
        e.category_id@ == s.category_id,
        e.rule_off == s.rule_off,
        match e.pattern {
            Some(c) => s.pattern == Some(captured_view(c)),
            None => s.pattern is None,
        },
        caps_view(e.antis@) == s.antis,
        caps_view(e.group_antis@) == s.group_antis,
        items_view(e.message@) == s.message,
        blocks_view(e.suggestions@) == s.suggestions,
        e.needs_synth == s.needs_synth,
        e.has_filter == s.has_filter,
        examples_view(e.examples@) == s.examples,
{
    reveal(ctx_rel);
    reveal(pat_rel);
    reveal(msg_rel);
    reveal(ex_rel);
}

/// The state after `</rule>`, once the rules are related.
proof fn lemma_close_rule_rel(e0: GExec, s: GState, e: GExec)
    requires
        g_rel(e0, s),
        rules_rel(e.rules@, g_close_rule(s).rules),
        e.message@.len() == 0,
        e.suggestions@.len() == 0,
        e.examples@.len() == 0,
        e == (GExec {
            rules: e.rules,
            pattern: None,
            message: e.message,
            suggestions: e.suggestions,
            examples: e.examples,
            in_rule: false,
            rule_id: None,
            ..e0
        }),
    ensures
        g_rel(e, g_close_rule(s)),
{
    reveal(g_close_rule);
    reveal(ctx_rel);
    reveal(pat_rel);
    reveal(msg_rel);
    reveal(ex_rel);
    assert(items_view(e.message@) =~= Seq::<MsgItemV>::empty());
    assert(blocks_view(e.suggestions@) =~= Seq::<Seq<SegV>>::empty());
    assert(examples_view(e.examples@) =~= Seq::<ExampleV>::empty());
}

/// The rule described by `d`, built from its parts.
fn g_rule_of(
    id: String,
    category_id: String,
    cap: Captured,
    antis: &Vec<Captured>,
    group_antis: &Vec<Captured>,
    message: Vec<MsgItem>,
    suggestions: Vec<Vec<Seg>>,
    examples: Vec<Example>,
    needs_synth: bool,
    off: bool,
    Ghost(d): Ghost<GRuleDesc>,
) -> (r: GrammarRule)
    requires
        d.id == id@,
        d.category_id == category_id@,
        d.pattern == captured_view(cap),
        d.antis == caps_view(antis@) + caps_view(group_antis@),
        d.message == items_view(message@),
        d.suggestions == blocks_view(suggestions@),
        d.examples == examples_view(examples@),
        d.needs_synth == needs_synth,
        d.off == off,
    ensures
        grule_built(r, d),
        r.unsupported@.len() == 0 ==> rule_wf(r),
{
    let all = joined_antis(antis, group_antis);
    build_grule(id, category_id, cap, all, message, suggestions, examples, needs_synth, off)
}

/// The rules read so far, with the rule that `</rule>` closes when it has a
/// pattern.
fn g_add_rule(
    rules: Vec<GrammarRule>,
    id: String,
    category_id: String,
    pattern: Option<Captured>,
    antis: &Vec<Captured>,
    group_antis: &Vec<Captured>,
    message: Vec<MsgItem>,
    suggestions: Vec<Vec<Seg>>,
    examples: Vec<Example>,
    needs_synth: bool,
    off: bool,
    Ghost(s): Ghost<GState>,
) -> (r: Vec<GrammarRule>)
    requires
        rules_rel(rules@, s.rules),
        id@ == g_rule_id(s),
        category_id@ == s.category_id,
        match pattern {
            Some(c) => s.pattern == Some(captured_view(c)),
            None => s.pattern is None,
        },
        caps_view(antis@) == s.antis,
        caps_view(group_antis@) == s.group_antis,
        items_view(message@) == s.message,
        blocks_view(suggestions@) == s.suggestions,
        examples_view(examples@) == s.examples,
        needs_synth == (s.needs_synth || s.has_filter),
        off == s.rule_off,
    ensures
        rules_rel(r@, g_close_rule(s).rules),
{
    proof {
        reveal(g_close_rule);
    }
    let mut rules = rules;
    match pattern {
        Some(cap) => {
            let ghost d = g_rule_desc(s, captured_view(cap));
            let r = g_rule_of(
                id,
                category_id,
                cap,
                antis,
                group_antis,
                message,
                suggestions,
                examples,
                needs_synth,
                off,
                Ghost(d),
            );
            proof {
                lemma_rules_push(rules@, s.rules, r, d);
            }
            rules.push(r);
        },
        None => {},
    }
    rules
}

fn g_close_rule_exec(e: GExec, Ghost(s): Ghost<GState>) -> (r: GExec)
    requires
        g_rel(e, s),
    ensures
        g_rel(r, g_close_rule(s)),
{
    proof {
        lemma_g_rule_facts(e, s);
    }
    let ghost e0 = e;
    let GExec {
        rules,
        category_id,
        group_id,
        in_rule: _,
        rule_id,
        category_off,
        group_off,
        rule_off,
        pattern,
        antis,
        group_antis,
        capture,
        capture_is_anti,
        capture_cs,
        in_message,
        message,
        in_suggestion,
        sugg,
        suggestions,
        sugg_in_message,
        needs_synth,
        in_match,
        has_filter,
        examples,
        in_example,
        ex_text,
        ex_correction,
        ex_marker,
        ex_marker_start,
        ex_triggers_error,
    } = e;
    let id = match &rule_id {
        Some(i) => i.clone(),
        None => match &group_id {
            Some(g) => g.clone(),
            None => String::new(),
        },
    };
    let category = category_id.clone();
    let rules = g_add_rule(
        rules,
        id,
        category,
        pattern,
        &antis,
        &group_antis,
        message,
        suggestions,
        examples,
        needs_synth || has_filter,
        rule_off,
        Ghost(s),
    );
    let r = GExec {
        rules,
        category_id,
        group_id,
        in_rule: false,
        rule_id: None,
        category_off,
        group_off,
        rule_off,
        pattern: None,
        antis,
        group_antis,
        capture,
        capture_is_anti,
        capture_cs,
        in_message,
        message: Vec::new(),
        in_suggestion,
        sugg,
        suggestions: Vec::new(),
        sugg_in_message,
        needs_synth,
        in_match,
        has_filter,
        examples: Vec::new(),
        in_example,
        ex_text,
        ex_correction,
        ex_marker,
        ex_marker_start,
        ex_triggers_error,
    };
    proof {
        lemma_close_rule_rel(e0, s, r);
    }
    r
}

fn g_close_match_exec(e: GExec, Ghost(s): Ghost<GState>) -> (r: GExec)
    requires
        g_rel(e, s),
    ensures
        g_rel(r, g_close_match(s)),
{
    let mut e = e;
    proof {
        reveal(g_close_match);
        reveal(msg_rel);
    }
    e.in_match = false;
    e
}

fn g_close_message_exec(e: GExec, Ghost(s): Ghost<GState>) -> (r: GExec)
    requires
        g_rel(e, s),
    ensures
        g_rel(r, g_close_message(s)),
{
    let mut e = e;
    proof {
        reveal(g_close_message);
        reveal(msg_rel);
    }
    e.in_message = false;
    e
}

fn g_close_marker_exec(e: GExec, Ghost(s): Ghost<GState>) -> (r: GExec)
    requires
        g_rel(e, s),
        s.in_example,
    ensures
        g_rel(r, g_close_marker(s)),
{
    proof {
        reveal(g_close_marker);
        reveal(ex_rel);
    }
    let mut e = e;
    match e.ex_marker_start {
        Some(st) => {
            e.ex_marker_start = None;
            e.ex_marker = Some((st, e.ex_text.len() - st));
        },
        None => {},
    }
    e
}

fn g_close_group_exec(e: GExec, Ghost(s): Ghost<GState>) -> (r: GExec)
    requires
        g_rel(e, s),
    ensures
        g_rel(r, g_close_group(s)),
{
    let mut e = e;
    proof {
        reveal(g_close_group);
        reveal(ctx_rel);
    }
    e.group_id = None;
    e.group_off = false;
    e
}

fn g_end_exec(e: GExec, n: &Vec<u8>, Ghost(s): Ghost<GState>) -> (r: GExec)
    requires
        g_rel(e, s),
    ensures
        g_rel(r, g_end(s, n@)),
{
    let mut e = e;
    proof {
        reveal(g_end);
        lemma_g_flags(e, s);
    }
    if (tag_is(n, "pattern") || tag_is(n, "antipattern")) && e.capture.is_some() {
        e = g_close_capture_exec(e, Ghost(s));
    } else if tag_is(n, "match") {
        e = g_close_match_exec(e, Ghost(s));
    } else if tag_is(n, "suggestion") && e.in_suggestion {
        e = g_close_suggestion_exec(e, Ghost(s));
    } else if tag_is(n, "message") {
        e = g_close_message_exec(e, Ghost(s));
    } else if tag_is(n, "marker") && e.in_example {
        e = g_close_marker_exec(e, Ghost(s));
    } else if tag_is(n, "example") && e.in_example {
        e = g_close_example_exec(e, Ghost(s));
    } else if tag_is(n, "rule") && e.in_rule {
        e = g_close_rule_exec(e, Ghost(s));
    } else if tag_is(n, "rulegroup") {
        e = g_close_group_exec(e, Ghost(s));
    }
    e
}

/// Replacing only the capture keeps every part but the capture's related.
proof fn lemma_rel_capture(e0: GExec, s: GState, e: GExec)
    requires
        g_rel(e0, s),
        e == (GExec { capture: e.capture, ..e0 }),
    ensures
        g_rel(e, GState { capture: opt_events_view(e.capture), ..s }),
{
    reveal(pat_rel);
    let s1 = GState { capture: opt_events_view(e.capture), ..s };
    assert(ctx_e(e) == ctx_e(e0) && ctx_s(s1) == ctx_s(s));
    assert(msg_e(e) == msg_e(e0) && msg_s(s1) == msg_s(s));
    assert(ex_e(e) == ex_e(e0) && ex_s(s1) == ex_s(s));
}

/// Records the event in the capture under way, if any.
#[verifier::spinoff_prover]
fn g_mirror_exec(e: GExec, ev: &XmlEvent, Ghost(s): Ghost<GState>) -> (r: GExec)
    requires
        g_rel(e, s),
    ensures
        g_rel(r, GState { capture: mirror(s.capture, event_view(*ev)), ..s }),
{
    proof {
        lemma_g_flags(e, s);
    }
    let ghost e0 = e;
    let mut e = e;
    let mut cap: Option<Vec<XmlEvent>> = None;
    std::mem::swap(&mut cap, &mut e.capture);
    mirror_exec(&mut cap, ev);
    e.capture = cap;
    proof {
        lemma_rel_capture(e0, s, e);
    }
    e
}

fn g_step_exec(e: GExec, ev: &XmlEvent, Ghost(s): Ghost<GState>) -> (r: GExec)
    requires
        g_rel(e, s),
    ensures
        g_rel(r, g_step(s, event_view(*ev))),
{
    let e = g_mirror_exec(e, ev, Ghost(s));
    let ghost s1 = GState { capture: mirror(s.capture, event_view(*ev)), ..s };
    assert(g_step(s, event_view(*ev)) == g_handle(s1, event_view(*ev)));
    g_dispatch_exec(e, ev, Ghost(s1))
}

fn g_dispatch_exec(e: GExec, ev: &XmlEvent, Ghost(s): Ghost<GState>) -> (r: GExec)
    requires
        g_rel(e, s),
    ensures
        g_rel(r, g_handle(s, event_view(*ev))),
{
    match ev {
        XmlEvent::Start(n, a) => g_start_exec(e, n, a, Ghost(s)),
        XmlEvent::End(n) => g_end_exec(e, n, Ghost(s)),
        _ => g_leaf_exec(e, ev, Ghost(s)),
    }
}

/// An empty element, text, a reference, or anything else.
fn g_leaf_exec(e: GExec, ev: &XmlEvent, Ghost(s): Ghost<GState>) -> (r: GExec)
    requires
        g_rel(e, s),
        !(ev is Start),
        !(ev is End),
    ensures
        g_rel(r, g_handle(s, event_view(*ev))),
{
    let mut e = e;
    proof {
        lemma_g_flags(e, s);
    }
    match ev {
        XmlEvent::Empty(n, a) => {
            if tag_is(n, "match") && (e.in_suggestion || e.in_message) {
                e = g_match_exec(e, a, Ghost(s));
            } else if tag_is(n, "filter") && e.in_rule {
                e = g_filter_exec(e, Ghost(s));
            }
        },
        XmlEvent::Text(raw) => {
            let txt = text_chars(raw);
            e = g_text_exec(e, &txt, Ghost(s));
        },
        XmlEvent::Ref(name, ch) => {
            if let Some(txt) = ref_chars(name, *ch) {
                e = g_text_exec(e, &txt, Ghost(s));
            }
        },
        _ => {},
    }
    e
}

/// Reads a grammar rule file.  Fails, with the reader's message, where the
/// XML is malformed; otherwise each rule that has a pattern is compiled, in
/// file order, as [`g_run`] describes.
pub fn parse_grammar_rules(xml: &str) -> (r: Result<Vec<GrammarRule>, String>)
    ensures
        match r {
            Err(e) => xml_error_text(xml_events(xml@).1) == Some(e@),
            Ok(rules) => xml_events(xml@).1 is None && {
                let st = g_run(xml_events(xml@).0, xml_events(xml@).0.len() as int);
                &&& rules@.len() == st.rules.len()
                &&& forall|i: int|
                    0 <= i < st.rules.len() ==> grule_built(#[trigger] rules@[i], st.rules[i])
            },
        },
        match r {
            Ok(rules) => forall|i: int|
                0 <= i < rules@.len() ==> (#[trigger] rules@[i]).unsupported@.len() == 0
                    ==> rule_wf(rules@[i]),
            Err(_) => true,
        },
{
    let (events, err) = read_events(xml);
    let ghost evs = events_view(events@);
    let mut e = GExec::new();
    let mut i: usize = 0;
    while i < events.len()
        invariant
            i <= events@.len(),
            evs == events_view(events@),
            g_rel(e, g_run(evs, i as int)),
        decreases events.len() - i,
    {
        e = g_step_exec(e, &events[i], Ghost(g_run(evs, i as int)));
        i += 1;
    }
    proof {
        reveal(rules_rel);
    }
    match error_text(&err) {
        Some(msg) => Err(msg),
        None => Ok(e.rules),
    }
}

} // verus!
