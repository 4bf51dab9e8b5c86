//! Disambiguation rules: a `<pattern>` (with `<antipattern>`s) and a
//! `<disambig>` action on the marked tokens — `replace`, `add`, `remove`,
//! `filter`, `filterall`, or one of the actions that leave the readings as they
//! are (`unify`, `ignore_spelling`, `immunize`). Rules run in document order;
//! each rule scans the sentence left to right and acts at every
//! non-overlapping match that no antipattern match overlaps.

use vstd::prelude::*;
use crate::analyzed::{
    copy_opt, copy_string, reading_view, reading_views, sentence_view, token_view, AnalyzedToken,
    AnalyzedTokenReadings, ReadingV, TokenV,
};
use crate::pattern::{
    antipattern_coverage, covered, lemma_first_match, pattern_wf, pm_view, spec_first_match,
    spec_match_view, Pattern, PatternMatch, PatternMatchV,
};
use crate::regex::{opt_view, regex_compiles, regex_is_match};
use crate::text::{chars_eq, lit, str_chars, string_chars};
use crate::token::{
    full_pos_regex, pm_matches, tm_keeps_reading, PosMatcher, TokenMatcher,
};
use crate::parse::{
    captured_state, captured_view, is_pattern_wf, mirror, mirror_exec, note_all, opt_events_view,
    parse_pattern_body, pattern_from, push_all_unique, state_wf, Captured, CapturedV, PPState,
};
use crate::xml::{
    attr, attr_spec, attrs_view, event_view, events_view, is_tag, note, push_unique, read_events,
    string_views, tag_is, xml_events, xml_error_text, error_text, XmlEvent, XmlEventV,
};

verus! {

#[derive(Debug, Clone, Copy, PartialEq, Eq, Structural)]
pub enum Action {
    Replace,
    Add,
    Remove,
    Filter,
    Filterall,
    Unify,
    IgnoreSpelling,
    Immunize,
}

/// The action named by a `<disambig action="...">` attribute (`replace` when
/// absent or unknown).
pub open spec fn spec_action(s: Option<Seq<char>>) -> Action {
    match s {
        None => Action::Replace,
        Some(v) => if v == "add"@ {
            Action::Add
        } else if v == "remove"@ {
            Action::Remove
        } else if v == "filter"@ {
            Action::Filter
        } else if v == "filterall"@ {
            Action::Filterall
        } else if v == "unify"@ {
            Action::Unify
        } else if v == "ignore_spelling"@ {
            Action::IgnoreSpelling
        } else if v == "immunize"@ {
            Action::Immunize
        } else {
            Action::Replace
        },
    }
}

impl Action {
    /// The action named by an `action` attribute.
    pub fn parse(s: Option<&str>) -> (r: Action)
        ensures
            r == spec_action(crate::analyzed::opt_str_view(s)),
    {
        match s {
            None => Action::Replace,
            Some(v) => {
                let c = str_chars(v);
                if chars_eq(&c, &lit("add")) {
                    Action::Add
                } else if chars_eq(&c, &lit("remove")) {
                    Action::Remove
                } else if chars_eq(&c, &lit("filter")) {
                    Action::Filter
                } else if chars_eq(&c, &lit("filterall")) {
                    Action::Filterall
                } else if chars_eq(&c, &lit("unify")) {
                    Action::Unify
                } else if chars_eq(&c, &lit("ignore_spelling")) {
                    Action::IgnoreSpelling
                } else if chars_eq(&c, &lit("immunize")) {
                    Action::Immunize
                } else {
                    Action::Replace
                }
            },
        }
    }
}

/// A `<wd>` reading of a `<disambig>` body.
#[derive(Debug)]
pub struct Wd {
    pub lemma: Option<String>,
    pub pos: Option<String>,
}

pub struct DisambigRule {
    pub id: String,
    pub pattern: Pattern,
    pub antipatterns: Vec<Pattern>,
    pub action: Action,
    /// The `<wd>` readings, position by position over the marker.
    pub wds: Vec<Wd>,
    /// A bare `<disambig postag="...">`.
    pub disambig_postag: Option<String>,
    /// Features the rule uses that are not run; such a rule is skipped.
    pub unsupported: Vec<String>,
}

/// The patterns of a rule can be matched.
pub open spec fn drule_wf(r: DisambigRule) -> bool {
    pattern_wf(r.pattern) && forall|a: int|
        0 <= a < r.antipatterns@.len() ==> pattern_wf(#[trigger] r.antipatterns@[a])
}

// ---------------------------------------------------------------------------
// Readings
// ---------------------------------------------------------------------------

/// The reading a `<wd>` gives a token; an absent or empty lemma is the surface.
pub open spec fn wd_reading(tok: TokenV, wd: Wd) -> ReadingV {
    ReadingV {
        token: tok.token,
        lemma: Some(
            match opt_view(wd.lemma) {
                Some(l) => if l.len() > 0 {
                    l
                } else {
                    tok.token
                },
                None => tok.token,
            },
        ),
        pos: opt_view(wd.pos),
    }
}

/// A reading agrees with a `<wd>` (an absent attribute agrees with anything).
pub open spec fn wd_matches(wd: Wd, r: ReadingV) -> bool {
    (match opt_view(wd.lemma) {
        Some(l) => r.lemma == Some(l),
        None => true,
    }) && (match opt_view(wd.pos) {
        Some(p) => r.pos == Some(p),
        None => true,
    })
}

/// `addReading`: a lone untagged reading is dropped before the new one is added.
pub open spec fn add_reading_spec(rs: Seq<ReadingV>, r: ReadingV) -> Seq<ReadingV> {
    (if rs.len() == 1 && rs[0].pos is None {
        Seq::empty()
    } else {
        rs
    }).push(r)
}

pub open spec fn add_wds(rs: Seq<ReadingV>, tok: TokenV, wds: Seq<Wd>) -> Seq<ReadingV>
    decreases wds.len(),
{
    if wds.len() == 0 {
        rs
    } else {
        add_reading_spec(add_wds(rs, tok, wds.drop_last()), wd_reading(tok, wds.last()))
    }
}

/// The readings that agree (`want`) or disagree with a `<wd>`.
pub open spec fn keep_wd(rs: Seq<ReadingV>, wd: Wd, want: bool) -> Seq<ReadingV>
    decreases rs.len(),
{
    if rs.len() == 0 {
        rs
    } else {
        let k = keep_wd(rs.drop_last(), wd, want);
        if wd_matches(wd, rs.last()) == want {
            k.push(rs.last())
        } else {
            k
        }
    }
}

/// Each `<wd>` in turn removes the readings that agree with it.
pub open spec fn remove_wds(rs: Seq<ReadingV>, wds: Seq<Wd>) -> Seq<ReadingV>
    decreases wds.len(),
{
    if wds.len() == 0 {
        rs
    } else {
        keep_wd(remove_wds(rs, wds.drop_last()), wds.last(), false)
    }
}

/// A POS tag accepted by the `postag` regex of a bare `<disambig>` (an
/// expression that does not compile is replaced by one that matches nothing).
pub open spec fn postag_matches(p: Seq<char>, r: ReadingV) -> bool {
    if p == "UNKNOWN"@ {
        r.pos is None
    } else if regex_compiles(full_pos_regex(p)) {
        r.pos matches Some(tp) && regex_is_match(full_pos_regex(p), tp) == Some(true)
    } else if regex_compiles(full_pos_regex("(?!x)x"@)) {
        r.pos matches Some(tp) && regex_is_match(full_pos_regex("(?!x)x"@), tp) == Some(true)
    } else {
        r.pos == Some(Seq::<char>::empty())
    }
}

/// The readings whose tag the postag accepts (`want`) or rejects.
pub open spec fn keep_pos(rs: Seq<ReadingV>, p: Seq<char>, want: bool) -> Seq<ReadingV>
    decreases rs.len(),
{
    if rs.len() == 0 {
        rs
    } else {
        let k = keep_pos(rs.drop_last(), p, want);
        if postag_matches(p, rs.last()) == want {
            k.push(rs.last())
        } else {
            k
        }
    }
}

/// The readings a pattern token keeps.
pub open spec fn keep_tm(rs: Seq<ReadingV>, tm: TokenMatcher, ws: bool) -> Seq<ReadingV>
    decreases rs.len(),
{
    if rs.len() == 0 {
        rs
    } else {
        let k = keep_tm(rs.drop_last(), tm, ws);
        if tm_keeps_reading(tm, rs.last(), ws) {
            k.push(rs.last())
        } else {
            k
        }
    }
}

/// A token never loses all its readings: an untagged one takes their place.
pub open spec fn ensure_nonempty_spec(rs: Seq<ReadingV>, tok: TokenV) -> Seq<ReadingV> {
    if rs.len() == 0 {
        seq![ReadingV { token: tok.token, lemma: None, pos: None }]
    } else {
        rs
    }
}

/// The lemma of the last reading tagged exactly `p` that has one; otherwise
/// the first reading's lemma.
pub open spec fn replace_lemma(rs: Seq<ReadingV>, p: Seq<char>) -> Option<Seq<char>>
    decreases rs.len(),
{
    if rs.len() == 0 {
        None
    } else if rs.last().pos == Some(p) && rs.last().lemma is Some {
        rs.last().lemma
    } else if rs.len() == 1 {
        rs[0].lemma
    } else {
        replace_lemma(rs.drop_last(), p)
    }
}

/// The readings of the `j`-th marked token (of `n`) after the rule's action.
pub open spec fn token_after(rule: DisambigRule, tok: TokenV, j: int, n: int) -> Seq<ReadingV> {
    let rs = tok.readings;
    let wds = rule.wds@;
    match rule.action {
        Action::Add => add_wds(rs, tok, wds),
        Action::Remove => match opt_view(rule.disambig_postag) {
            Some(p) => ensure_nonempty_spec(keep_pos(rs, p, false), tok),
            None => ensure_nonempty_spec(remove_wds(rs, wds), tok),
        },
        Action::Filter => match opt_view(rule.disambig_postag) {
            Some(p) => ensure_nonempty_spec(keep_pos(rs, p, true), tok),
            None => if wds.len() == n {
                ensure_nonempty_spec(keep_wd(rs, wds[j], true), tok)
            } else {
                rs
            },
        },
        Action::Replace => if wds.len() == n && wds.len() > 0 {
            seq![wd_reading(tok, wds[j])]
        } else {
            match opt_view(rule.disambig_postag) {
                Some(p) => if j == 0 {
                    seq![ReadingV { token: tok.token, lemma: replace_lemma(rs, p), pos: Some(p) }]
                } else {
                    rs
                },
                None => rs,
            }
        },
        _ => rs,
    }
}

/// `t` with its readings replaced.
pub open spec fn with_readings(t: TokenV, rs: Seq<ReadingV>) -> TokenV {
    TokenV {
        token: t.token,
        readings: rs,
        whitespace_before: t.whitespace_before,
        start_pos: t.start_pos,
        is_sent_start: t.is_sent_start,
        is_sent_end: t.is_sent_end,
    }
}

/// The action applied to the marked positions `[from, to)` (nothing happens
/// when the span does not lie in the sentence).
pub open spec fn action_spec(rule: DisambigRule, s: Seq<TokenV>, from: int, to: int) -> Seq<TokenV> {
    if from > to || to > s.len() {
        s
    } else {
        Seq::new(
            s.len(),
            |i: int|
                if from <= i < to {
                    with_readings(s[i], token_after(rule, s[i], i - from, to - from))
                } else {
                    s[i]
                },
        )
    }
}

/// `filterall` applies: the marker maps one to one onto single, gap-free
/// pattern tokens and lies in the sentence.
pub open spec fn filterall_applies(rule: DisambigRule, s: Seq<TokenV>, m: PatternMatchV) -> bool {
    let p = rule.pattern;
    let n = m.marker_to - m.marker_from;
    &&& 0 <= m.marker_from <= m.marker_to <= s.len()
    &&& p.mark_from <= p.mark_to <= p.tokens@.len()
    &&& p.mark_to - p.mark_from == n
    &&& forall|j: int|
        0 <= j < n ==> {
            let pt = #[trigger] p.tokens@[p.mark_from + j];
            pt.min == 1 && pt.max == 1 && pt.skip == 0
        }
}

/// `filterall`: each marked token keeps the readings its pattern token
/// accepts (when it accepts at least one).
pub open spec fn filterall_spec(rule: DisambigRule, s: Seq<TokenV>, m: PatternMatchV) -> Seq<TokenV> {
    if !filterall_applies(rule, s, m) {
        s
    } else {
        Seq::new(
            s.len(),
            |i: int|
                if m.marker_from <= i < m.marker_to {
                    let pt = rule.pattern.tokens@[rule.pattern.mark_from + (i - m.marker_from)];
                    let kept = keep_tm(s[i].readings, pt, s[i].whitespace_before);
                    if kept.len() > 0 {
                        with_readings(s[i], kept)
                    } else {
                        s[i]
                    }
                } else {
                    s[i]
                },
        )
    }
}

/// A covered position in `[from, to)`.
pub open spec fn blocked_in(blocked: Seq<bool>, m: PatternMatchV) -> bool {
    exists|i: int| m.from <= i < m.to && 0 <= i < blocked.len() && blocked[i]
}

/// One rule applied from position `start` on, with the antipattern coverage
/// computed before the rule started.
pub open spec fn rule_apply_spec(
    rule: DisambigRule,
    s: Seq<TokenV>,
    blocked: Seq<bool>,
    start: int,
) -> Seq<TokenV>
    decreases s.len() - start,
{
    if start < 0 || start >= s.len() {
        s
    } else {
        match spec_first_match(rule.pattern, s, start) {
            None => s,
            Some(f) => {
                proof {
                    lemma_first_match(rule.pattern, s, start);
                }
                match spec_match_view(rule.pattern, s, f) {
                    None => s,
                    Some(m) => {
                        let s2 = if blocked_in(blocked, m) {
                            s
                        } else if rule.action == Action::Filterall {
                            filterall_spec(rule, s, m)
                        } else {
                            action_spec(rule, s, m.marker_from, m.marker_to)
                        };
                        let next = if m.to > f {
                            m.to
                        } else {
                            f + 1
                        };
                        if next >= s.len() || s2.len() != s.len() {
                            s2
                        } else {
                            rule_apply_spec(rule, s2, blocked, next)
                        }
                    },
                }
            },
        }
    }
}

/// The antipattern coverage of a rule on a sentence.
pub open spec fn coverage(rule: DisambigRule, s: Seq<TokenV>) -> Seq<bool> {
    Seq::new(s.len(), |i: int| covered(rule.antipatterns@, s, i))
}

/// All supported rules, in order.
pub open spec fn apply_all_spec(rules: Seq<DisambigRule>, s: Seq<TokenV>) -> Seq<TokenV>
    decreases rules.len(),
{
    if rules.len() == 0 {
        s
    } else {
        let before = apply_all_spec(rules.drop_last(), s);
        let rule = rules.last();
        if rule.unsupported@.len() == 0 {
            rule_apply_spec(rule, before, coverage(rule, before), 0)
        } else {
            before
        }
    }
}

// ---------------------------------------------------------------------------
// Application
// ---------------------------------------------------------------------------

fn wd_to_reading(tok: &AnalyzedTokenReadings, wd: &Wd) -> (r: AnalyzedToken)
    ensures
        reading_view(r) == wd_reading(token_view(*tok), *wd),
{
    let lemma = match &wd.lemma {
        Some(l) => if string_chars(l).len() > 0 {
            copy_string(l)
        } else {
            copy_string(&tok.token)
        },
        None => copy_string(&tok.token),
    };
    AnalyzedToken { token: copy_string(&tok.token), lemma: Some(lemma), pos: copy_opt(&wd.pos) }
}

fn opt_eq(a: &Option<String>, b: &Option<String>) -> (r: bool)
    ensures
        r == (opt_view(*a) == opt_view(*b)),
{
    match (a, b) {
        (Some(x), Some(y)) => chars_eq(&string_chars(x), &string_chars(y)),
        (None, None) => true,
        _ => false,
    }
}

fn wd_matches_exec(wd: &Wd, r: &AnalyzedToken) -> (b: bool)
    ensures
        b == wd_matches(*wd, reading_view(*r)),
{
    let lemma_ok = match &wd.lemma {
        Some(_) => opt_eq(&r.lemma, &wd.lemma),
        None => true,
    };
    let pos_ok = match &wd.pos {
        Some(_) => opt_eq(&r.pos, &wd.pos),
        None => true,
    };
    lemma_ok && pos_ok
}

fn add_reading(rs: &mut Vec<AnalyzedToken>, r: AnalyzedToken)
    ensures
        reading_views(final(rs)@) == add_reading_spec(reading_views(old(rs)@), reading_view(r)),
{
    let ghost before = reading_views(rs@);
    if rs.len() == 1 && rs[0].has_no_tag() {
        rs.clear();
        assert(reading_views(rs@) =~= Seq::<ReadingV>::empty());
    }
    let ghost mid = reading_views(rs@);
    rs.push(r);
    assert(reading_views(rs@) =~= mid.push(reading_view(r)));
}

/// The readings of `rs` accepted (`want`) or rejected by the postag matcher.
fn keep_pos_exec(rs: &Vec<AnalyzedToken>, pm: &PosMatcher, p: Ghost<Seq<char>>, want: bool) -> (r:
    Vec<AnalyzedToken>)
    requires
        forall|x: ReadingV| pm_matches(*pm, x) == postag_matches(p@, x),
    ensures
        reading_views(r@) == keep_pos(reading_views(rs@), p@, want),
{
    let ghost v = reading_views(rs@);
    let mut out: Vec<AnalyzedToken> = Vec::new();
    let mut i: usize = 0;
    while i < rs.len()
        invariant
            i <= rs@.len(),
            v == reading_views(rs@),
            forall|x: ReadingV| pm_matches(*pm, x) == postag_matches(p@, x),
            reading_views(out@) == keep_pos(v.subrange(0, i as int), p@, want),
        decreases rs.len() - i,
    {
        assert(v.subrange(0, i + 1).drop_last() =~= v.subrange(0, i as int));
        assert(v.subrange(0, i + 1).last() == reading_view(rs@[i as int]));
        if pm.matches_reading(&rs[i]) == want {
            let ghost o = reading_views(out@);
            out.push(rs[i].duplicate());
            assert(reading_views(out@) =~= o.push(reading_view(rs@[i as int])));
        }
        i += 1;
    }
    assert(v.subrange(0, rs.len() as int) =~= v);
    out
}

/// The readings of `rs` that agree (`want`) or disagree with a `<wd>`.
fn keep_wd_exec(rs: &Vec<AnalyzedToken>, wd: &Wd, want: bool) -> (r: Vec<AnalyzedToken>)
    ensures
        reading_views(r@) == keep_wd(reading_views(rs@), *wd, want),
{
    let ghost v = reading_views(rs@);
    let mut out: Vec<AnalyzedToken> = Vec::new();
    let mut i: usize = 0;
    while i < rs.len()
        invariant
            i <= rs@.len(),
            v == reading_views(rs@),
            reading_views(out@) == keep_wd(v.subrange(0, i as int), *wd, want),
        decreases rs.len() - i,
    {
        assert(v.subrange(0, i + 1).drop_last() =~= v.subrange(0, i as int));
        assert(v.subrange(0, i + 1).last() == reading_view(rs@[i as int]));
        if wd_matches_exec(wd, &rs[i]) == want {
            let ghost o = reading_views(out@);
            out.push(rs[i].duplicate());
            assert(reading_views(out@) =~= o.push(reading_view(rs@[i as int])));
        }
        i += 1;
    }
    assert(v.subrange(0, rs.len() as int) =~= v);
    out
}

/// The readings a pattern token keeps.
fn keep_tm_exec(rs: &Vec<AnalyzedToken>, tm: &TokenMatcher, ws: bool) -> (r: Vec<AnalyzedToken>)
    ensures
        reading_views(r@) == keep_tm(reading_views(rs@), *tm, ws),
{
    let ghost v = reading_views(rs@);
    let mut out: Vec<AnalyzedToken> = Vec::new();
    let mut i: usize = 0;
    while i < rs.len()
        invariant
            i <= rs@.len(),
            v == reading_views(rs@),
            reading_views(out@) == keep_tm(v.subrange(0, i as int), *tm, ws),
        decreases rs.len() - i,
    {
        assert(v.subrange(0, i + 1).drop_last() =~= v.subrange(0, i as int));
        assert(v.subrange(0, i + 1).last() == reading_view(rs@[i as int]));
        if tm.keeps_reading(&rs[i], ws) {
            let ghost o = reading_views(out@);
            out.push(rs[i].duplicate());
            assert(reading_views(out@) =~= o.push(reading_view(rs@[i as int])));
        }
        i += 1;
    }
    assert(v.subrange(0, rs.len() as int) =~= v);
    out
}

fn ensure_nonempty(rs: Vec<AnalyzedToken>, tok: &AnalyzedTokenReadings) -> (r: Vec<AnalyzedToken>)
    ensures
        reading_views(r@) == ensure_nonempty_spec(reading_views(rs@), token_view(*tok)),
{
    if rs.len() == 0 {
        let mut v: Vec<AnalyzedToken> = Vec::new();
        v.push(AnalyzedToken { token: copy_string(&tok.token), lemma: None, pos: None });
        assert(reading_views(v@) =~= seq![
            ReadingV { token: tok.token@, lemma: None, pos: None },
        ]);
        v
    } else {
        rs
    }
}

/// The postag matcher of a bare `<disambig postag="...">`: the postag as a
/// regex, or one that matches nothing when it does not compile.
pub fn pos_matcher(postag: &str) -> (pm: PosMatcher)
    ensures
        forall|x: ReadingV| pm_matches(pm, x) == postag_matches(postag@, x),
{
    match PosMatcher::new(postag, true) {
        Ok(pm) => pm,
        Err(_) => match PosMatcher::new("(?!x)x", true) {
            Ok(pm) => {
                proof {
                    reveal_strlit("(?!x)x");
                    reveal_strlit("UNKNOWN");
                }
                pm
            },
            Err(_) => {
                proof {
                    reveal_strlit("(?!x)x");
                    reveal_strlit("UNKNOWN");
                }
                PosMatcher::Exact(String::new())
            },
        },
    }
}

fn replace_lemma_exec(rs: &Vec<AnalyzedToken>, p: &String) -> (r: Option<String>)
    ensures
        opt_view(r) == replace_lemma(reading_views(rs@), p@),
{
    let ghost v = reading_views(rs@);
    let mut i = rs.len();
    assert(v.subrange(0, i as int) =~= v);
    while i > 0
        invariant
            i <= rs@.len(),
            v == reading_views(rs@),
            replace_lemma(v, p@) == replace_lemma(v.subrange(0, i as int), p@),
        decreases i,
    {
        let ghost w = v.subrange(0, i as int);
        assert(w.last() == reading_view(rs@[i - 1]));
        assert(w.drop_last() =~= v.subrange(0, i - 1));
        let r = &rs[i - 1];
        let tag_ok = match &r.pos {
            Some(tp) => chars_eq(&string_chars(tp), &string_chars(p)),
            None => false,
        };
        if tag_ok && r.lemma.is_some() {
            return copy_opt(&r.lemma);
        }
        if i == 1 {
            assert(w[0] == reading_view(rs@[0]));
            return copy_opt(&rs[0].lemma);
        }
        i -= 1;
    }
    None
}

fn token_after_exec(rule: &DisambigRule, tok: &AnalyzedTokenReadings, j: usize, n: usize) -> (r:
    Vec<AnalyzedToken>)
    requires
        j < n,
    ensures
        reading_views(r@) == token_after(*rule, token_view(*tok), j as int, n as int),
{
    let ghost tv = token_view(*tok);
    match rule.action {
        Action::Add => {
            let mut rs: Vec<AnalyzedToken> = Vec::new();
            let mut k: usize = 0;
            while k < tok.readings.len()
                invariant
                    k <= tok.readings@.len(),
                    reading_views(rs@) == reading_views(tok.readings@).subrange(0, k as int),
                decreases tok.readings.len() - k,
            {
                let ghost o = reading_views(rs@);
                let d = tok.readings[k].duplicate();
                rs.push(d);
                assert(reading_views(rs@) =~= o.push(reading_view(d)));
                assert(reading_views(tok.readings@).subrange(0, k + 1) =~= reading_views(
                    tok.readings@,
                ).subrange(0, k as int).push(reading_view(tok.readings@[k as int])));
                k += 1;
            }
            assert(reading_views(tok.readings@).subrange(0, k as int) =~= reading_views(
                tok.readings@,
            ));
            let mut w: usize = 0;
            while w < rule.wds.len()
                invariant
                    w <= rule.wds@.len(),
                    tv == token_view(*tok),
                    reading_views(rs@) == add_wds(
                        tv.readings,
                        tv,
                        rule.wds@.subrange(0, w as int),
                    ),
                decreases rule.wds.len() - w,
            {
                assert(rule.wds@.subrange(0, w + 1).drop_last() =~= rule.wds@.subrange(
                    0,
                    w as int,
                ));
                let r = wd_to_reading(tok, &rule.wds[w]);
                add_reading(&mut rs, r);
                w += 1;
            }
            assert(rule.wds@.subrange(0, rule.wds.len() as int) =~= rule.wds@);
            rs
        },
        Action::Remove => match &rule.disambig_postag {
            Some(p) => {
                let pm = pos_matcher(p.as_str());
                let kept = keep_pos_exec(&tok.readings, &pm, Ghost(p@), false);
                ensure_nonempty(kept, tok)
            },
            None => {
                let mut rs = keep_wd_exec(&tok.readings, &tok_dummy_wd(), true);
                assert(reading_views(rs@) == reading_views(tok.readings@)) by {
                    lemma_keep_all(reading_views(tok.readings@));
                }
                let mut w: usize = 0;
                while w < rule.wds.len()
                    invariant
                        w <= rule.wds@.len(),
                        tv == token_view(*tok),
                        reading_views(rs@) == remove_wds(
                            tv.readings,
                            rule.wds@.subrange(0, w as int),
                        ),
                    decreases rule.wds.len() - w,
                {
                    assert(rule.wds@.subrange(0, w + 1).drop_last() =~= rule.wds@.subrange(
                        0,
                        w as int,
                    ));
                    rs = keep_wd_exec(&rs, &rule.wds[w], false);
                    w += 1;
                }
                assert(rule.wds@.subrange(0, rule.wds.len() as int) =~= rule.wds@);
                ensure_nonempty(rs, tok)
            },
        },
        Action::Filter => match &rule.disambig_postag {
            Some(p) => {
                let pm = pos_matcher(p.as_str());
                let kept = keep_pos_exec(&tok.readings, &pm, Ghost(p@), true);
                ensure_nonempty(kept, tok)
            },
            None => if rule.wds.len() == n {
                let kept = keep_wd_exec(&tok.readings, &rule.wds[j], true);
                ensure_nonempty(kept, tok)
            } else {
                copy_readings(&tok.readings)
            },
        },
        Action::Replace => if rule.wds.len() == n && rule.wds.len() > 0 {
            let mut v: Vec<AnalyzedToken> = Vec::new();
            v.push(wd_to_reading(tok, &rule.wds[j]));
            assert(reading_views(v@) =~= seq![wd_reading(tv, rule.wds@[j as int])]);
            v
        } else {
            match &rule.disambig_postag {
                Some(p) => if j == 0 {
                    let lemma = replace_lemma_exec(&tok.readings, p);
                    let mut v: Vec<AnalyzedToken> = Vec::new();
                    v.push(
                        AnalyzedToken {
                            token: copy_string(&tok.token),
                            lemma,
                            pos: Some(copy_string(p)),
                        },
                    );
                    assert(reading_views(v@) =~= seq![
                        ReadingV {
                            token: tv.token,
                            lemma: replace_lemma(tv.readings, p@),
                            pos: Some(p@),
                        },
                    ]);
                    v
                } else {
                    copy_readings(&tok.readings)
                },
                None => copy_readings(&tok.readings),
            }
        },
        _ => copy_readings(&tok.readings),
    }
}

/// A `<wd>` that agrees with every reading.
fn tok_dummy_wd() -> (w: Wd)
    ensures
        w.lemma is None && w.pos is None,
{
    Wd { lemma: None, pos: None }
}

proof fn lemma_keep_all(rs: Seq<ReadingV>)
    ensures
        keep_wd(rs, Wd { lemma: None, pos: None }, true) == rs,
    decreases rs.len(),
{
    if rs.len() > 0 {
        lemma_keep_all(rs.drop_last());
        assert(rs.drop_last().push(rs.last()) =~= rs);
    }
}

fn copy_readings(rs: &Vec<AnalyzedToken>) -> (r: Vec<AnalyzedToken>)
    ensures
        reading_views(r@) == reading_views(rs@),
{
    let mut out: Vec<AnalyzedToken> = Vec::new();
    let mut k: usize = 0;
    while k < rs.len()
        invariant
            k <= rs@.len(),
            reading_views(out@) == reading_views(rs@).subrange(0, k as int),
        decreases rs.len() - k,
    {
        let ghost o = reading_views(out@);
        let d = rs[k].duplicate();
        out.push(d);
        assert(reading_views(out@) =~= o.push(reading_view(d)));
        assert(reading_views(rs@).subrange(0, k + 1) =~= reading_views(rs@).subrange(
            0,
            k as int,
        ).push(reading_view(rs@[k as int])));
        k += 1;
    }
    assert(reading_views(rs@).subrange(0, k as int) =~= reading_views(rs@));
    out
}

/// Replace the readings of position `i`.
fn set_readings(sentence: &mut Vec<AnalyzedTokenReadings>, i: usize, rs: Vec<AnalyzedToken>)
    requires
        i < old(sentence)@.len(),
    ensures
        sentence_view(final(sentence)@) == sentence_view(old(sentence)@).update(
            i as int,
            with_readings(sentence_view(old(sentence)@)[i as int], reading_views(rs@)),
        ),
{
    let ghost before = sentence_view(sentence@);
    let mut t = sentence.remove(i);
    t.readings = rs;
    sentence.insert(i, t);
    assert(sentence_view(sentence@) =~= before.update(
        i as int,
        with_readings(before[i as int], reading_views(rs@)),
    ));
}

fn apply_action(rule: &DisambigRule, sentence: &mut Vec<AnalyzedTokenReadings>, from: usize, to: usize)
    ensures
        sentence_view(final(sentence)@) == action_spec(
            *rule,
            sentence_view(old(sentence)@),
            from as int,
            to as int,
        ),
{
    let ghost s0 = sentence_view(sentence@);
    if from > to || to > sentence.len() {
        return;
    }
    let ghost target = action_spec(*rule, s0, from as int, to as int);
    let mut i = from;
    while i < to
        invariant
            from <= i <= to <= sentence@.len(),
            s0.len() == sentence@.len(),
            target == action_spec(*rule, s0, from as int, to as int),
            forall|k: int|
                0 <= k < s0.len() ==> #[trigger] sentence_view(sentence@)[k] == if from <= k < i {
                    target[k]
                } else {
                    s0[k]
                },
        decreases to - i,
    {
        assert(sentence_view(sentence@)[i as int] == s0[i as int]);
        let rs = token_after_exec(rule, &sentence[i], i - from, to - from);
        let ghost sb = sentence_view(sentence@);
        set_readings(sentence, i, rs);
        assert(sentence_view(sentence@).len() == sentence@.len());
        assert forall|k: int| 0 <= k < s0.len() implies #[trigger] sentence_view(sentence@)[k]
            == if from <= k < i + 1 {
            target[k]
        } else {
            s0[k]
        } by {
            if k != i {
                assert(sentence_view(sentence@)[k] == sb[k]);
            }
        }
        i += 1;
    }
    assert(sentence_view(sentence@) =~= target);
}

fn apply_filterall(rule: &DisambigRule, sentence: &mut Vec<AnalyzedTokenReadings>, m: &PatternMatch)
    requires
        drule_wf(*rule),
    ensures
        sentence_view(final(sentence)@) == filterall_spec(
            *rule,
            sentence_view(old(sentence)@),
            pm_view(*m),
        ),
{
    let ghost s0 = sentence_view(sentence@);
    let ghost mv = pm_view(*m);
    let pat = &rule.pattern;
    if m.marker_from_token > m.marker_to_token || m.marker_to_token > sentence.len() {
        return;
    }
    if pat.mark_from > pat.mark_to || pat.mark_to > pat.tokens.len() {
        return;
    }
    let n = m.marker_to_token - m.marker_from_token;
    if pat.mark_to - pat.mark_from != n {
        return;
    }
    assert(pat.mark_from + n <= pat.tokens@.len());
    let mut j: usize = 0;
    while j < n
        invariant
            j <= n,
            n == mv.marker_to - mv.marker_from,
            pat.mark_from + n <= pat.tokens@.len(),
            pat.tokens@.len() == pat.tokens.len(),
            pat == rule.pattern,
            sentence_view(sentence@) == s0,
            s0 == sentence_view(old(sentence)@),
            mv == pm_view(*m),
            forall|q: int|
                0 <= q < j ==> {
                    let pt = #[trigger] pat.tokens@[pat.mark_from + q];
                    pt.min == 1 && pt.max == 1 && pt.skip == 0
                },
        decreases n - j,
    {
        let pt = &pat.tokens[pat.mark_from + j];
        if pt.min != 1 || pt.max != 1 || pt.skip != 0 {
            assert(rule.pattern.tokens@[rule.pattern.mark_from + j as int] == *pt);
            assert(!filterall_applies(*rule, s0, mv));
            return;
        }
        j += 1;
    }
    assert(filterall_applies(*rule, s0, mv));
    let ghost target = filterall_spec(*rule, s0, mv);
    let from = m.marker_from_token;
    let mut j: usize = 0;
    while j < n
        invariant
            j <= n,
            from == mv.marker_from,
            from + n <= sentence@.len(),
            sentence@.len() == sentence.len(),
            pat.tokens@.len() == pat.tokens.len(),
            n == mv.marker_to - mv.marker_from,
            pat == rule.pattern,
            pat.mark_from + n <= pat.tokens@.len(),
            s0.len() == sentence@.len(),
            target == filterall_spec(*rule, s0, mv),
            filterall_applies(*rule, s0, mv),
            forall|k: int|
                0 <= k < s0.len() ==> #[trigger] sentence_view(sentence@)[k] == if from <= k < from
                    + j {
                    target[k]
                } else {
                    s0[k]
                },
        decreases n - j,
    {
        let i = from + j;
        assert(sentence_view(sentence@)[i as int] == s0[i as int]);
        let pt = &pat.tokens[pat.mark_from + j];
        let ws = sentence[i].whitespace_before;
        let kept = keep_tm_exec(&sentence[i].readings, pt, ws);
        let ghost sb = sentence_view(sentence@);
        if kept.len() > 0 {
            set_readings(sentence, i, kept);
        }
        assert(sentence_view(sentence@).len() == sentence@.len());
        assert forall|k: int| 0 <= k < s0.len() implies #[trigger] sentence_view(sentence@)[k]
            == if from <= k < from + j + 1 {
            target[k]
        } else {
            s0[k]
        } by {
            if k != i {
                assert(sentence_view(sentence@)[k] == sb[k]);
            }
        }
        j += 1;
    }
    assert(sentence_view(sentence@) =~= target);
}

/// Whether some covered position lies in `[from, to)`.
fn overlaps_blocked(blocked: &Vec<bool>, from: usize, to: usize) -> (r: bool)
    ensures
        r == exists|i: int| from <= i < to && 0 <= i < blocked@.len() && blocked@[i],
{
    let mut i = from;
    while i < to && i < blocked.len()
        invariant
            from <= i,
            forall|k: int| from <= k < i && k < blocked@.len() ==> !blocked@[k],
        decreases to - i,
    {
        if blocked[i] {
            return true;
        }
        i += 1;
    }
    false
}

/// One rule over the sentence: at every non-overlapping match (scanning the
/// sentence as the rule changes it) that no antipattern match overlaps.
pub fn apply_rule(rule: &DisambigRule, sentence: &mut Vec<AnalyzedTokenReadings>)
    requires
        drule_wf(*rule),
    ensures
        sentence_view(final(sentence)@) == rule_apply_spec(
            *rule,
            sentence_view(old(sentence)@),
            coverage(*rule, sentence_view(old(sentence)@)),
            0,
        ),
{
    let ghost s0 = sentence_view(sentence@);
    let blocked = antipattern_coverage(rule.antipatterns.as_slice(), sentence.as_slice());
    let ghost bl = coverage(*rule, s0);
    assert(blocked@ =~= bl);
    let mut start: usize = 0;
    while start < sentence.len()
        invariant_except_break
            rule_apply_spec(*rule, s0, bl, 0) == rule_apply_spec(
                *rule,
                sentence_view(sentence@),
                bl,
                start as int,
            ),
        invariant
            drule_wf(*rule),
            sentence@.len() == s0.len(),
            blocked@ == bl,
        ensures
            sentence_view(sentence@) == rule_apply_spec(*rule, s0, bl, 0),
        decreases s0.len() - start,
    {
        let ghost sv = sentence_view(sentence@);
        let m = match rule.pattern.find_at_or_after(sentence.as_slice(), start) {
            Some(m) => m,
            None => {
                break;
            },
        };
        proof {
            lemma_first_match(rule.pattern, sv, start as int);
        }
        let ghost mv = pm_view(m);
        let ov = overlaps_blocked(&blocked, m.from_token, m.to_token);
        if !ov {
            if rule.action == Action::Filterall {
                apply_filterall(rule, sentence, &m);
            } else {
                apply_action(rule, sentence, m.marker_from_token, m.marker_to_token);
            }
        }
        let ghost s2 = sentence_view(sentence@);
        assert(s2 == if blocked_in(bl, mv) {
            sv
        } else if rule.action == Action::Filterall {
            filterall_spec(*rule, sv, mv)
        } else {
            action_spec(*rule, sv, mv.marker_from, mv.marker_to)
        });
        assert(s2.len() == sv.len());
        assert(sentence@.len() == s2.len());
        let next = if m.to_token > m.from_token {
            m.to_token
        } else {
            m.from_token + 1
        };
        if next >= sentence.len() {
            break;
        }
        start = next;
    }
}

/// All supported rules, in order (see [`apply_all_spec`]).
pub fn apply_all(rules: &[DisambigRule], sentence: &mut Vec<AnalyzedTokenReadings>)
    requires
        forall|i: int|
            0 <= i < rules@.len() ==> (#[trigger] rules@[i]).unsupported@.len() == 0 ==> drule_wf(
                rules@[i],
            ),
    ensures
        sentence_view(final(sentence)@) == apply_all_spec(rules@, sentence_view(old(sentence)@)),
{
    let ghost s0 = sentence_view(sentence@);
    let mut i: usize = 0;
    while i < rules.len()
        invariant
            i <= rules@.len(),
            forall|k: int|
                0 <= k < rules@.len() ==> (#[trigger] rules@[k]).unsupported@.len() == 0
                    ==> drule_wf(rules@[k]),
            sentence_view(sentence@) == apply_all_spec(rules@.subrange(0, i as int), s0),
        decreases rules.len() - i,
    {
        assert(rules@.subrange(0, i + 1).drop_last() =~= rules@.subrange(0, i as int));
        assert(rules@.subrange(0, i + 1).last() == rules@[i as int]);
        if rules[i].unsupported.len() == 0 {
            apply_rule(&rules[i], sentence);
        }
        i += 1;
    }
    assert(rules@.subrange(0, rules.len() as int) =~= rules@);
}

/// `b` is `a` with only readings rewritten: same length, every token keeps
/// its text, whitespace, offset and sentence flags, and a token that had
/// readings still has at least one.
pub open spec fn keeps_frame(a: Seq<TokenV>, b: Seq<TokenV>) -> bool {
    &&& b.len() == a.len()
    &&& forall|i: int| 0 <= i < a.len() ==> #[trigger] b[i] == with_readings(a[i], b[i].readings)
    &&& forall|i: int|
        0 <= i < a.len() && a[i].readings.len() > 0 ==> (#[trigger] b[i]).readings.len() > 0
}

proof fn lemma_frame_refl(a: Seq<TokenV>)
    ensures
        keeps_frame(a, a),
{
    assert forall|i: int| 0 <= i < a.len() implies #[trigger] a[i] == with_readings(
        a[i],
        a[i].readings,
    ) by {}
}

proof fn lemma_frame_trans(a: Seq<TokenV>, b: Seq<TokenV>, c: Seq<TokenV>)
    requires
        keeps_frame(a, b),
        keeps_frame(b, c),
    ensures
        keeps_frame(a, c),
{
    assert forall|i: int| 0 <= i < a.len() implies #[trigger] c[i] == with_readings(
        a[i],
        c[i].readings,
    ) by {
        assert(c[i] == with_readings(b[i], c[i].readings));
        assert(b[i] == with_readings(a[i], b[i].readings));
    }
    assert forall|i: int| 0 <= i < a.len() && a[i].readings.len() > 0 implies (
    #[trigger] c[i]).readings.len() > 0 by {
        assert(b[i].readings.len() > 0);
    }
}

proof fn lemma_token_after_nonempty(rule: DisambigRule, tok: TokenV, j: int, n: int)
    requires
        tok.readings.len() > 0,
    ensures
        token_after(rule, tok, j, n).len() > 0,
{
    if rule.action == Action::Add && rule.wds@.len() > 0 {
        assert(add_wds(tok.readings, tok, rule.wds@).len() > 0);
    }
}

proof fn lemma_action_frame(rule: DisambigRule, s: Seq<TokenV>, from: int, to: int)
    ensures
        keeps_frame(s, action_spec(rule, s, from, to)),
{
    if from > to || to > s.len() {
        lemma_frame_refl(s);
    } else {
        let r = action_spec(rule, s, from, to);
        assert forall|i: int| 0 <= i < s.len() && s[i].readings.len() > 0 implies (
        #[trigger] r[i]).readings.len() > 0 by {
            if from <= i < to {
                lemma_token_after_nonempty(rule, s[i], i - from, to - from);
            }
        }
    }
}

proof fn lemma_filterall_frame(rule: DisambigRule, s: Seq<TokenV>, m: PatternMatchV)
    ensures
        keeps_frame(s, filterall_spec(rule, s, m)),
{
    if !filterall_applies(rule, s, m) {
        lemma_frame_refl(s);
    }
}

proof fn lemma_rule_apply_frame(rule: DisambigRule, s: Seq<TokenV>, blocked: Seq<bool>, start: int)
    ensures
        keeps_frame(s, rule_apply_spec(rule, s, blocked, start)),
    decreases s.len() - start,
{
    if start < 0 || start >= s.len() {
        lemma_frame_refl(s);
    } else {
        match spec_first_match(rule.pattern, s, start) {
            None => lemma_frame_refl(s),
            Some(f) => {
                lemma_first_match(rule.pattern, s, start);
                match spec_match_view(rule.pattern, s, f) {
                    None => lemma_frame_refl(s),
                    Some(m) => {
                        let s2 = if blocked_in(blocked, m) {
                            s
                        } else if rule.action == Action::Filterall {
                            filterall_spec(rule, s, m)
                        } else {
                            action_spec(rule, s, m.marker_from, m.marker_to)
                        };
                        if blocked_in(blocked, m) {
                            lemma_frame_refl(s);
                        } else if rule.action == Action::Filterall {
                            lemma_filterall_frame(rule, s, m);
                        } else {
                            lemma_action_frame(rule, s, m.marker_from, m.marker_to);
                        }
                        let next = if m.to > f {
                            m.to
                        } else {
                            f + 1
                        };
                        if !(next >= s.len() || s2.len() != s.len()) {
                            lemma_rule_apply_frame(rule, s2, blocked, next);
                            lemma_frame_trans(s, s2, rule_apply_spec(rule, s2, blocked, next));
                        }
                    },
                }
            },
        }
    }
}

/// Disambiguation only rewrites readings: whatever the rules, the sentence
/// keeps its length, every token keeps its text, whitespace, offset and
/// sentence flags, and no token that had a reading is left without one.
pub proof fn lemma_disambiguation_keeps_tokens(rules: Seq<DisambigRule>, s: Seq<TokenV>)
    ensures
        keeps_frame(s, apply_all_spec(rules, s)),
    decreases rules.len(),
{
    if rules.len() == 0 {
        lemma_frame_refl(s);
    } else {
        let before = apply_all_spec(rules.drop_last(), s);
        lemma_disambiguation_keeps_tokens(rules.drop_last(), s);
        let rule = rules.last();
        if rule.unsupported@.len() == 0 {
            lemma_rule_apply_frame(rule, before, coverage(rule, before), 0);
            lemma_frame_trans(s, before, apply_all_spec(rules, s));
        }
    }
}

// ---------------------------------------------------------------------------
// Reading rules
// ---------------------------------------------------------------------------

pub struct WdV {
    pub lemma: Option<Seq<char>>,
    pub pos: Option<Seq<char>>,
}

pub open spec fn wd_view(w: Wd) -> WdV {
    WdV { lemma: opt_view(w.lemma), pos: opt_view(w.pos) }
}

pub open spec fn wd_views(v: Seq<Wd>) -> Seq<WdV> {
    v.map_values(|w: Wd| wd_view(w))
}

/// A `<rule>` as read, before its patterns are compiled.
pub struct DRuleDesc {
    pub id: Seq<char>,
    pub pattern: CapturedV,
    pub antis: Seq<CapturedV>,
    pub action: Action,
    pub wds: Seq<WdV>,
    pub postag: Option<Seq<char>>,
    pub has_match: bool,
}

/// The notes of the antipatterns, added in order.
pub open spec fn antis_notes(antis: Seq<CapturedV>, u: Seq<Seq<char>>) -> Seq<Seq<char>>
    decreases antis.len(),
{
    if antis.len() == 0 {
        u
    } else {
        note_all(antis_notes(antis.drop_last(), u), captured_state(antis.last()).unsupported)
    }
}

/// All patterns of a rule have their marker inside them.
pub open spec fn desc_wf(d: DRuleDesc) -> bool {
    state_wf(captured_state(d.pattern)) && forall|a: int|
        0 <= a < d.antis.len() ==> state_wf(captured_state(#[trigger] d.antis[a]))
}

/// The unsupported features of a rule: those of its pattern, a `<match>` in
/// its `<disambig>`, those of its antipatterns, and a marker outside a pattern.
pub open spec fn drule_unsupported(d: DRuleDesc) -> Seq<Seq<char>> {
    let st = captured_state(d.pattern);
    let u1 = if d.has_match {
        note(st.unsupported, "disambig-match"@)
    } else {
        st.unsupported
    };
    let u2 = antis_notes(d.antis, u1);
    if !desc_wf(d) {
        note(u2, "marker"@)
    } else {
        u2
    }
}

/// `r` is the rule a description compiles to.
pub open spec fn drule_built(r: DisambigRule, d: DRuleDesc) -> bool {
    &&& r.id@ == d.id
    &&& r.action == d.action
    &&& wd_views(r.wds@) == d.wds
    &&& opt_view(r.disambig_postag) == d.postag
    &&& pattern_from(r.pattern, captured_state(d.pattern))
    &&& r.antipatterns@.len() == d.antis.len()
    &&& forall|a: int|
        0 <= a < d.antis.len() ==> pattern_from(
            #[trigger] r.antipatterns@[a],
            captured_state(d.antis[a]),
        )
    &&& string_views(r.unsupported@) == drule_unsupported(d)
}

pub proof fn lemma_pattern_from_wf(p: Pattern, st: PPState)
    requires
        pattern_from(p, st),
    ensures
        pattern_wf(p) == state_wf(st),
{
}

/// Reader state for a disambiguation file.
pub struct DState {
    pub rules: Seq<DRuleDesc>,
    pub in_rule: bool,
    pub rule_id: Seq<char>,
    pub in_disambig: bool,
    pub action: Action,
    pub postag: Option<Seq<char>>,
    pub wds: Seq<WdV>,
    pub has_match: bool,
    pub pattern: Option<CapturedV>,
    pub antis: Seq<CapturedV>,
    pub capture: Option<Seq<XmlEventV>>,
    pub capture_is_anti: bool,
    pub capture_cs: bool,
}

pub open spec fn d_init() -> DState {
    DState {
        rules: Seq::empty(),
        in_rule: false,
        rule_id: Seq::empty(),
        in_disambig: false,
        action: Action::Replace,
        postag: None,
        wds: Seq::empty(),
        has_match: false,
        pattern: None,
        antis: Seq::empty(),
        capture: None,
        capture_is_anti: false,
        capture_cs: false,
    }
}

/// One event, after it was mirrored into the active capture.
pub open spec fn d_handle(st: DState, ev: XmlEventV) -> DState {
    match ev {
        XmlEventV::Start(n, a) => if is_tag(n, "rule"@) {
            DState {
                in_rule: true,
                rule_id: match attr_spec(a, "id"@) {
                    Some(v) => v,
                    None => Seq::empty(),
                },
                ..st
            }
        } else if (is_tag(n, "pattern"@) || is_tag(n, "antipattern"@)) && st.in_rule {
            DState {
                capture_is_anti: is_tag(n, "antipattern"@),
                capture_cs: attr_spec(a, "case_sensitive"@) == Some("yes"@),
                capture: Some(Seq::empty()),
                ..st
            }
        } else if is_tag(n, "disambig"@) && st.in_rule {
            DState {
                in_disambig: true,
                action: spec_action(attr_spec(a, "action"@)),
                postag: attr_spec(a, "postag"@),
                ..st
            }
        } else if is_tag(n, "match"@) && st.in_disambig {
            DState { has_match: true, ..st }
        } else {
            st
        },
        XmlEventV::Empty(n, a) => if is_tag(n, "disambig"@) && st.in_rule {
            DState {
                action: spec_action(attr_spec(a, "action"@)),
                postag: attr_spec(a, "postag"@),
                ..st
            }
        } else if is_tag(n, "wd"@) && st.in_disambig {
            DState {
                wds: st.wds.push(WdV { lemma: attr_spec(a, "lemma"@), pos: attr_spec(a, "pos"@) }),
                ..st
            }
        } else if is_tag(n, "match"@) && st.in_disambig {
            DState { has_match: true, ..st }
        } else {
            st
        },
        XmlEventV::End(n) => if (is_tag(n, "pattern"@) || is_tag(n, "antipattern"@))
            && st.capture is Some {
            let cap = CapturedV { events: st.capture->0, case_sensitive: st.capture_cs };
            if st.capture_is_anti {
                DState { antis: st.antis.push(cap), capture: None, ..st }
            } else {
                DState { pattern: Some(cap), capture: None, ..st }
            }
        } else if is_tag(n, "disambig"@) {
            DState { in_disambig: false, ..st }
        } else if is_tag(n, "rule"@) && st.in_rule {
            let rules = match st.pattern {
                Some(p) => st.rules.push(
                    DRuleDesc {
                        id: st.rule_id,
                        pattern: p,
                        antis: st.antis,
                        action: st.action,
                        wds: st.wds,
                        postag: st.postag,
                        has_match: st.has_match,
                    },
                ),
                None => st.rules,
            };
            DState {
                rules,
                in_rule: false,
                rule_id: Seq::empty(),
                in_disambig: false,
                action: Action::Replace,
                postag: None,
                wds: Seq::empty(),
                has_match: false,
                pattern: None,
                antis: Seq::empty(),
                ..st
            }
        } else {
            st
        },
        _ => st,
    }
}

pub open spec fn d_step(st: DState, ev: XmlEventV) -> DState {
    d_handle(DState { capture: mirror(st.capture, ev), ..st }, ev)
}

pub open spec fn d_run(evs: Seq<XmlEventV>, n: int) -> DState
    decreases n,
{
    if n <= 0 {
        d_init()
    } else {
        d_step(d_run(evs, n - 1), evs[n - 1])
    }
}

/// Compile a rule description.
fn build_drule(
    id: String,
    cap: Captured,
    antis: Vec<Captured>,
    action: Action,
    wds: Vec<Wd>,
    postag: Option<String>,
    has_match: bool,
) -> (r: DisambigRule)
    ensures
        drule_built(
            r,
            DRuleDesc {
                id: id@,
                pattern: captured_view(cap),
                antis: antis@.map_values(|c: Captured| captured_view(c)),
                action,
                wds: wd_views(wds@),
                postag: opt_view(postag),
                has_match,
            },
        ),
        r.unsupported@.len() == 0 ==> drule_wf(r),
{
    let ghost d = DRuleDesc {
        id: id@,
        pattern: captured_view(cap),
        antis: antis@.map_values(|c: Captured| captured_view(c)),
        action,
        wds: wd_views(wds@),
        postag: opt_view(postag),
        has_match,
    };
    let parsed = parse_pattern_body(&cap.events, cap.case_sensitive);
    let mut unsupported = parsed.unsupported;
    if has_match {
        push_unique(&mut unsupported, "disambig-match");
    }
    let mut all_wf = is_pattern_wf(&parsed.pattern);
    proof {
        lemma_pattern_from_wf(parsed.pattern, captured_state(d.pattern));
    }
    let mut antipatterns: Vec<Pattern> = Vec::new();
    let mut i: usize = 0;
    while i < antis.len()
        invariant
            i <= antis@.len(),
            d.antis == antis@.map_values(|c: Captured| captured_view(c)),
            antipatterns@.len() == i,
            forall|a: int|
                0 <= a < i ==> pattern_from(
                    #[trigger] antipatterns@[a],
                    captured_state(d.antis[a]),
                ),
            string_views(unsupported@) == antis_notes(
                d.antis.subrange(0, i as int),
                if has_match {
                    note(captured_state(d.pattern).unsupported, "disambig-match"@)
                } else {
                    captured_state(d.pattern).unsupported
                },
            ),
            all_wf == (state_wf(captured_state(d.pattern)) && forall|a: int|
                0 <= a < i ==> state_wf(captured_state(#[trigger] d.antis[a]))),
        decreases antis.len() - i,
    {
        let p = parse_pattern_body(&antis[i].events, antis[i].case_sensitive);
        assert(d.antis[i as int] == captured_view(antis@[i as int]));
        push_all_unique(&mut unsupported, &p.unsupported);
        assert(d.antis.subrange(0, i + 1).drop_last() =~= d.antis.subrange(0, i as int));
        proof {
            lemma_pattern_from_wf(p.pattern, captured_state(d.antis[i as int]));
        }
        if !is_pattern_wf(&p.pattern) {
            all_wf = false;
        }
        antipatterns.push(p.pattern);
        i += 1;
    }
    assert(d.antis.subrange(0, antis.len() as int) =~= d.antis);
    if !all_wf {
        let ghost u2 = string_views(unsupported@);
        push_unique(&mut unsupported, "marker");
        proof {
            if !u2.contains("marker"@) {
                assert(u2.push("marker"@)[u2.len() as int] == "marker"@);
            }
            assert(string_views(unsupported@).contains("marker"@));
        }
    }
    let r = DisambigRule {
        id,
        pattern: parsed.pattern,
        antipatterns,
        action,
        wds,
        disambig_postag: postag,
        unsupported,
    };
    proof {
        if r.unsupported@.len() == 0 {
            assert(string_views(r.unsupported@).len() == 0);
            assert(all_wf);
        }
    }
    r
}

struct DExec {
    rules: Vec<DisambigRule>,
    in_rule: bool,
    rule_id: String,
    in_disambig: bool,
    action: Action,
    postag: Option<String>,
    wds: Vec<Wd>,
    has_match: bool,
    pattern: Option<Captured>,
    antis: Vec<Captured>,
    capture: Option<Vec<XmlEvent>>,
    capture_is_anti: bool,
    capture_cs: bool,
}

spec fn d_rel(e: DExec, s: DState) -> bool {
    &&& e.rules@.len() == s.rules.len()
    &&& forall|i: int| 0 <= i < s.rules.len() ==> drule_built(#[trigger] e.rules@[i], s.rules[i])
    &&& forall|i: int|
        0 <= i < e.rules@.len() ==> (#[trigger] e.rules@[i]).unsupported@.len() == 0 ==> drule_wf(
            e.rules@[i],
        )
    &&& e.in_rule == s.in_rule
    &&& e.rule_id@ == s.rule_id
    &&& e.in_disambig == s.in_disambig
    &&& e.action == s.action
    &&& opt_view(e.postag) == s.postag
    &&& wd_views(e.wds@) == s.wds
    &&& e.has_match == s.has_match
    &&& match e.pattern {
        Some(c) => s.pattern == Some(captured_view(c)),
        None => s.pattern is None,
    }
    &&& e.antis@.map_values(|c: Captured| captured_view(c)) == s.antis
    &&& opt_events_view(e.capture) == s.capture
    &&& e.capture_is_anti == s.capture_is_anti
    &&& e.capture_cs == s.capture_cs
}

fn opt_chars_string(v: Option<Vec<char>>) -> (r: Option<String>)
    ensures
        opt_view(r) == match v {
            Some(c) => Some(c@),
            None => None::<Seq<char>>,
        },
{
    match v {
        Some(c) => Some(crate::text::chars_to_string(&c)),
        None => None,
    }
}

fn action_of(a: &Vec<(Vec<u8>, Vec<u8>)>) -> (r: Action)
    ensures
        r == spec_action(attr_spec(attrs_view(a@), "action"@)),
{
    match attr(a, "action") {
        Some(v) => {
            let st = crate::text::chars_to_string(&v);
            Action::parse(Some(st.as_str()))
        },
        None => Action::parse(None),
    }
}

fn d_step_exec(e: &mut DExec, ev: &XmlEvent, Ghost(s): Ghost<DState>)
    requires
        d_rel(*old(e), s),
    ensures
        d_rel(*final(e), d_step(s, event_view(*ev))),
{
    mirror_exec(&mut e.capture, ev);
    let ghost s1 = DState { capture: mirror(s.capture, event_view(*ev)), ..s };
    match ev {
        XmlEvent::Start(n, a) => {
            if tag_is(n, "rule") {
                e.in_rule = true;
                e.rule_id = match attr(a, "id") {
                    Some(v) => crate::text::chars_to_string(&v),
                    None => String::new(),
                };
            } else if (tag_is(n, "pattern") || tag_is(n, "antipattern")) && e.in_rule {
                e.capture_is_anti = tag_is(n, "antipattern");
                e.capture_cs = crate::xml::attr_is_yes(a, "case_sensitive");
                e.capture = Some(Vec::new());
                assert(opt_events_view(e.capture) == Some(Seq::<XmlEventV>::empty()));
            } else if tag_is(n, "disambig") && e.in_rule {
                e.in_disambig = true;
                e.action = action_of(a);
                e.postag = opt_chars_string(attr(a, "postag"));
            } else if tag_is(n, "match") && e.in_disambig {
                e.has_match = true;
            }
        },
        XmlEvent::Empty(n, a) => {
            if tag_is(n, "disambig") && e.in_rule {
                e.action = action_of(a);
                e.postag = opt_chars_string(attr(a, "postag"));
            } else if tag_is(n, "wd") && e.in_disambig {
                let w = Wd {
                    lemma: opt_chars_string(attr(a, "lemma")),
                    pos: opt_chars_string(attr(a, "pos")),
                };
                let ghost wv = wd_views(e.wds@);
                e.wds.push(w);
                assert(wd_views(e.wds@) =~= wv.push(wd_view(w)));
            } else if tag_is(n, "match") && e.in_disambig {
                e.has_match = true;
            }
        },
        XmlEvent::End(n) => {
            if (tag_is(n, "pattern") || tag_is(n, "antipattern")) && e.capture.is_some() {
                let evs = e.capture.take().unwrap();
                let cap = Captured { events: evs, case_sensitive: e.capture_cs };
                if e.capture_is_anti {
                    let ghost av = e.antis@.map_values(|c: Captured| captured_view(c));
                    e.antis.push(cap);
                    assert(e.antis@.map_values(|c: Captured| captured_view(c)) =~= av.push(
                        captured_view(cap),
                    ));
                } else {
                    e.pattern = Some(cap);
                }
            } else if tag_is(n, "disambig") {
                e.in_disambig = false;
            } else if tag_is(n, "rule") && e.in_rule {
                let mut id = String::new();
                std::mem::swap(&mut id, &mut e.rule_id);
                let pat = e.pattern.take();
                let mut antis: Vec<Captured> = Vec::new();
                std::mem::swap(&mut antis, &mut e.antis);
                let mut wds: Vec<Wd> = Vec::new();
                std::mem::swap(&mut wds, &mut e.wds);
                let postag = e.postag.take();
                match pat {
                    Some(cap) => {
                        let r = build_drule(id, cap, antis, e.action, wds, postag, e.has_match);
                        let ghost rv = e.rules@;
                        e.rules.push(r);
                        assert forall|i: int| 0 <= i < e.rules@.len() implies drule_built(
                            #[trigger] e.rules@[i],
                            d_step(s, event_view(*ev)).rules[i],
                        ) by {
                            if i < rv.len() {
                                assert(e.rules@[i] == rv[i]);
                            }
                        }
                    },
                    None => {},
                }
                e.in_rule = false;
                e.in_disambig = false;
                e.action = Action::Replace;
                e.has_match = false;
                assert(wd_views(e.wds@) =~= Seq::<WdV>::empty());
                assert(e.antis@.map_values(|c: Captured| captured_view(c)) =~= Seq::<
                    CapturedV,
                >::empty());
            }
        },
        _ => {},
    }
}

/// Read a disambiguation file (entities already expanded): its `<rule>`s in
/// document order; an XML error anywhere makes the whole read fail.
pub fn parse_disambig_rules(xml: &str) -> (r: Result<Vec<DisambigRule>, String>)
    ensures
        match r {
            Err(e) => xml_error_text(xml_events(xml@).1) == Some(e@),
            Ok(rules) => xml_events(xml@).1 is None && {
                let st = d_run(xml_events(xml@).0, xml_events(xml@).0.len() as int);
                &&& rules@.len() == st.rules.len()
                &&& forall|i: int|
                    0 <= i < st.rules.len() ==> drule_built(#[trigger] rules@[i], st.rules[i])
            },
            },
        match r {
            Ok(rules) => forall|i: int|
                0 <= i < rules@.len() ==> (#[trigger] rules@[i]).unsupported@.len() == 0
                    ==> drule_wf(rules@[i]),
            Err(_) => true,
        },
{
    let (events, err) = read_events(xml);
    let ghost evs = events_view(events@);
    let mut e = DExec {
        rules: Vec::new(),
        in_rule: false,
        rule_id: String::new(),
        in_disambig: false,
        action: Action::Replace,
        postag: None,
        wds: Vec::new(),
        has_match: false,
        pattern: None,
        antis: Vec::new(),
        capture: None,
        capture_is_anti: false,
        capture_cs: false,
    };
    assert(wd_views(e.wds@) =~= Seq::<WdV>::empty());
    assert(e.antis@.map_values(|c: Captured| captured_view(c)) =~= Seq::<CapturedV>::empty());
    let mut i: usize = 0;
    while i < events.len()
        invariant
            i <= events@.len(),
            evs == events_view(events@),
            d_rel(e, d_run(evs, i as int)),
        decreases events.len() - i,
    {
        d_step_exec(&mut e, &events[i], Ghost(d_run(evs, i as int)));
        i += 1;
    }
    match error_text(&err) {
        Some(msg) => Err(msg),
        None => Ok(e.rules),
    }
}

} // verus!
