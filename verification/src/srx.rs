//! SRX (Segmentation Rules eXchange) documents: `<languagerules>` with ordered
//! break / no-break `<rule>`s, and `<maprules>` mapping a language code to rule
//! sets (with `cascade="yes"`, every matching map contributes).

use vstd::prelude::*;
use crate::regex::{compile_chars, regex_compiles, regex_is_match};
use crate::text::{chars_to_string, lit, str_chars, string_chars, chars_eq, append_chars};
use crate::xml::{
    attr, attr_spec, attrs_view, error_view, event_view, events_view, is_tag, read_events,
    tag_is, text_chars, text_of, unescape_chars, xml_events, xml_unescaped, XmlEvent, XmlEventV,
};

verus! {

/// One rule: whether a break occurs where the text before matches `before`
/// and the text after matches `after`.
#[derive(Debug, Clone)]
pub struct SrxRule {
    pub is_break: bool,
    pub before: String,
    pub after: String,
}

pub struct SrxRuleV {
    pub is_break: bool,
    pub before: Seq<char>,
    pub after: Seq<char>,
}

pub open spec fn srx_rule_view(r: SrxRule) -> SrxRuleV {
    SrxRuleV { is_break: r.is_break, before: r.before@, after: r.after@ }
}

pub open spec fn srx_rule_views(v: Seq<SrxRule>) -> Seq<SrxRuleV> {
    v.map_values(|r: SrxRule| srx_rule_view(r))
}

struct LanguageMap {
    pattern: String,
    rule_name: String,
}

/// A parsed document: the cascade flag, the named rule lists, and the
/// language maps `(pattern, rule list name)`.
pub struct SrxDocument {
    cascade: bool,
    rules_by_name: Vec<(String, Vec<SrxRule>)>,
    maps: Vec<LanguageMap>,
}

pub struct SrxDocV {
    pub cascade: bool,
    pub rules_by_name: Seq<(Seq<char>, Seq<SrxRuleV>)>,
    pub maps: Seq<(Seq<char>, Seq<char>)>,
}

pub open spec fn named_views(v: Seq<(String, Vec<SrxRule>)>) -> Seq<(Seq<char>, Seq<SrxRuleV>)> {
    v.map_values(|p: (String, Vec<SrxRule>)| (p.0@, srx_rule_views(p.1@)))
}

spec fn map_views(v: Seq<LanguageMap>) -> Seq<(Seq<char>, Seq<char>)> {
    v.map_values(|m: LanguageMap| (m.pattern@, m.rule_name@))
}

impl SrxDocument {
    pub closed spec fn view(self) -> SrxDocV {
        SrxDocV {
            cascade: self.cascade,
            rules_by_name: named_views(self.rules_by_name@),
            maps: map_views(self.maps@),
        }
    }
}

// --- reading ---------------------------------------------------------------

/// An attribute's value, unescaped (empty when it cannot be).
pub open spec fn attr_value(a: Seq<(Seq<u8>, Seq<u8>)>, key: Seq<char>) -> Option<Seq<char>> {
    match attr_spec(a, key) {
        Some(v) => Some(
            match xml_unescaped(v) {
                Some(u) => u,
                None => Seq::empty(),
            },
        ),
        None => None,
    }
}

/// The state of the reader.
pub struct SState {
    pub cascade: bool,
    pub rules_by_name: Seq<(Seq<char>, Seq<SrxRuleV>)>,
    pub maps: Seq<(Seq<char>, Seq<char>)>,
    pub cur_name: Option<Seq<char>>,
    pub cur_rules: Seq<SrxRuleV>,
    pub cur_break: bool,
    pub before: Seq<char>,
    pub after: Seq<char>,
    pub in_before: bool,
    pub in_after: bool,
}

pub open spec fn s_init() -> SState {
    SState {
        cascade: false,
        rules_by_name: Seq::empty(),
        maps: Seq::empty(),
        cur_name: None,
        cur_rules: Seq::empty(),
        cur_break: true,
        before: Seq::empty(),
        after: Seq::empty(),
        in_before: false,
        in_after: false,
    }
}

/// An opening (or empty) element.
pub open spec fn s_open(st: SState, n: Seq<u8>, a: Seq<(Seq<u8>, Seq<u8>)>) -> SState {
    if is_tag(n, "header"@) {
        SState {
            cascade: match attr_value(a, "cascade"@) {
                Some(v) => v == "yes"@,
                None => st.cascade,
            },
            ..st
        }
    } else if is_tag(n, "languagerule"@) {
        SState {
            cur_name: match attr_value(a, "languagerulename"@) {
                Some(v) => Some(v),
                None => st.cur_name,
            },
            cur_rules: Seq::empty(),
            ..st
        }
    } else if is_tag(n, "languagemap"@) {
        let pattern = match attr_value(a, "languagepattern"@) {
            Some(v) => v,
            None => Seq::empty(),
        };
        let name = match attr_value(a, "languagerulename"@) {
            Some(v) => v,
            None => Seq::empty(),
        };
        SState { maps: st.maps.push((pattern, name)), ..st }
    } else if is_tag(n, "rule"@) {
        SState {
            cur_break: match attr_value(a, "break"@) {
                Some(v) => v != "no"@,
                None => true,
            },
            before: Seq::empty(),
            after: Seq::empty(),
            ..st
        }
    } else if is_tag(n, "beforebreak"@) {
        SState { in_before: true, ..st }
    } else if is_tag(n, "afterbreak"@) {
        SState { in_after: true, ..st }
    } else {
        st
    }
}

/// A closing tag.
pub open spec fn s_close(st: SState, n: Seq<u8>) -> SState {
    if is_tag(n, "beforebreak"@) {
        SState { in_before: false, ..st }
    } else if is_tag(n, "afterbreak"@) {
        SState { in_after: false, ..st }
    } else if is_tag(n, "rule"@) {
        SState {
            cur_rules: st.cur_rules.push(
                SrxRuleV { is_break: st.cur_break, before: st.before, after: st.after },
            ),
            ..st
        }
    } else if is_tag(n, "languagerule"@) {
        match st.cur_name {
            Some(nm) => SState {
                rules_by_name: st.rules_by_name.push((nm, st.cur_rules)),
                cur_rules: Seq::empty(),
                cur_name: None,
                ..st
            },
            None => st,
        }
    } else {
        st
    }
}

/// One event; only character data counts as text (references are skipped).
pub open spec fn s_step(st: SState, ev: XmlEventV) -> SState {
    match ev {
        XmlEventV::Start(n, a) => s_open(st, n, a),
        XmlEventV::Empty(n, a) => s_open(st, n, a),
        XmlEventV::Text(raw) => if st.in_before {
            SState { before: st.before + text_of(raw), ..st }
        } else if st.in_after {
            SState { after: st.after + text_of(raw), ..st }
        } else {
            st
        },
        XmlEventV::End(n) => s_close(st, n),
        _ => st,
    }
}

pub open spec fn s_run(evs: Seq<XmlEventV>, n: int) -> SState
    decreases n,
{
    if n <= 0 {
        s_init()
    } else {
        s_step(s_run(evs, n - 1), evs[n - 1])
    }
}

/// The decimal digits of `n`.
pub open spec fn decimal(n: nat) -> Seq<char>
    decreases n,
{
    if n < 10 {
        seq![(('0' as u32) + n) as char]
    } else {
        decimal(n / 10).push((('0' as u32) + (n % 10)) as char)
    }
}

/// The message for a reading error: `XML error at <position>: <error>`.
pub open spec fn srx_error_text(e: (Seq<char>, int)) -> Seq<char> {
    "XML error at "@ + decimal(e.1 as nat) + ": "@ + e.0
}

/// The decimal digits of `n`.
pub fn decimal_chars(n: u64) -> (r: Vec<char>)
    ensures
        r@ == decimal(n as nat),
    decreases n,
{
    let d = (n % 10) as u32;
    let c = if d == 0 {
        '0'
    } else if d == 1 {
        '1'
    } else if d == 2 {
        '2'
    } else if d == 3 {
        '3'
    } else if d == 4 {
        '4'
    } else if d == 5 {
        '5'
    } else if d == 6 {
        '6'
    } else if d == 7 {
        '7'
    } else if d == 8 {
        '8'
    } else {
        '9'
    };
    assert(c == (('0' as u32) + (n % 10) as nat) as char);
    if n < 10 {
        vec![c]
    } else {
        let mut r = decimal_chars(n / 10);
        r.push(c);
        r
    }
}

struct SExec {
    cascade: bool,
    rules_by_name: Vec<(String, Vec<SrxRule>)>,
    maps: Vec<LanguageMap>,
    cur_name: Option<String>,
    cur_rules: Vec<SrxRule>,
    cur_break: bool,
    before: Vec<char>,
    after: Vec<char>,
    in_before: bool,
    in_after: bool,
}

spec fn s_rel(e: SExec, s: SState) -> bool {
    &&& e.cascade == s.cascade
    &&& named_views(e.rules_by_name@) == s.rules_by_name
    &&& map_views(e.maps@) == s.maps
    &&& crate::regex::opt_view(e.cur_name) == s.cur_name
    &&& srx_rule_views(e.cur_rules@) == s.cur_rules
    &&& e.cur_break == s.cur_break
    &&& e.before@ == s.before
    &&& e.after@ == s.after
    &&& e.in_before == s.in_before
    &&& e.in_after == s.in_after
}

fn attr_value_exec(a: &Vec<(Vec<u8>, Vec<u8>)>, key: &str) -> (r: Option<Vec<char>>)
    ensures
        match r {
            Some(v) => attr_value(attrs_view(a@), key@) == Some(v@),
            None => attr_value(attrs_view(a@), key@) is None,
        },
{
    match attr(a, key) {
        Some(v) => match unescape_chars(&v) {
            Some(u) => Some(u),
            None => Some(Vec::new()),
        },
        None => None,
    }
}

fn s_open_exec(e: SExec, n: &Vec<u8>, a: &Vec<(Vec<u8>, Vec<u8>)>, Ghost(s): Ghost<SState>) -> (r: SExec)
    requires
        s_rel(e, s),
    ensures
        s_rel(r, s_open(s, n@, attrs_view(a@))),
{
    let mut e = e;
    if tag_is(n, "header") {
        match attr_value_exec(a, "cascade") {
            Some(v) => {
                e.cascade = chars_eq(&v, &lit("yes"));
            },
            None => {},
        }
    } else if tag_is(n, "languagerule") {
        match attr_value_exec(a, "languagerulename") {
            Some(v) => {
                e.cur_name = Some(chars_to_string(&v));
            },
            None => {},
        }
        e.cur_rules = Vec::new();
        assert(srx_rule_views(e.cur_rules@) =~= Seq::<SrxRuleV>::empty());
    } else if tag_is(n, "languagemap") {
        let pattern = match attr_value_exec(a, "languagepattern") {
            Some(v) => chars_to_string(&v),
            None => String::new(),
        };
        let rule_name = match attr_value_exec(a, "languagerulename") {
            Some(v) => chars_to_string(&v),
            None => String::new(),
        };
        let ghost mv = map_views(e.maps@);
        let m = LanguageMap { pattern, rule_name };
        e.maps.push(m);
        assert(map_views(e.maps@) =~= mv.push((m.pattern@, m.rule_name@)));
    } else if tag_is(n, "rule") {
        e.cur_break = match attr_value_exec(a, "break") {
            Some(v) => !chars_eq(&v, &lit("no")),
            None => true,
        };
        e.before = Vec::new();
        e.after = Vec::new();
    } else if tag_is(n, "beforebreak") {
        e.in_before = true;
    } else if tag_is(n, "afterbreak") {
        e.in_after = true;
    }
    e
}

fn s_close_exec(e: SExec, n: &Vec<u8>, Ghost(s): Ghost<SState>) -> (r: SExec)
    requires
        s_rel(e, s),
    ensures
        s_rel(r, s_close(s, n@)),
{
    let mut e = e;
    if tag_is(n, "beforebreak") {
        e.in_before = false;
    } else if tag_is(n, "afterbreak") {
        e.in_after = false;
    } else if tag_is(n, "rule") {
        let r = SrxRule {
            is_break: e.cur_break,
            before: chars_to_string(&e.before),
            after: chars_to_string(&e.after),
        };
        let ghost cv = srx_rule_views(e.cur_rules@);
        e.cur_rules.push(r);
        assert(srx_rule_views(e.cur_rules@) =~= cv.push(srx_rule_view(r)));
    } else if tag_is(n, "languagerule") {
        match e.cur_name {
            Some(nm) => {
                let mut rules: Vec<SrxRule> = Vec::new();
                std::mem::swap(&mut rules, &mut e.cur_rules);
                let ghost nv = named_views(e.rules_by_name@);
                let ghost rv = srx_rule_views(rules@);
                e.rules_by_name.push((nm, rules));
                assert(named_views(e.rules_by_name@) =~= nv.push((nm@, rv)));
                assert(srx_rule_views(e.cur_rules@) =~= Seq::<SrxRuleV>::empty());
                e.cur_name = None;
            },
            None => {},
        }
    }
    e
}

fn s_step_exec(e: SExec, ev: &XmlEvent, Ghost(s): Ghost<SState>) -> (r: SExec)
    requires
        s_rel(e, s),
    ensures
        s_rel(r, s_step(s, event_view(*ev))),
{
    match ev {
        XmlEvent::Start(n, a) => s_open_exec(e, n, a, Ghost(s)),
        XmlEvent::Empty(n, a) => s_open_exec(e, n, a, Ghost(s)),
        XmlEvent::Text(raw) => {
            let mut e = e;
            if e.in_before {
                let t = text_chars(raw);
                append_chars(&mut e.before, &t);
            } else if e.in_after {
                let t = text_chars(raw);
                append_chars(&mut e.after, &t);
            }
            e
        },
        XmlEvent::End(n) => s_close_exec(e, n, Ghost(s)),
        _ => e,
    }
}

/// The document read from an SRX text without reading errors.
pub open spec fn srx_doc(xml: Seq<char>) -> SrxDocV {
    let st = s_run(xml_events(xml).0, xml_events(xml).0.len() as int);
    SrxDocV { cascade: st.cascade, rules_by_name: st.rules_by_name, maps: st.maps }
}

impl SrxDocument {
    /// Reads an SRX document. Fails, with `XML error at <position>: <error>`,
    /// where the XML is malformed; otherwise the document is what [`s_run`]
    /// reads from its events.
    pub fn parse(xml: &str) -> (r: Result<SrxDocument, String>)
        ensures
            match r {
                Err(m) => xml_events(xml@).1 matches Some(err) && m@ == srx_error_text(err),
                Ok(doc) => xml_events(xml@).1 is None && doc@ == srx_doc(xml@),
            },
    {
        let (events, err) = read_events(xml);
        match err {
            Some((msg, pos)) => {
                let mut m = lit("XML error at ");
                append_chars(&mut m, &decimal_chars(pos));
                append_chars(&mut m, &lit(": "));
                append_chars(&mut m, &string_chars(&msg));
                return Err(chars_to_string(&m));
            },
            None => {},
        }
        let ghost evs = events_view(events@);
        let mut e = SExec {
            cascade: false,
            rules_by_name: Vec::new(),
            maps: Vec::new(),
            cur_name: None,
            cur_rules: Vec::new(),
            cur_break: true,
            before: Vec::new(),
            after: Vec::new(),
            in_before: false,
            in_after: false,
        };
        assert(named_views(e.rules_by_name@) =~= Seq::<(Seq<char>, Seq<SrxRuleV>)>::empty());
        assert(map_views(e.maps@) =~= Seq::<(Seq<char>, Seq<char>)>::empty());
        assert(srx_rule_views(e.cur_rules@) =~= Seq::<SrxRuleV>::empty());
        let mut i: usize = 0;
        while i < events.len()
            invariant
                i <= events@.len(),
                evs == events_view(events@),
                s_rel(e, s_run(evs, i as int)),
            decreases events.len() - i,
        {
            e = s_step_exec(e, &events[i], Ghost(s_run(evs, i as int)));
            i += 1;
        }
        Ok(SrxDocument { cascade: e.cascade, rules_by_name: e.rules_by_name, maps: e.maps })
    }
}

// --- choosing the rules for a language ---------------------------------------

/// `^(?:pattern)$`.
pub open spec fn anchored(p: Seq<char>) -> Seq<char> {
    "^(?:"@ + p + ")$"@
}

/// Java `String.matches`: the whole text matches the pattern (a pattern that
/// does not compile, or an engine error, matches nothing).
pub open spec fn full_match_spec(p: Seq<char>, t: Seq<char>) -> bool {
    regex_compiles(anchored(p)) && regex_is_match(anchored(p), t) == Some(true)
}

/// Whether the whole of `text` matches `pattern`.
pub fn full_match(pattern: &str, text: &str) -> (r: bool)
    ensures
        r == full_match_spec(pattern@, text@),
{
    let mut a = lit("^(?:");
    append_chars(&mut a, &str_chars(pattern));
    append_chars(&mut a, &lit(")$"));
    match compile_chars(&a) {
        Some(re) => match re.is_match(text) {
            Some(b) => b,
            None => false,
        },
        None => false,
    }
}

/// The rules of the first list called `name`, or none.
pub open spec fn named_rules(named: Seq<(Seq<char>, Seq<SrxRuleV>)>, name: Seq<char>) -> Seq<SrxRuleV>
    decreases named.len(),
{
    if named.len() == 0 {
        Seq::empty()
    } else if named[0].0 == name {
        named[0].1
    } else {
        named_rules(named.drop_first(), name)
    }
}

/// The rules for `lang` from map `i` on: each map whose pattern fully matches
/// contributes its list; without cascade only the first such map counts.
pub open spec fn rules_from(doc: SrxDocV, lang: Seq<char>, i: int) -> Seq<SrxRuleV>
    decreases doc.maps.len() - i,
{
    if i < 0 || i >= doc.maps.len() {
        Seq::empty()
    } else if full_match_spec(doc.maps[i].0, lang) {
        named_rules(doc.rules_by_name, doc.maps[i].1) + if doc.cascade {
            rules_from(doc, lang, i + 1)
        } else {
            Seq::empty()
        }
    } else {
        rules_from(doc, lang, i + 1)
    }
}

fn copy_rules(v: &Vec<SrxRule>, out: &mut Vec<SrxRule>)
    ensures
        srx_rule_views(final(out)@) == srx_rule_views(old(out)@) + srx_rule_views(v@),
{
    let ghost o0 = srx_rule_views(out@);
    let mut i: usize = 0;
    while i < v.len()
        invariant
            i <= v@.len(),
            srx_rule_views(out@) == o0 + srx_rule_views(v@).take(i as int),
        decreases v.len() - i,
    {
        let r = SrxRule {
            is_break: v[i].is_break,
            before: v[i].before.clone(),
            after: v[i].after.clone(),
        };
        let ghost ov = srx_rule_views(out@);
        out.push(r);
        assert(srx_rule_views(out@) =~= ov.push(srx_rule_view(r)));
        assert(srx_rule_views(v@).take(i + 1) =~= srx_rule_views(v@).take(i as int).push(
            srx_rule_view(v@[i as int]),
        ));
        i += 1;
    }
    assert(srx_rule_views(v@).take(i as int) =~= srx_rule_views(v@));
}

impl SrxDocument {
    /// The index of the first rule list called `name`.
    fn find_named(&self, name: &String) -> (r: Option<usize>)
        ensures
            match r {
                Some(k) => k < self.rules_by_name@.len() && named_rules(self@.rules_by_name, name@)
                    == srx_rule_views(self.rules_by_name@[k as int].1@),
                None => named_rules(self@.rules_by_name, name@) == Seq::<SrxRuleV>::empty(),
            },
    {
        let ghost nv = self@.rules_by_name;
        let nc = string_chars(name);
        let mut k: usize = 0;
        assert(nv.skip(0) =~= nv);
        while k < self.rules_by_name.len()
            invariant
                k <= self.rules_by_name@.len(),
                nv == self@.rules_by_name,
                nc@ == name@,
                named_rules(nv, name@) == named_rules(nv.skip(k as int), name@),
            decreases self.rules_by_name.len() - k,
        {
            assert(nv.skip(k as int)[0] == (self.rules_by_name@[k as int].0@, srx_rule_views(
                self.rules_by_name@[k as int].1@,
            )));
            if chars_eq(&string_chars(&self.rules_by_name[k].0), &nc) {
                return Some(k);
            }
            assert(nv.skip(k as int).drop_first() =~= nv.skip(k + 1));
            k += 1;
        }
        assert(nv.skip(k as int) =~= Seq::<(Seq<char>, Seq<SrxRuleV>)>::empty());
        None
    }

    /// The ordered, concatenated rule list that applies to `lang_code`.
    pub fn rules_for(&self, lang_code: &str) -> (r: Vec<SrxRule>)
        ensures
            srx_rule_views(r@) == rules_from(self@, lang_code@, 0),
    {
        let ghost d = self@;
        let mut out: Vec<SrxRule> = Vec::new();
        let mut i: usize = 0;
        assert(srx_rule_views(out@) =~= Seq::<SrxRuleV>::empty());
        while i < self.maps.len()
            invariant
                i <= self.maps@.len(),
                d == self@,
                srx_rule_views(out@) + rules_from(d, lang_code@, i as int) == rules_from(d, lang_code@, 0),
            decreases self.maps.len() - i,
        {
            let m = &self.maps[i];
            assert(d.maps[i as int] == (m.pattern@, m.rule_name@));
            if full_match(m.pattern.as_str(), lang_code) {
                let ghost before = srx_rule_views(out@);
                match self.find_named(&m.rule_name) {
                    Some(k) => {
                        copy_rules(&self.rules_by_name[k].1, &mut out);
                    },
                    None => {
                        assert(before + named_rules(d.rules_by_name, m.rule_name@) =~= before);
                    },
                }
                assert(srx_rule_views(out@) == before + named_rules(d.rules_by_name, m.rule_name@));
                if !self.cascade {
                    assert(srx_rule_views(out@) + Seq::<SrxRuleV>::empty() =~= srx_rule_views(out@));
                    return out;
                }
                assert(before + named_rules(d.rules_by_name, m.rule_name@) + rules_from(d, lang_code@, i + 1) =~= before + (named_rules(d.rules_by_name, m.rule_name@) + rules_from(d, lang_code@, i + 1)));
            }
            i += 1;
        }
        assert(rules_from(d, lang_code@, i as int) =~= Seq::<SrxRuleV>::empty());
        assert(srx_rule_views(out@) + Seq::<SrxRuleV>::empty() =~= srx_rule_views(out@));
        out
    }
}

} // verus!
