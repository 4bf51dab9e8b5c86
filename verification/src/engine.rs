//! The checking engine: every structure the pipeline needs (tagger,
//! disambiguation rules, grammar rules, sentence segmenter, optional
//! synthesizer, optional spelling rule), built once from the data files'
//! contents and run on whole texts: segment, analyze, disambiguate, apply the
//! grammar rules and the spelling rule, then keep the enabled findings in
//! document order.

use vstd::prelude::*;
use crate::analyzed::{sentence_view, AnalyzedTokenReadings, TokenV};
use crate::analyzer::{dict_answers, spec_raw, Analyzer};
use crate::disambig::{apply_all, apply_all_spec, d_run, drule_built, drule_wf, parse_disambig_rules, DisambigRule};
use crate::entities::{expand, parse_entity_defs, spec_entity_defs, spec_expand};
use crate::fsa::{header_check, parsed_from, FsaError};
use crate::dict::info_settings;
use crate::tagger::manual_entries;
use crate::srx::{rules_from, srx_doc};
use crate::segmenter::compiled_rules;
use crate::synth::tag_list;
use crate::spelling::{listed_words, multiword_words, texts_words};
use crate::grammar::{
    all_findings, check_sentence, g_run, gm_views, grule_built, parse_grammar_rules, rule_wf, sort_findings,
    spec_filter_overlaps, stable_sort, GrammarMatch, GrammarMatchV, GrammarRule,
};
use crate::segmenter::{concat, spec_segments, Segmenter};
use crate::spelling::SpellRule;
use crate::srx::{decimal, decimal_chars, srx_error_text};
use crate::synth::Synthesizer;
use crate::tagger::EnglishTagger;
use crate::text::{append_chars, chars_to_string, has_suffix, lit, str_chars, sub_chars};
use crate::tokenizer::spec_tokenize;
use crate::xml::{string_views, xml_error_text, xml_events};

verus! {

/// Paths to the data files. Spelling and synthesis are optional.
pub struct EngineConfig {
    /// `english.dict`; `added.txt`, `removed.txt` and the `.info` file are read
    /// from beside it.
    pub dict: String,
    pub disambiguation_xml: String,
    pub grammar_xml: String,
    pub srx: String,
    /// `english_synth.dict` + `english_tags.txt` (both or neither).
    pub synth_dict: Option<String>,
    pub synth_tags: Option<String>,
    /// `en_US.dict`: enables the spelling rule.
    pub spell_dict: Option<String>,
    /// `ignore.txt` + `spelling*.txt`.
    pub spell_ignore: Vec<String>,
    /// `multiwords.txt`.
    pub spell_multiwords: Option<String>,
    /// `prohibit.txt`.
    pub spell_prohibit: Option<String>,
}

/// The contents of the spelling files.
pub struct SpellData {
    pub dict: Vec<u8>,
    pub info: String,
    pub ignore: Vec<String>,
    pub multiwords: String,
    pub prohibit: String,
}

/// The contents of the data files an engine is built from.
pub struct EngineData {
    pub dict: Vec<u8>,
    pub info: String,
    pub added: String,
    pub removed: String,
    pub disambiguation_xml: String,
    pub grammar_xml: String,
    pub srx: String,
    /// Synthesis dictionary, its `.info` text and the tag list.
    pub synth: Option<(Vec<u8>, String, String)>,
    pub spell: Option<SpellData>,
}

/// How a dictionary error is written: its variant name, with the version
/// number in parentheses.
pub open spec fn fsa_error_spec(e: FsaError) -> Seq<char> {
    match e {
        FsaError::BadMagic => "BadMagic"@,
        FsaError::UnsupportedVersion(v) => "UnsupportedVersion("@ + decimal(v as nat) + ")"@,
        FsaError::Truncated => "Truncated"@,
    }
}

pub fn fsa_error_text(e: FsaError) -> (r: String)
    ensures
        r@ == fsa_error_spec(e),
{
    let c = match e {
        FsaError::BadMagic => lit("BadMagic"),
        FsaError::UnsupportedVersion(v) => {
            let mut c = lit("UnsupportedVersion(");
            append_chars(&mut c, &decimal_chars(v as u64));
            append_chars(&mut c, &lit(")"));
            c
        },
        FsaError::Truncated => lit("Truncated"),
    };
    chars_to_string(&c)
}

/// `base_path` with its suffix `from` replaced by `to`, or the complaint that
/// it does not end in `from`.
pub open spec fn sibling_spec(base: Seq<char>, from: Seq<char>, to: Seq<char>) -> Result<Seq<char>, Seq<char>> {
    if crate::text::ends_with(base, from) {
        Ok(base.subrange(0, base.len() - from.len()) + to)
    } else {
        Err(base + " does not end in "@ + from)
    }
}

/// The path of a file beside `base_path` (e.g. `english.dict` gives
/// `english.info`).
pub fn sibling_path(base_path: &str, from: &str, to: &str) -> (r: Result<String, String>)
    ensures
        match r {
            Ok(p) => sibling_spec(base_path@, from@, to@) == Ok::<Seq<char>, Seq<char>>(p@),
            Err(m) => sibling_spec(base_path@, from@, to@) == Err::<Seq<char>, Seq<char>>(m@),
        },
{
    let b = str_chars(base_path);
    let f = str_chars(from);
    if has_suffix(&b, &f) {
        let mut c = sub_chars(&b, 0, b.len() - f.len());
        append_chars(&mut c, &str_chars(to));
        Ok(chars_to_string(&c))
    } else {
        let mut c = b;
        append_chars(&mut c, &lit(" does not end in "));
        append_chars(&mut c, &f);
        Err(chars_to_string(&c))
    }
}

/// A concatenation of messages.
pub open spec fn msg(prefix: Seq<char>, m: Seq<char>) -> Seq<char> {
    prefix + m
}

fn prefixed(prefix: &str, m: &String) -> (r: String)
    ensures
        r@ == msg(prefix@, m@),
{
    let mut c = str_chars(prefix);
    append_chars(&mut c, &crate::text::string_chars(m));
    chars_to_string(&c)
}

/// The loaded engine.
pub struct Engine {
    tagger: EnglishTagger,
    disambig: Vec<DisambigRule>,
    grammar: Vec<GrammarRule>,
    segmenter: Segmenter,
    synth: Option<Synthesizer>,
    spell: Option<SpellRule>,
}

/// Every supported rule is well-formed.
pub open spec fn rules_wf(d: Seq<DisambigRule>, g: Seq<GrammarRule>) -> bool {
    &&& forall|i: int| 0 <= i < d.len() ==> (#[trigger] d[i]).unsupported@.len() == 0 ==> drule_wf(d[i])
    &&& forall|i: int| 0 <= i < g.len() ==> (#[trigger] g[i]).unsupported@.len() == 0 ==> rule_wf(g[i])
}

/// The expanded text of a rule file (its own entity declarations applied).
pub open spec fn expanded(xml: Seq<char>) -> Seq<char> {
    spec_expand(xml, spec_entity_defs(xml))
}

pub open spec fn synth_dict_bytes(d: EngineData) -> Seq<u8> {
    match d.synth {
        Some(sy) => sy.0@,
        None => Seq::empty(),
    }
}

pub open spec fn spell_dict_bytes(d: EngineData) -> Seq<u8> {
    match d.spell {
        Some(sp) => sp.dict@,
        None => Seq::empty(),
    }
}

/// `rules` are the disambiguation rules read from `xml`.
pub open spec fn disambig_read(xml: Seq<char>, rules: Seq<DisambigRule>) -> bool {
    let st = d_run(xml_events(xml).0, xml_events(xml).0.len() as int);
    rules.len() == st.rules.len() && forall|i: int| 0 <= i < st.rules.len() ==> drule_built(#[trigger] rules[i], st.rules[i])
}

/// `rules` are the grammar rules read from `xml`.
pub open spec fn grammar_read(xml: Seq<char>, rules: Seq<GrammarRule>) -> bool {
    let st = g_run(xml_events(xml).0, xml_events(xml).0.len() as int);
    rules.len() == st.rules.len() && forall|i: int| 0 <= i < st.rules.len() ==> grule_built(#[trigger] rules[i], st.rules[i])
}

/// The first stage of building that fails, with its message.
pub open spec fn load_error(d: EngineData) -> Option<Seq<char>> {
    if header_check(d.dict@) is Err {
        Some(msg("tagger load: "@, fsa_error_spec(header_check(d.dict@)->Err_0)))
    } else if xml_events(expanded(d.disambiguation_xml@)).1 is Some {
        Some(msg("disambiguation parse: "@, xml_error_text(xml_events(expanded(d.disambiguation_xml@)).1)->0))
    } else if xml_events(expanded(d.grammar_xml@)).1 is Some {
        Some(msg("grammar parse: "@, xml_error_text(xml_events(expanded(d.grammar_xml@)).1)->0))
    } else if xml_events(d.srx@).1 is Some {
        Some(msg("srx parse: "@, srx_error_text(xml_events(d.srx@).1->0)))
    } else if d.synth is Some && header_check(synth_dict_bytes(d)) is Err {
        Some(msg("synthesizer load: "@, fsa_error_spec(header_check(synth_dict_bytes(d))->Err_0)))
    } else if d.spell is Some && header_check(spell_dict_bytes(d)) is Err {
        Some(msg("spell rule load: "@, fsa_error_spec(header_check(spell_dict_bytes(d))->Err_0)))
    } else {
        None
    }
}

impl Engine {
    #[verifier::type_invariant]
    closed spec fn inv(self) -> bool {
        rules_wf(self.disambig@, self.grammar@)
    }

    pub closed spec fn tagger_spec(self) -> EnglishTagger {
        self.tagger
    }

    pub closed spec fn disambig_rules(self) -> Seq<DisambigRule> {
        self.disambig@
    }

    pub closed spec fn grammar_rules(self) -> Seq<GrammarRule> {
        self.grammar@
    }

    pub closed spec fn segmenter_spec(self) -> Seq<(bool, Seq<char>)> {
        self.segmenter@
    }

    pub closed spec fn spell_rule(self) -> Option<SpellRule> {
        self.spell
    }

    pub closed spec fn synthesizer(self) -> Option<Synthesizer> {
        self.synth
    }

    /// Builds the engine from the data files' contents. Fails with the
    /// message of the first stage that fails ([`load_error`]): the tagger
    /// dictionary, the disambiguation file, the grammar file, the SRX file,
    /// the synthesizer, the spelling rule.
    pub fn load(data: &EngineData) -> (r: Result<Engine, String>)
        ensures
            match r {
                Err(m) => load_error(*data) == Some(m@),
                Ok(e) => {
                    &&& load_error(*data) is None
                    &&& parsed_from(e.tagger_spec().dictionary().automaton(), data.dict@)
                    &&& (e.tagger_spec().dictionary().sep(), e.tagger_spec().dictionary().enc(), e.tagger_spec().dictionary().freq())
                        == info_settings(data.info@)
                    &&& e.tagger_spec().added_entries() == manual_entries(data.added@)
                    &&& e.tagger_spec().removed_entries() == manual_entries(data.removed@)
                    &&& disambig_read(expanded(data.disambiguation_xml@), e.disambig_rules())
                    &&& grammar_read(expanded(data.grammar_xml@), e.grammar_rules())
                    &&& e.segmenter_spec() == compiled_rules(rules_from(srx_doc(data.srx@), "en-US"@, 0))
                    &&& match data.synth {
                        Some(sy) => e.synthesizer() matches Some(syn) && parsed_from(syn.dictionary().automaton(), sy.0@)
                            && syn.tag_universe() == tag_list(sy.2@),
                        None => e.synthesizer() is None,
                    }
                    &&& match data.spell {
                        Some(sp) => e.spell_rule() matches Some(sr) && parsed_from(sr.dictionary().automaton(), sp.dict@)
                            && sr.prohibited_set() == listed_words(sp.prohibit@)
                            && sr.ignored_set() == texts_words(sp.ignore@.map_values(|x: String| x@)).union(multiword_words(sp.multiwords@)),
                        None => e.spell_rule() is None,
                    }
                },
            },
    {
        let tagger = match EnglishTagger::load_with_manual(&data.dict, data.info.as_str(), data.added.as_str(), data.removed.as_str()) {
            Ok(t) => t,
            Err(e) => return Err(prefixed("tagger load: ", &fsa_error_text(e))),
        };
        let dx = data.disambiguation_xml.as_str();
        let dd = parse_entity_defs(dx);
        let dexp = expand(dx, &dd);
        let disambig = match parse_disambig_rules(dexp.as_str()) {
            Ok(v) => v,
            Err(e) => return Err(prefixed("disambiguation parse: ", &e)),
        };
        let gx = data.grammar_xml.as_str();
        let gd = parse_entity_defs(gx);
        let gexp = expand(gx, &gd);
        let grammar = match parse_grammar_rules(gexp.as_str()) {
            Ok(v) => v,
            Err(e) => return Err(prefixed("grammar parse: ", &e)),
        };
        let segmenter = match Segmenter::from_srx(data.srx.as_str(), "en-US") {
            Ok(s) => s,
            Err(e) => return Err(prefixed("srx parse: ", &e)),
        };
        let synth = match &data.synth {
            Some((sd, sinfo, stags)) => match Synthesizer::load(sd, sinfo.as_str(), stags.as_str()) {
                Ok(s) => Some(s),
                Err(e) => return Err(prefixed("synthesizer load: ", &fsa_error_text(e))),
            },
            None => None,
        };
        let spell = match &data.spell {
            Some(sp) => {
                let mut refs: Vec<&str> = Vec::new();
                let mut i: usize = 0;
                while i < sp.ignore.len()
                    invariant
                        i <= sp.ignore@.len(),
                        refs@.len() == i,
                        forall|k: int| 0 <= k < i ==> (#[trigger] refs@[k])@ == sp.ignore@[k]@,
                    decreases sp.ignore.len() - i,
                {
                    refs.push(sp.ignore[i].as_str());
                    i += 1;
                }
                assert(crate::spelling::str_views(refs@) =~= sp.ignore@.map_values(|x: String| x@));
                match SpellRule::load(&sp.dict, sp.info.as_str(), refs.as_slice(), sp.multiwords.as_str(), sp.prohibit.as_str()) {
                    Ok(r) => Some(r),
                    Err(e) => return Err(prefixed("spell rule load: ", &fsa_error_text(e))),
                }
            },
            None => None,
        };
        Ok(Engine { tagger, disambig, grammar, segmenter, synth, spell })
    }
}

// --- checking ---------------------------------------------------------------

/// The findings of one analyzed sentence `toks` of text `s` at offset `base`:
/// the grammar rules' after disambiguation, then the spelling rule's.
#[verifier::opaque]
pub open spec fn sentence_findings(
    d: Seq<DisambigRule>,
    g: Seq<GrammarRule>,
    spell: Option<SpellRule>,
    toks: Seq<TokenV>,
    s: Seq<char>,
    base: int,
) -> Seq<GrammarMatchV> {
    let t = apply_all_spec(d, toks);
    spec_filter_overlaps(all_findings(g, t, s, base)) + match spell {
        Some(sr) => sr.spell_findings(t, s, base),
        None => Seq::empty(),
    }
}

/// The findings of the first `k` sentences.
pub open spec fn findings_upto(
    d: Seq<DisambigRule>,
    g: Seq<GrammarRule>,
    spell: Option<SpellRule>,
    ts: Seq<Seq<TokenV>>,
    segs: Seq<Seq<char>>,
    k: int,
) -> Seq<GrammarMatchV>
    decreases k,
{
    if k <= 0 {
        Seq::empty()
    } else {
        findings_upto(d, g, spell, ts, segs, k - 1) + sentence_findings(
            d,
            g,
            spell,
            ts[k - 1],
            segs[k - 1],
            concat(segs.take(k - 1)).len() as int,
        )
    }
}

/// `keep` may answer `b` when asked about the rule and category ids of `m`.
pub open spec fn keep_answers<F: Fn(&str, &str) -> bool>(keep: F, m: GrammarMatchV, b: bool) -> bool {
    exists|x: &str, y: &str| x@ == m.rule_id && y@ == m.category_id && #[trigger] keep.ensures((x, y), b)
}

/// The findings of `v` whose answer in `picked` is yes, in order.
pub open spec fn picked_of(v: Seq<GrammarMatchV>, picked: Seq<bool>) -> Seq<GrammarMatchV>
    decreases v.len(),
{
    if v.len() == 0 || picked.len() == 0 {
        Seq::empty()
    } else {
        let rest = picked_of(v.drop_last(), picked.drop_last());
        if picked.last() {
            rest.push(v.last())
        } else {
            rest
        }
    }
}

/// `t` is the raw analysis of sentence `s` by `tg`: the tokens as the
/// dictionary's answers decide them, with their readings.
pub open spec fn analysis_of(tg: EnglishTagger, s: Seq<char>, t: Seq<TokenV>) -> bool {
    t == spec_raw(tg, spec_tokenize(dict_answers(tg), s))
}

/// `ts` are analyses of the sentences `segs` by `tg`.
pub open spec fn analyses_of(tg: EnglishTagger, segs: Seq<Seq<char>>, ts: Seq<Seq<TokenV>>) -> bool {
    ts.len() == segs.len() && forall|i: int| 0 <= i < ts.len() ==> #[trigger] analysis_of(tg, segs[i], ts[i])
}

proof fn lemma_concat_push(v: Seq<Seq<char>>, x: Seq<char>)
    ensures
        concat(v.push(x)) == concat(v) + x,
    decreases v.len(),
{
    if v.len() == 0 {
        let w = v.push(x);
        assert(w[0] == x);
        assert(w.drop_first() =~= Seq::<Seq<char>>::empty());
        assert(concat(w.drop_first()) =~= Seq::<char>::empty());
        assert(concat(w) =~= x);
        assert(concat(v) + x =~= x);
    } else {
        assert(v.push(x).drop_first() =~= v.drop_first().push(x));
        lemma_concat_push(v.drop_first(), x);
        assert(concat(v.push(x)) =~= v[0] + (concat(v.drop_first()) + x));
    }
}

proof fn lemma_concat_prefix(v: Seq<Seq<char>>, k: int)
    requires
        0 <= k <= v.len(),
    ensures
        concat(v.take(k)).len() <= concat(v).len(),
    decreases v.len() - k,
{
    if k < v.len() {
        assert(v.take(k + 1) =~= v.take(k).push(v[k]));
        lemma_concat_push(v.take(k), v[k]);
        lemma_concat_prefix(v, k + 1);
    } else {
        assert(v.take(k) =~= v);
    }
}

/// Asks `keep` once about each finding, in order, and keeps those it accepts.
fn keep_by<F: Fn(&str, &str) -> bool>(v: Vec<GrammarMatch>, keep: &F) -> (r: (Vec<GrammarMatch>, Ghost<Seq<bool>>))
    requires
        forall|x: &str, y: &str| #[trigger] keep.requires((x, y)),
    ensures
        r.1@.len() == v@.len(),
        forall|q: int| 0 <= q < v@.len() ==> #[trigger] keep_answers(*keep, gm_views(v@)[q], r.1@[q]),
        gm_views(r.0@) == picked_of(gm_views(v@), r.1@),
{
    let ghost vv = gm_views(v@);
    let mut out: Vec<GrammarMatch> = Vec::new();
    let mut rest = v;
    let ghost mut picked: Seq<bool> = Seq::empty();
    let ghost mut taken: int = 0;
    assert(picked_of(vv.take(0), picked) =~= Seq::<GrammarMatchV>::empty());
    while rest.len() > 0
        invariant
            0 <= taken <= vv.len(),
            forall|x: &str, y: &str| #[trigger] keep.requires((x, y)),
            gm_views(rest@) == vv.skip(taken),
            picked.len() == taken,
            forall|q: int| 0 <= q < taken ==> #[trigger] keep_answers(*keep, vv[q], picked[q]),
            gm_views(out@) == picked_of(vv.take(taken), picked),
        decreases rest.len(),
    {
        let ghost r0 = rest@;
        assert(gm_views(r0).len() == r0.len());
        assert(gm_views(r0)[0] == crate::grammar::gm_view(r0[0]));
        let m = rest.remove(0);
        let rid = m.rule_id.as_str();
        let cid = m.category_id.as_str();
        let b = keep(rid, cid);
        let ghost o0 = gm_views(out@);
        let ghost p0 = picked;
        proof {
            assert(vv.skip(taken)[0] == vv[taken]);
            assert(rid@ == vv[taken].rule_id && cid@ == vv[taken].category_id && keep.ensures((rid, cid), b));
            assert(keep_answers(*keep, vv[taken], b));
            assert(vv.take(taken + 1).drop_last() =~= vv.take(taken));
            assert(vv.take(taken + 1).last() == vv[taken]);
            picked = picked.push(b);
            assert(picked.drop_last() =~= p0);
        }
        if b {
            out.push(m);
            assert(gm_views(out@) =~= o0.push(crate::grammar::gm_view(m)));
        }
        proof {
            assert(gm_views(rest@) =~= vv.skip(taken + 1)) by {
                assert(gm_views(rest@) =~= gm_views(r0).drop_first());
            }
            assert forall|q: int| 0 <= q < taken + 1 implies #[trigger] keep_answers(*keep, vv[q], picked[q]) by {
                if q < taken {
                    assert(picked[q] == p0[q]);
                }
            }
            taken = taken + 1;
        }
    }
    assert(vv.take(taken) =~= vv);
    (out, Ghost(picked))
}

impl Engine {
    /// The findings of one sentence `s` at character offset `base`, and the
    /// analysis they were found in.
    fn check_text_sentence(&self, analyzer: &Analyzer, s: &str, base: usize) -> (r: (Vec<GrammarMatch>, Ghost<Seq<TokenV>>))
        requires
            base + s@.len() <= usize::MAX,
            analyzer.tagger_spec() == self.tagger_spec(),
        ensures
            analysis_of(self.tagger_spec(), s@, r.1@),
            gm_views(r.0@) == sentence_findings(self.disambig_rules(), self.grammar_rules(), self.spell_rule(), r.1@, s@, base as int),
    {
        proof {
            use_type_invariant(self);
            reveal(sentence_findings);
        }
        let mut t = analyzer.raw(s);
        let ghost tv = sentence_view(t@);
        apply_all(self.disambig.as_slice(), &mut t);
        let mut out = check_sentence(self.grammar.as_slice(), t.as_slice(), s, base);
        let ghost o1 = gm_views(out@);
        match &self.spell {
            Some(spell) => {
                let mut sm = spell.check_sentence(t.as_slice(), s, base);
                let ghost s0 = sm@;
                out.append(&mut sm);
                assert(gm_views(out@) =~= o1 + gm_views(s0));
            },
            None => {
                assert(o1 + Seq::<GrammarMatchV>::empty() =~= o1);
            },
        }
        (out, Ghost(tv))
    }
}

impl Engine {
    /// Runs the whole pipeline over `text`: the findings of every sentence,
    /// in document order, of which `keep` accepts each by its rule and
    /// category ids. `keep` is asked once per finding, in pipeline order.
    pub fn check<F: Fn(&str, &str) -> bool>(&self, text: &str, keep: F) -> (r: Vec<GrammarMatch>)
        requires
            forall|x: &str, y: &str| #[trigger] keep.requires((x, y)),
        ensures
            exists|ts: Seq<Seq<TokenV>>, picked: Seq<bool>|
                #![trigger picked_of(findings_upto(self.disambig_rules(), self.grammar_rules(), self.spell_rule(), ts, spec_segments(self.segmenter_spec(), text@), ts.len() as int), picked)]
                {
                    let all = findings_upto(
                        self.disambig_rules(),
                        self.grammar_rules(),
                        self.spell_rule(),
                        ts,
                        spec_segments(self.segmenter_spec(), text@),
                        ts.len() as int,
                    );
                    &&& analyses_of(self.tagger_spec(), spec_segments(self.segmenter_spec(), text@), ts)
                    &&& picked.len() == all.len()
                    &&& forall|q: int| 0 <= q < all.len() ==> #[trigger] keep_answers(keep, all[q], picked[q])
                    &&& gm_views(r@) == stable_sort(picked_of(all, picked))
                },
    {
        proof {
            use_type_invariant(self);
        }
        let n = str_chars(text).len();
        let analyzer = Analyzer::new(&self.tagger);
        let segs = self.segmenter.segment(text);
        let ghost sv = string_views(segs@);
        assert(concat(sv) == text@);
        let ghost d = self.disambig_rules();
        let ghost g = self.grammar_rules();
        let ghost sp = self.spell_rule();
        let ghost tg = self.tagger_spec();
        let ghost mut ts: Seq<Seq<TokenV>> = Seq::empty();
        let mut out: Vec<GrammarMatch> = Vec::new();
        let mut char_off: usize = 0;
        let mut i: usize = 0;
        assert(sv.take(0) =~= Seq::<Seq<char>>::empty());
        while i < segs.len()
            invariant
                i <= segs@.len(),
                sv == string_views(segs@),
                concat(sv).len() == n,
                d == self.disambig_rules(),
                g == self.grammar_rules(),
                sp == self.spell_rule(),
                tg == self.tagger_spec(),
                analyzer.tagger_spec() == tg,
                ts.len() == i,
                forall|q: int| 0 <= q < i ==> #[trigger] analysis_of(tg, sv[q], ts[q]),
                char_off as int == concat(sv.take(i as int)).len(),
                gm_views(out@) == findings_upto(d, g, sp, ts, sv, i as int),
            decreases segs.len() - i,
        {
            let s = segs[i].as_str();
            assert(sv[i as int] == s@);
            proof {
                assert(sv.take(i + 1) =~= sv.take(i as int).push(sv[i as int]));
                lemma_concat_push(sv.take(i as int), sv[i as int]);
                lemma_concat_prefix(sv, i + 1);
            }
            let slen = str_chars(s).len();
            let (mut found, Ghost(tv)) = self.check_text_sentence(&analyzer, s, char_off);
            let ghost o0 = gm_views(out@);
            let ghost f0 = found@;
            out.append(&mut found);
            assert(gm_views(out@) =~= o0 + gm_views(f0));
            proof {
                let ts0 = ts;
                ts = ts.push(tv);
                assert forall|q: int| 0 <= q < i + 1 implies #[trigger] analysis_of(tg, sv[q], ts[q]) by {
                    if q < i {
                        assert(ts[q] == ts0[q]);
                    }
                }
                lemma_findings_prefix(d, g, sp, ts0, ts, sv, i as int);
                assert(ts[i as int] == tv);
            }
            char_off = char_off + slen;
            i += 1;
        }
        assert(sv.take(i as int) =~= sv);
        let (kept, Ghost(picked)) = keep_by(out, &keep);
        let r = sort_findings(kept);
        assert(sv == spec_segments(self.segmenter_spec(), text@));
        assert(analyses_of(tg, sv, ts));
        assert(gm_views(r@) == stable_sort(picked_of(findings_upto(d, g, sp, ts, sv, ts.len() as int), picked)));
        r
    }
}

proof fn lemma_findings_prefix(
    d: Seq<DisambigRule>,
    g: Seq<GrammarRule>,
    sp: Option<SpellRule>,
    a: Seq<Seq<TokenV>>,
    b: Seq<Seq<TokenV>>,
    segs: Seq<Seq<char>>,
    k: int,
)
    requires
        0 <= k <= a.len(),
        k <= b.len(),
        forall|q: int| 0 <= q < k ==> a[q] == b[q],
    ensures
        findings_upto(d, g, sp, a, segs, k) == findings_upto(d, g, sp, b, segs, k),
    decreases k,
{
    if k > 0 {
        lemma_findings_prefix(d, g, sp, a, b, segs, k - 1);
    }
}

} // verus!
