//! English POS tagger: dictionary readings overlaid with the manual
//! `added.txt`/`removed.txt` lists, plus the per-word case fallbacks
//! (lowercase, proper-noun capitalization, `in'` to `ing`).

use vstd::prelude::*;
use vstd::string::StringSliceAdditionalSpecFns;
use crate::casing::{
    all_uppercase_chars, mixed_case_chars, spec_all_uppercase, spec_mixed_case, spec_upper_first,
    upper_first_chars,
};
use crate::dict::{info_settings, lossy_utf8, Dictionary};
use crate::fsa::{header_check, parsed_from, FsaError};
use crate::text::{
    append_chars, chars_eq, chars_to_string, ends_with, has_suffix, lines, lines_chars, lit,
    lower_str, split_chars, split_on, str_chars, string_chars, to_lowercase_chars,
};

verus! {

/// One POS reading: base form (lemma) + tag.
pub type Reading = (String, String);

/// A line of a manual tagger file: `fullform`, `lemma`, `postag`.
pub struct ManualEntry {
    pub form: Vec<char>,
    pub lemma: String,
    pub pos: String,
}

/// The entry a manual-file line contributes: tab-separated, at least three
/// fields, non-empty full form; comments and blank lines contribute nothing.
pub open spec fn manual_line(line: Seq<char>) -> Option<(Seq<char>, Seq<char>, Seq<char>)> {
    if line.len() == 0 || line[0] == '#' {
        None
    } else {
        let parts = split_on(line, '\t');
        if parts.len() >= 3 && parts[0].len() > 0 {
            Some((parts[0], parts[1], parts[2]))
        } else {
            None
        }
    }
}

/// Entries of the first `n` lines, in file order.
pub open spec fn manual_fold(ls: Seq<Seq<char>>, n: int) -> Seq<(Seq<char>, Seq<char>, Seq<char>)>
    decreases n,
{
    if n <= 0 {
        Seq::empty()
    } else {
        let prev = manual_fold(ls, n - 1);
        match manual_line(ls[n - 1]) {
            Some(e) => prev.push(e),
            None => prev,
        }
    }
}

/// All entries of a manual tagger file.
pub open spec fn manual_entries(text: Seq<char>) -> Seq<(Seq<char>, Seq<char>, Seq<char>)> {
    manual_fold(lines(text), lines(text).len() as int)
}

pub open spec fn entry_view(e: ManualEntry) -> (Seq<char>, Seq<char>, Seq<char>) {
    (e.form@, e.lemma@, e.pos@)
}

/// Parse a manual tagger file (`added.txt`/`removed.txt`).
pub fn parse_manual(text: &str) -> (r: Vec<ManualEntry>)
    ensures
        r@.map_values(|e: ManualEntry| entry_view(e)) == manual_entries(text@),
{
    let t = str_chars(text);
    let ls = lines_chars(&t);
    let ghost lv = ls@.map_values(|v: Vec<char>| v@);
    let mut out: Vec<ManualEntry> = Vec::new();
    let mut i: usize = 0;
    while i < ls.len()
        invariant
            lv == ls@.map_values(|v: Vec<char>| v@),
            lv == lines(text@),
            i <= ls.len(),
            out@.map_values(|e: ManualEntry| entry_view(e)) == manual_fold(lv, i as int),
        decreases ls.len() - i,
    {
        let line = &ls[i];
        assert(line@ == lv[i as int]);
        let ghost prev = out@.map_values(|e: ManualEntry| entry_view(e));
        if line.len() == 0 || line[0] == '#' {
        } else {
            let parts = split_chars(line, '\t');
            let ghost pv = parts@.map_values(|v: Vec<char>| v@);
            assert(pv.len() == parts.len());
            if parts.len() >= 3 && parts[0].len() > 0 {
                assert(parts[0]@ == pv[0] && parts[1]@ == pv[1] && parts[2]@ == pv[2]);
                let e = ManualEntry {
                    form: crate::text::chars_vec(&parts[0]),
                    lemma: chars_to_string(&parts[1]),
                    pos: chars_to_string(&parts[2]),
                };
                out.push(e);
                assert(out@.map_values(|e: ManualEntry| entry_view(e)) =~= prev.push(
                    (pv[0], pv[1], pv[2]),
                ));
            }
        }
        i += 1;
    }
    out
}

/// Replace the final character of `s` with `c`.
pub open spec fn spec_replace_last(s: Seq<char>, c: char) -> Seq<char> {
    if s.len() == 0 {
        s
    } else {
        s.update(s.len() - 1, c)
    }
}

/// `s` with every U+2019 replaced by `'`.
pub open spec fn fold_apostrophes(s: Seq<char>) -> Seq<char> {
    s.map_values(|c: char| if c == '\u{2019}' { '\'' } else { c })
}

pub struct EnglishTagger {
    dict: Dictionary,
    added: Vec<ManualEntry>,
    removed: Vec<ManualEntry>,
}

/// Views of character-string pairs.
pub open spec fn pair_views(s: Seq<(Vec<char>, Vec<char>)>) -> Seq<(Seq<char>, Seq<char>)> {
    Seq::new(s.len(), |i: int| (s[i].0@, s[i].1@))
}

proof fn lemma_pair_views_push(s: Seq<(Vec<char>, Vec<char>)>, x: (Vec<char>, Vec<char>))
    ensures
        pair_views(s.push(x)) == pair_views(s).push((x.0@, x.1@)),
{
    assert(pair_views(s.push(x)) =~= pair_views(s).push((x.0@, x.1@)));
}

/// View of a reading as two character strings.
pub open spec fn reading_view(r: Reading) -> (Seq<char>, Seq<char>) {
    (r.0@, r.1@)
}

impl EnglishTagger {
    pub closed spec fn dictionary(self) -> Dictionary {
        self.dict
    }

    pub closed spec fn added_entries(self) -> Seq<(Seq<char>, Seq<char>, Seq<char>)> {
        self.added@.map_values(|e: ManualEntry| entry_view(e))
    }

    pub closed spec fn removed_entries(self) -> Seq<(Seq<char>, Seq<char>, Seq<char>)> {
        self.removed@.map_values(|e: ManualEntry| entry_view(e))
    }

    /// Dictionary readings of `w`.
    pub open spec fn dict_readings(self, w: Seq<char>) -> Seq<(Seq<char>, Seq<char>)> {
        self.dictionary().spec_lookup(vstd::utf8::encode_utf8(w)).map_values(
            |e: (Seq<u8>, Seq<u8>)| (lossy_utf8(e.0), lossy_utf8(e.1)),
        )
    }

    /// `(lemma, tag)` of the manual entries for full form `w`, in file order.
    pub open spec fn manual_for(
        es: Seq<(Seq<char>, Seq<char>, Seq<char>)>,
        w: Seq<char>,
    ) -> Seq<(Seq<char>, Seq<char>)>
        decreases es.len(),
    {
        if es.len() == 0 {
            Seq::empty()
        } else {
            let prev = Self::manual_for(es.drop_last(), w);
            if es.last().0 == w {
                prev.push((es.last().1, es.last().2))
            } else {
                prev
            }
        }
    }

    /// The readings of `s` that do not occur in `removed`, in order.
    pub open spec fn without(
        s: Seq<(Seq<char>, Seq<char>)>,
        removed: Seq<(Seq<char>, Seq<char>)>,
    ) -> Seq<(Seq<char>, Seq<char>)>
        decreases s.len(),
    {
        if s.len() == 0 {
            Seq::empty()
        } else {
            let prev = Self::without(s.drop_last(), removed);
            if removed.contains(s.last()) {
                prev
            } else {
                prev.push(s.last())
            }
        }
    }

    /// `(dict ∪ added) − removed` for one surface form, without deduplication.
    pub open spec fn spec_lookup(self, w: Seq<char>) -> Seq<(Seq<char>, Seq<char>)> {
        Self::without(
            self.dict_readings(w) + Self::manual_for(self.added_entries(), w),
            Self::manual_for(self.removed_entries(), w),
        )
    }

    /// Readings of `word` after the tagger's per-word logic; empty = untagged.
    pub open spec fn spec_tag(self, word: Seq<char>) -> Seq<(Seq<char>, Seq<char>)> {
        let w = if word.len() > 1 && word.contains('\u{2019}') {
            fold_apostrophes(word)
        } else {
            word
        };
        let lower = lower_str(w);
        let is_lower = w == lower;
        let mixed = spec_mixed_case(w);
        let all_upper = spec_all_uppercase(w);
        let l1 = self.spec_lookup(w);
        let l2 = if !is_lower && !mixed {
            l1 + self.spec_lookup(lower)
        } else {
            l1
        };
        let l3 = if l2.len() == 0 && all_upper {
            l2 + self.spec_lookup(spec_upper_first(lower))
        } else {
            l2
        };
        if l3.len() == 0 && ends_with(lower, "in'"@) {
            let corrected = spec_replace_last(w, if all_upper { 'G' } else { 'g' });
            let l4 = l3 + self.spec_lookup(corrected);
            if !is_lower && !mixed {
                l4 + self.spec_lookup(lower_str(corrected))
            } else {
                l4
            }
        } else {
            l3
        }
    }

    /// Load without manual additions/removals.
    pub fn load(dict_bytes: &[u8], info_text: &str) -> (r: Result<EnglishTagger, FsaError>)
        ensures
            match header_check(dict_bytes@) {
                Err(e) => r == Err::<EnglishTagger, FsaError>(e),
                Ok(_) => r is Ok && {
                    let t = r->Ok_0;
                    &&& parsed_from(t.dictionary().automaton(), dict_bytes@)
                    &&& (t.dictionary().sep(), t.dictionary().enc(), t.dictionary().freq())
                        == info_settings(info_text@)
                    &&& t.added_entries().len() == 0
                    &&& t.removed_entries().len() == 0
                },
            },
    {
        let r = Self::load_with_manual(dict_bytes, info_text, "", "");
        proof {
            reveal_strlit("");
            assert(lines(""@) =~= Seq::<Seq<char>>::empty()) by {
                assert(split_on(""@, '\n') == seq![Seq::<char>::empty()]);
            }
        }
        r
    }

    /// Load with `added.txt`/`removed.txt` overlays: effective readings are
    /// `(dict ∪ added) − removed`.
    pub fn load_with_manual(
        dict_bytes: &[u8],
        info_text: &str,
        added_txt: &str,
        removed_txt: &str,
    ) -> (r: Result<EnglishTagger, FsaError>)
        ensures
            match header_check(dict_bytes@) {
                Err(e) => r == Err::<EnglishTagger, FsaError>(e),
                Ok(_) => r is Ok && {
                    let t = r->Ok_0;
                    &&& parsed_from(t.dictionary().automaton(), dict_bytes@)
                    &&& (t.dictionary().sep(), t.dictionary().enc(), t.dictionary().freq())
                        == info_settings(info_text@)
                    &&& t.added_entries() == manual_entries(added_txt@)
                    &&& t.removed_entries() == manual_entries(removed_txt@)
                },
            },
    {
        let dict = Dictionary::load(dict_bytes, info_text)?;
        Ok(
            EnglishTagger {
                dict,
                added: parse_manual(added_txt),
                removed: parse_manual(removed_txt),
            },
        )
    }

    /// Manual `(lemma, tag)` pairs for `w` from `es`.
    fn manual_readings(es: &Vec<ManualEntry>, w: &[char]) -> (r: Vec<(Vec<char>, Vec<char>)>)
        ensures
            pair_views(r@) == Self::manual_for(
                es@.map_values(|e: ManualEntry| entry_view(e)),
                w@,
            ),
    {
        let ghost ev = es@.map_values(|e: ManualEntry| entry_view(e));
        let mut out: Vec<(Vec<char>, Vec<char>)> = Vec::new();
        let mut i: usize = 0;
        while i < es.len()
            invariant
                i <= es.len(),
                ev == es@.map_values(|e: ManualEntry| entry_view(e)),
                pair_views(out@) == Self::manual_for(ev.subrange(0, i as int), w@),
            decreases es.len() - i,
        {
            let ghost o0 = out@;
            assert(ev.subrange(0, i + 1).drop_last() =~= ev.subrange(0, i as int));
            let e = &es[i];
            assert(entry_view(*e) == ev[i as int]);
            if chars_eq(&e.form, w) {
                let a = string_chars(&e.lemma);
                let b = string_chars(&e.pos);
                out.push((a, b));
                proof {
                    lemma_pair_views_push(o0, (a, b));
                }
            }
            i += 1;
        }
        assert(ev.subrange(0, es.len() as int) =~= ev);
        out
    }

    /// The dictionary readings of `w`, as character strings.
    fn dict_lookup(&self, w: &[char]) -> (r: Vec<(Vec<char>, Vec<char>)>)
        ensures
            pair_views(r@) == self.dict_readings(w@),
    {
        let s = chars_to_string(w);
        let es = self.dict.lookup(s.as_str());
        let ghost target = self.dict_readings(w@);
        let mut out: Vec<(Vec<char>, Vec<char>)> = Vec::new();
        let mut i: usize = 0;
        while i < es.len()
            invariant
                i <= es.len(),
                s@ == w@,
                es@.len() == target.len(),
                target == self.dict_readings(w@),
                forall|k: int|
                    0 <= k < es@.len() ==> {
                        &&& es@[k].stem@ == lossy_utf8(
                            self.dictionary().spec_lookup(vstd::utf8::encode_utf8(w@))[k].0,
                        )
                        &&& es@[k].tag@ == lossy_utf8(
                            self.dictionary().spec_lookup(vstd::utf8::encode_utf8(w@))[k].1,
                        )
                    },
                pair_views(out@) == target.subrange(
                    0,
                    i as int,
                ),
            decreases es.len() - i,
        {
            let ghost o0 = out@;
            let a = string_chars(&es[i].stem);
            let b = string_chars(&es[i].tag);
            out.push((a, b));
            proof {
                lemma_pair_views_push(o0, (a, b));
                assert(target.subrange(0, i + 1) =~= target.subrange(0, i as int).push(
                    target[i as int],
                ));
            }
            i += 1;
        }
        assert(target.subrange(0, es@.len() as int) =~= target);
        out
    }

    /// Dictionary readings plus `added.txt`, minus `removed.txt`.
    fn lookup(&self, w: &[char]) -> (r: Vec<(Vec<char>, Vec<char>)>)
        ensures
            pair_views(r@) == self.spec_lookup(w@),
    {
        let mut all = self.dict_lookup(w);
        let extra = Self::manual_readings(&self.added, w);
        let removed = Self::manual_readings(&self.removed, w);
        let ghost rv = pair_views(removed@);
        let ghost base = pair_views(all@);
        let ghost ev = pair_views(extra@);
        let mut k: usize = 0;
        while k < extra.len()
            invariant
                k <= extra.len(),
                ev == pair_views(extra@),
                pair_views(all@) == base + ev.subrange(
                    0,
                    k as int,
                ),
            decreases extra.len() - k,
        {
            let ghost o0 = all@;
            let a = crate::text::chars_vec(&extra[k].0);
            let b = crate::text::chars_vec(&extra[k].1);
            all.push((a, b));
            proof {
                lemma_pair_views_push(o0, (a, b));
                assert(ev.subrange(0, k + 1) =~= ev.subrange(0, k as int).push(ev[k as int]));
                assert(base + ev.subrange(0, k + 1) =~= (base + ev.subrange(0, k as int)).push(
                    ev[k as int],
                ));
            }
            k += 1;
        }
        assert(ev.subrange(0, extra.len() as int) =~= ev);
        let ghost av = pair_views(all@);
        let mut out: Vec<(Vec<char>, Vec<char>)> = Vec::new();
        let mut i: usize = 0;
        while i < all.len()
            invariant
                i <= all.len(),
                av == pair_views(all@),
                rv == pair_views(removed@),
                pair_views(out@) == Self::without(av.subrange(0, i as int), rv),
            decreases all.len() - i,
        {
            let ghost o0 = out@;
            assert(av.subrange(0, i + 1).drop_last() =~= av.subrange(0, i as int));
            let mut hit = false;
            let mut j: usize = 0;
            while j < removed.len()
                invariant
                    j <= removed.len(),
                    i < all.len(),
                    rv == pair_views(removed@),
                    av == pair_views(all@),
                    hit == (exists|k: int| 0 <= k < j && rv[k] == av[i as int]),
                decreases removed.len() - j,
            {
                let m = chars_eq(&removed[j].0, &all[i].0) && chars_eq(&removed[j].1, &all[i].1);
                if m {
                    assert(rv[j as int] == av[i as int]);
                    hit = true;
                } else {
                    assert(rv[j as int] != av[i as int]);
                }
                j += 1;
            }
            assert(hit == rv.contains(av[i as int]));
            if !hit {
                let a = crate::text::chars_vec(&all[i].0);
                let b = crate::text::chars_vec(&all[i].1);
                out.push((a, b));
                proof {
                    lemma_pair_views_push(o0, (a, b));
                }
            }
            i += 1;
        }
        assert(av.subrange(0, all.len() as int) =~= av);
        out
    }

    /// Readings of a character string after the per-word logic.
    pub fn tag_chars(&self, word: &[char]) -> (r: Vec<(Vec<char>, Vec<char>)>)
        ensures
            pair_views(r@) == self.spec_tag(word@),
    {
        let mut w: Vec<char> = crate::text::chars_vec(word);
        if word.len() > 1 && crate::text::contains_char(word, '\u{2019}') {
            let mut k: usize = 0;
            while k < w.len()
                invariant
                    w@.len() == word@.len(),
                    k <= w.len(),
                    forall|j: int|
                        0 <= j < k ==> w@[j] == (if word@[j] == '\u{2019}' {
                            '\''
                        } else {
                            word@[j]
                        }),
                    forall|j: int| k <= j < w@.len() ==> w@[j] == word@[j],
                decreases w.len() - k,
            {
                if w[k] == '\u{2019}' {
                    w.set(k, '\'');
                }
                k += 1;
            }
            assert(w@ =~= fold_apostrophes(word@));
        }
        let lower = to_lowercase_chars(&w);
        let is_lower = chars_eq(&w, &lower);
        let mixed = mixed_case_chars(&w);
        let all_upper = all_uppercase_chars(&w);
        let mut l = self.lookup(&w);
        let ghost lv0 = pair_views(l@);
        if !is_lower && !mixed {
            let more = self.lookup(&lower);
            Self::extend_readings(&mut l, &more);
        }
        if l.len() == 0 && all_upper {
            let fu = upper_first_chars(&lower);
            let more = self.lookup(&fu);
            Self::extend_readings(&mut l, &more);
        }
        if l.len() == 0 && has_suffix(&lower, &lit("in'")) {
            let mut corrected = crate::text::chars_vec(&w);
            let n = corrected.len();
            if n > 0 {
                corrected.set(n - 1, if all_upper { 'G' } else { 'g' });
            }
            assert(corrected@ =~= spec_replace_last(w@, if all_upper { 'G' } else { 'g' }));
            let more = self.lookup(&corrected);
            Self::extend_readings(&mut l, &more);
            if !is_lower && !mixed {
                let cl = to_lowercase_chars(&corrected);
                let more2 = self.lookup(&cl);
                Self::extend_readings(&mut l, &more2);
            }
        }
        l
    }

    fn extend_readings(l: &mut Vec<(Vec<char>, Vec<char>)>, more: &Vec<(Vec<char>, Vec<char>)>)
        ensures
            pair_views(final(l)@) == pair_views(old(l)@) + pair_views(more@),
    {
        let ghost base = pair_views(l@);
        let ghost mv = pair_views(more@);
        let mut k: usize = 0;
        while k < more.len()
            invariant
                k <= more.len(),
                mv == pair_views(more@),
                pair_views(l@) == base + mv.subrange(
                    0,
                    k as int,
                ),
            decreases more.len() - k,
        {
            let a = crate::text::chars_vec(&more[k].0);
            let b = crate::text::chars_vec(&more[k].1);
            assert(a@ == more@[k as int].0@);
            assert(b@ == more@[k as int].1@);
            assert(mv[k as int] == (a@, b@));
            let ghost l0 = l@;
            l.push((a, b));
            proof {
                lemma_pair_views_push(l0, (a, b));
                assert(mv.subrange(0, k + 1) =~= mv.subrange(0, k as int).push(mv[k as int]));
                assert(base + mv.subrange(0, k + 1) =~= (base + mv.subrange(0, k as int)).push(
                    mv[k as int],
                ));
            }
            k += 1;
        }
        assert(mv.subrange(0, more.len() as int) =~= mv);
    }

    /// All POS readings for `word`; empty means untagged.
    pub fn tag_word(&self, word: &str) -> (r: Vec<Reading>)
        ensures
            r@.map_values(|x: Reading| reading_view(x)) == self.spec_tag(word@),
    {
        let rs = self.tag_chars(&str_chars(word));
        let ghost target = pair_views(rs@);
        let mut out: Vec<Reading> = Vec::new();
        let mut i: usize = 0;
        while i < rs.len()
            invariant
                i <= rs.len(),
                target == pair_views(rs@),
                out@.map_values(|x: Reading| reading_view(x)) == target.subrange(0, i as int),
            decreases rs.len() - i,
        {
            let ghost o0 = out@;
            let a = chars_to_string(&rs[i].0);
            let b = chars_to_string(&rs[i].1);
            out.push((a, b));
            proof {
                o0.lemma_push_map_commute(|x: Reading| reading_view(x), (a, b));
                assert(target.subrange(0, i + 1) =~= target.subrange(0, i as int).push(
                    target[i as int],
                ));
            }
            i += 1;
        }
        assert(target.subrange(0, rs.len() as int) =~= target);
        out
    }

    /// Whether the dictionary recognises `word` (any reading).
    pub fn is_tagged(&self, word: &str) -> (r: bool)
        ensures
            r == (self.spec_tag(word@).len() > 0),
    {
        let rs = self.tag_chars(&str_chars(word));
        rs.len() > 0
    }
}

/// A word's own readings always come first. A word that is neither all
/// lowercase nor mixed-case (a capitalised or all-capitals word) gets, right
/// after them, every reading of its lowercase form, and when it has any of
/// these the result is exactly these; a lowercase or mixed-case word with
/// readings of its own gets just those. An all-capitals word left without
/// readings by these gets first those of its lowercase form with the first
/// letter raised (FRANCE as France). (`’` counts as `'` in a word of more
/// than one character.)
pub proof fn lemma_tag_lowercase_readings(tg: EnglishTagger, word: Seq<char>)
    ensures
        ({
            let w = if word.len() > 1 {
                fold_apostrophes(word)
            } else {
                word
            };
            let own = tg.spec_lookup(w);
            let low = tg.spec_lookup(lower_str(w));
            let r = tg.spec_tag(word);
            &&& own.len() <= r.len() && r.take(own.len() as int) == own
            &&& (w != lower_str(w) && !spec_mixed_case(w)) ==> own.len() + low.len() <= r.len() && r.take(
                (own.len() + low.len()) as int,
            ) == own + low
            &&& (w != lower_str(w) && !spec_mixed_case(w) && own.len() + low.len() > 0) ==> r == own + low
            &&& ((w == lower_str(w) || spec_mixed_case(w)) && own.len() > 0) ==> r == own
            &&& (own.len() == 0 && (w == lower_str(w) || spec_mixed_case(w) || low.len() == 0)
                && spec_all_uppercase(w)) ==> {
                let up = tg.spec_lookup(spec_upper_first(lower_str(w)));
                up.len() <= r.len() && r.take(up.len() as int) == up
            }
        }),
{
    if word.len() > 1 && !word.contains('\u{2019}') {
        assert(fold_apostrophes(word) =~= word) by {
            assert forall|i: int| 0 <= i < word.len() implies fold_apostrophes(word)[i] == word[i] by {
                if word[i] == '\u{2019}' {
                    assert(word.contains('\u{2019}'));
                }
            }
        }
    }
    let w = if word.len() > 1 {
        fold_apostrophes(word)
    } else {
        word
    };
    let own = tg.spec_lookup(w);
    let low = tg.spec_lookup(lower_str(w));
    let r = tg.spec_tag(word);
    let l2 = if w != lower_str(w) && !spec_mixed_case(w) {
        own + low
    } else {
        own
    };
    assert(l2.take(own.len() as int) =~= own);
    assert(l2.take(l2.len() as int) =~= l2);
    assert forall|x: Seq<(Seq<char>, Seq<char>)>| #![auto] (l2 + x).take(l2.len() as int) == l2 && (l2
        + x).take(own.len() as int) == own by {
        assert((l2 + x).take(l2.len() as int) =~= l2);
        assert((l2 + x).take(own.len() as int) =~= own);
    }
    assert forall|x: Seq<(Seq<char>, Seq<char>)>, y: Seq<(Seq<char>, Seq<char>)>| #![auto] (l2 + x
        + y).take(l2.len() as int) == l2 && (l2 + x + y).take(own.len() as int) == own by {
        assert((l2 + x + y).take(l2.len() as int) =~= l2);
        assert((l2 + x + y).take(own.len() as int) =~= own);
    }
    if l2.len() == 0 {
        let up = tg.spec_lookup(spec_upper_first(lower_str(w)));
        assert(l2 + up =~= up);
        assert forall|x: Seq<(Seq<char>, Seq<char>)>| #![auto] (l2 + up + x).take(up.len() as int) == up by {
            assert((l2 + up + x).take(up.len() as int) =~= up);
        }
        assert(up.take(up.len() as int) =~= up);
    }
}

} // verus!
