//! The Morfologik synthesizer: the inverse of the tagger. Its dictionary's
//! keys are `lemma|postag` and the decoded stems are the surface forms; the
//! tag list is the universe searched when the wanted tag is a pattern.

use vstd::prelude::*;
use vstd::string::StringSliceAdditionalSpecFns;
use crate::dict::{info_settings, lossy_utf8, Dictionary};
use crate::fsa::{header_check, parsed_from, FsaError};
use crate::text::{append_chars, chars_to_string, lines, lines_chars, lit, str_chars, trim, trim_chars};
use crate::xml::string_views;

verus! {

/// A trimmed line that names a tag.
pub open spec fn tag_line() -> spec_fn(Seq<char>) -> bool {
    |t: Seq<char>| t.len() > 0 && t[0] != '#'
}

/// The tags of a tag list: trimmed lines, blank lines and `#` comments left out.
pub open spec fn tag_list(text: Seq<char>) -> Seq<Seq<char>> {
    lines(text).map_values(|l: Seq<char>| trim(l)).filter(tag_line())
}

pub struct Synthesizer {
    dict: Dictionary,
    tags: Vec<String>,
}

/// The surface forms stored for `lemma` with the tag `postag`.
pub open spec fn spec_synthesize(d: Dictionary, lemma: Seq<char>, postag: Seq<char>) -> Seq<Seq<char>> {
    d.spec_lookup(vstd::utf8::encode_utf8(lemma + "|"@ + postag)).map_values(
        |e: (Seq<u8>, Seq<u8>)| lossy_utf8(e.0),
    )
}

/// The forms for every tag whose `picked` flag is set, in tag order.
pub open spec fn forms_for(d: Dictionary, lemma: Seq<char>, tags: Seq<Seq<char>>, picked: Seq<bool>) -> Seq<
    Seq<char>,
>
    decreases tags.len(),
{
    if tags.len() == 0 || picked.len() == 0 {
        Seq::empty()
    } else {
        forms_for(d, lemma, tags.drop_last(), picked.drop_last()) + if picked.last() {
            spec_synthesize(d, lemma, tags.last())
        } else {
            Seq::empty()
        }
    }
}

/// `f` may answer `b` for a tag spelled `tag`.
pub open spec fn answered<F: Fn(&str) -> bool>(f: F, tag: Seq<char>, b: bool) -> bool {
    exists|t: &str| t@ == tag && #[trigger] f.ensures((t,), b)
}

impl Synthesizer {
    pub closed spec fn dictionary(self) -> Dictionary {
        self.dict
    }

    pub closed spec fn tag_universe(self) -> Seq<Seq<char>> {
        string_views(self.tags@)
    }

    /// Loads from the synthesis dictionary bytes, its `.info` text and the tag
    /// list (one tag per line).
    pub fn load(dict_bytes: &[u8], info_text: &str, tags_text: &str) -> (r: Result<Synthesizer, FsaError>)
        ensures
            match header_check(dict_bytes@) {
                Err(e) => r == Err::<Synthesizer, FsaError>(e),
                Ok(_) => r is Ok && {
                    let s = r->Ok_0;
                    &&& parsed_from(s.dictionary().automaton(), dict_bytes@)
                    &&& (s.dictionary().sep(), s.dictionary().enc(), s.dictionary().freq())
                        == info_settings(info_text@)
                    &&& s.tag_universe() == tag_list(tags_text@)
                },
            },
    {
        let dict = Dictionary::load(dict_bytes, info_text)?;
        let ls = lines_chars(&str_chars(tags_text));
        let ghost lv = lines(tags_text@);
        let ghost trimmed = lv.map_values(|l: Seq<char>| trim(l));
        let mut tags: Vec<String> = Vec::new();
        let mut i: usize = 0;
        while i < ls.len()
            invariant
                i <= ls@.len(),
                ls@.map_values(|v: Vec<char>| v@) == lv,
                trimmed == lv.map_values(|l: Seq<char>| trim(l)),
                string_views(tags@) == trimmed.take(i as int).filter(tag_line()),
            decreases ls.len() - i,
        {
            assert(ls@.map_values(|v: Vec<char>| v@)[i as int] == ls@[i as int]@);
            let t = trim_chars(&ls[i]);
            assert(t@ == trimmed[i as int]);
            let ghost g0 = string_views(tags@);
            assert(trimmed.take(i + 1).drop_last() =~= trimmed.take(i as int));
            assert(trimmed.take(i + 1).last() == t@);
            proof {
                reveal(Seq::filter);
            }
            if t.len() > 0 && t[0] != '#' {
                let st = chars_to_string(&t);
                tags.push(st);
                assert(string_views(tags@) =~= g0.push(st@));
            }
            i += 1;
        }
        assert(trimmed.take(i as int) =~= trimmed);
        Ok(Synthesizer { dict, tags })
    }

    /// The tag universe.
    pub fn tags(&self) -> (r: &[String])
        ensures
            string_views(r@) == self.tag_universe(),
    {
        self.tags.as_slice()
    }

    /// The surface forms for `lemma` with the tag `postag` (the key
    /// `lemma|postag`), in the dictionary's order.
    pub fn synthesize(&self, lemma: &str, postag: &str) -> (r: Vec<String>)
        ensures
            string_views(r@) == spec_synthesize(self.dictionary(), lemma@, postag@),
    {
        let mut key = str_chars(lemma);
        append_chars(&mut key, &lit("|"));
        append_chars(&mut key, &str_chars(postag));
        let ks = chars_to_string(&key);
        let entries = self.dict.lookup(ks.as_str());
        let ghost target = spec_synthesize(self.dictionary(), lemma@, postag@);
        let mut out: Vec<String> = Vec::new();
        let mut i: usize = 0;
        while i < entries.len()
            invariant
                i <= entries@.len(),
                ks@ == lemma@ + "|"@ + postag@,
                entries@.len() == self.dict.spec_lookup(vstd::utf8::encode_utf8(ks@)).len(),
                forall|k: int|
                    0 <= k < entries@.len() ==> (#[trigger] entries@[k]).stem@ == lossy_utf8(
                        self.dict.spec_lookup(vstd::utf8::encode_utf8(ks@))[k].0,
                    ),
                target == spec_synthesize(self.dictionary(), lemma@, postag@),
                string_views(out@) == target.take(i as int),
            decreases entries.len() - i,
        {
            let ghost o0 = string_views(out@);
            let stem = entries[i].stem.clone();
            out.push(stem);
            assert(string_views(out@) =~= o0.push(stem@));
            assert(target.take(i + 1) =~= target.take(i as int).push(target[i as int]));
            i += 1;
        }
        assert(target.take(i as int) =~= target);
        out
    }

    /// The forms for every tag of the universe that `matches` accepts, pooled
    /// in tag order (the path where the wanted tag is itself a pattern).
    pub fn synthesize_for_tags<F: Fn(&str) -> bool>(&self, lemma: &str, matches: F) -> (r: Vec<String>)
        requires
            forall|t: &str| #[trigger] matches.requires((t,)),
        ensures
            exists|picked: Seq<bool>|
                #![trigger forms_for(self.dictionary(), lemma@, self.tag_universe(), picked)]
                picked.len() == self.tag_universe().len() && (forall|i: int|
                    0 <= i < picked.len() ==> #[trigger] answered(matches, self.tag_universe()[i], picked[i]))
                    && string_views(r@) == forms_for(
                    self.dictionary(),
                    lemma@,
                    self.tag_universe(),
                    picked,
                ),
    {
        let ghost tv = self.tag_universe();
        let mut out: Vec<String> = Vec::new();
        let ghost mut picked: Seq<bool> = Seq::empty();
        let mut i: usize = 0;
        while i < self.tags.len()
            invariant
                i <= self.tags@.len(),
                tv == self.tag_universe(),
                tv == string_views(self.tags@),
                forall|t: &str| #[trigger] matches.requires((t,)),
                picked.len() == i,
                forall|k: int| 0 <= k < i ==> #[trigger] answered(matches, tv[k], picked[k]),
                string_views(out@) == forms_for(self.dictionary(), lemma@, tv.take(i as int), picked),
            decreases self.tags.len() - i,
        {
            let tag = self.tags[i].as_str();
            let b = matches(tag);
            let ghost o0 = string_views(out@);
            let ghost p0 = picked;
            if b {
                let forms = self.synthesize(lemma, tag);
                let mut k: usize = 0;
                while k < forms.len()
                    invariant
                        k <= forms@.len(),
                        string_views(out@) == o0 + string_views(forms@).take(k as int),
                    decreases forms.len() - k,
                {
                    let ghost o1 = string_views(out@);
                    let f = forms[k].clone();
                    out.push(f);
                    assert(string_views(out@) =~= o1.push(f@));
                    assert(string_views(forms@).take(k + 1) =~= string_views(forms@).take(k as int).push(forms@[k as int]@));
                    k += 1;
                }
                assert(string_views(forms@).take(k as int) =~= string_views(forms@));
            }
            proof {
                picked = picked.push(b);
                assert(tv[i as int] == tag@);
                assert(tv.take(i + 1).drop_last() =~= tv.take(i as int));
                assert(tv.take(i + 1).last() == tv[i as int]);
                assert(picked.drop_last() =~= p0);
                if !b {
                    assert(o0 + Seq::<Seq<char>>::empty() =~= o0);
                }
                assert forall|k: int| 0 <= k < i + 1 implies #[trigger] answered(matches, tv[k], picked[k]) by {
                    if k < i {
                        assert(picked[k] == p0[k]);
                        assert(answered(matches, tv[k], p0[k]));
                    } else {
                        assert(tag@ == tv[k] && matches.ensures((tag,), picked[k]));
                    }
                }
            }
            i += 1;
        }
        assert(tv.take(i as int) =~= tv);
        out
    }
}

} // verus!
