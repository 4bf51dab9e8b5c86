//! Dictionary layer on top of the CFSA2 automaton: `.info` metadata, word
//! membership (spelling) and SUFFIX-encoded stem/tag decoding (POS).
//!
//! A POS dictionary stores `inflected SEP encodedStem SEP tag`; a spelling
//! dictionary stores `word SEP frequencyByte`.

use vstd::prelude::*;
use vstd::string::StringSliceAdditionalSpecFns;
use crate::fsa::{Cfsa2, FsaError, header_check, parsed_from, same_automaton, lemma_same_lookup};
use crate::text::{
    chars_eq, chars_to_string, find_char, lines, lines_chars, lit, split_acc, split_on, str_chars,
    sub_chars, trim, trim_chars,
};

verus! {

/// The base-form encoder declared by `fsa.dict.encoder`.
#[derive(Debug, Clone, Copy, PartialEq, Eq)]
pub enum Encoder {
    /// No relative encoding: the field after the separator is the literal base.
    Unencoded,
    /// Trim N trailing bytes from the inflected form, then append a suffix.
    Suffix,
    Prefix,
    Infix,
}

/// `fsa.dict.encoder` value, trimmed.
pub open spec fn spec_encoder(s: Seq<char>) -> Encoder {
    let t = trim(s);
    if t == "SUFFIX"@ {
        Encoder::Suffix
    } else if t == "PREFIX"@ {
        Encoder::Prefix
    } else if t == "INFIX"@ {
        Encoder::Infix
    } else {
        Encoder::Unencoded
    }
}

impl Encoder {
    pub fn parse(s: &[char]) -> (r: Encoder)
        ensures
            r == spec_encoder(s@),
    {
        let t = trim_chars(s);
        if chars_eq(&t, &lit("SUFFIX")) {
            Encoder::Suffix
        } else if chars_eq(&t, &lit("PREFIX")) {
            Encoder::Prefix
        } else if chars_eq(&t, &lit("INFIX")) {
            Encoder::Infix
        } else {
            Encoder::Unencoded
        }
    }
}

/// A decoded stemming entry: the base (lemma) and its POS tag.
#[derive(Debug, Clone, PartialEq, Eq)]
pub struct DictEntry {
    pub stem: String,
    pub tag: String,
}

/// Name for `String::from_utf8_lossy` of a byte string.
pub uninterp spec fn lossy_utf8(b: Seq<u8>) -> Seq<char>;

/// Wraps `String::from_utf8_lossy`: valid UTF-8 decodes exactly; otherwise the
/// named lossy decoding (invalid sequences become U+FFFD).
#[verifier::external_body]
pub(crate) fn utf8_lossy(b: &[u8]) -> (s: String)
    ensures
        s@ == lossy_utf8(b@),
        vstd::utf8::valid_utf8(b@) ==> s@ == vstd::utf8::decode_utf8(b@),
{
    String::from_utf8_lossy(b).into_owned()
}

/// ASCII lowercase of one character.
pub open spec fn ascii_lower(c: char) -> char {
    if 'A' <= c <= 'Z' {
        ((c as u8) + 32) as char
    } else {
        c
    }
}

/// `str::eq_ignore_ascii_case`.
pub open spec fn eq_ignore_ascii_case(a: Seq<char>, b: Seq<char>) -> bool {
    a.len() == b.len() && forall|i: int| 0 <= i < a.len() ==> ascii_lower(a[i]) == ascii_lower(
        b[i],
    )
}

pub fn ascii_lower_char(c: char) -> (r: char)
    ensures
        r == ascii_lower(c),
{
    if 'A' <= c && c <= 'Z' {
        ((c as u8) + 32) as char
    } else {
        c
    }
}

pub fn chars_eq_ignore_ascii_case(a: &[char], b: &[char]) -> (r: bool)
    ensures
        r == eq_ignore_ascii_case(a@, b@),
{
    if a.len() != b.len() {
        return false;
    }
    let mut i: usize = 0;
    while i < a.len()
        invariant
            a.len() == b.len(),
            i <= a.len(),
            forall|k: int| 0 <= k < i ==> ascii_lower(a@[k]) == ascii_lower(b@[k]),
        decreases a.len() - i,
    {
        if ascii_lower_char(a[i]) != ascii_lower_char(b[i]) {
            return false;
        }
        i += 1;
    }
    true
}

/// Dictionary settings read from a `.info` file.
pub struct InfoSettings {
    pub separator: u8,
    pub encoder: Encoder,
    pub frequency_included: bool,
}

/// First UTF-8 byte of a string, if any.
pub open spec fn first_byte(s: Seq<char>) -> Option<u8> {
    let b = vstd::utf8::encode_utf8(s);
    if b.len() > 0 {
        Some(b[0])
    } else {
        None
    }
}

/// Effect of one `.info` line on the settings `(separator, encoder, freq)`.
pub open spec fn info_step(st: (u8, Encoder, bool), raw: Seq<char>) -> (u8, Encoder, bool) {
    let line = trim(raw);
    if line.len() == 0 || line[0] == '#' || !line.contains('=') {
        st
    } else {
        let parts = split_on(line, '=');
        let key = trim(parts[0]);
        let val = line.skip(parts[0].len() as int + 1);
        if key == "fsa.dict.separator"@ {
            match first_byte(trim(val)) {
                Some(c) => (c, st.1, st.2),
                None => st,
            }
        } else if key == "fsa.dict.encoder"@ {
            (st.0, spec_encoder(val), st.2)
        } else if key == "fsa.dict.frequency-included"@ {
            (st.0, st.1, eq_ignore_ascii_case(trim(val), "true"@))
        } else {
            st
        }
    }
}

/// Settings after the first `n` lines, starting from the defaults
/// (`+`, no encoder, no frequencies).
pub open spec fn info_fold(ls: Seq<Seq<char>>, n: int) -> (u8, Encoder, bool)
    decreases n,
{
    if n <= 0 {
        (0x2bu8, Encoder::Unencoded, false)
    } else {
        info_step(info_fold(ls, n - 1), ls[n - 1])
    }
}

/// Settings declared by a whole `.info` text.
pub open spec fn info_settings(info: Seq<char>) -> (u8, Encoder, bool) {
    info_fold(lines(info), lines(info).len() as int)
}

proof fn lemma_split_first_prefix(cur: Seq<char>, rest: Seq<char>, c: char)
    requires
        !cur.contains(c),
    ensures
        split_acc(cur, rest, c)[0].len() >= cur.len(),
        split_acc(cur, rest, c)[0].subrange(0, cur.len() as int) == cur,
        !split_acc(cur, rest, c)[0].contains(c),
        rest.contains(c) ==> ({
            let k = split_acc(cur, rest, c)[0].len() - cur.len();
            &&& 0 <= k < rest.len()
            &&& rest[k] == c
            &&& split_acc(cur, rest, c)[0] == cur + rest.subrange(0, k)
        }),
        !rest.contains(c) ==> split_acc(cur, rest, c)[0] == cur + rest,
    decreases rest.len(),
{
    if rest.len() == 0 {
        assert(cur + rest =~= cur);
    } else if rest[0] == c {
        assert(cur + rest.subrange(0, 0) =~= cur);
        assert(split_acc(cur, rest, c)[0] == cur);
    } else {
        let c2 = cur.push(rest[0]);
        assert(!c2.contains(c)) by {
            if c2.contains(c) {
                let j = choose|j: int| 0 <= j < c2.len() && c2[j] == c;
                if j < cur.len() {
                    assert(cur[j] == c);
                }
            }
        }
        lemma_split_first_prefix(c2, rest.drop_first(), c);
        let r = split_acc(cur, rest, c)[0];
        assert(r.subrange(0, c2.len() as int) == c2);
        assert(r.subrange(0, cur.len() as int) =~= r.subrange(0, c2.len() as int).subrange(
            0,
            cur.len() as int,
        ));
        if rest.contains(c) {
            let j = choose|j: int| 0 <= j < rest.len() && rest[j] == c;
            assert(rest.drop_first()[j - 1] == c);
            assert(rest.drop_first().contains(c));
            let k2 = r.len() - c2.len();
            assert(rest.subrange(0, k2 + 1) =~= seq![rest[0]] + rest.drop_first().subrange(0, k2));
            assert(cur + rest.subrange(0, k2 + 1) =~= c2 + rest.drop_first().subrange(0, k2));
        } else {
            assert(!rest.drop_first().contains(c)) by {
                if rest.drop_first().contains(c) {
                    let j = choose|j: int|
                        0 <= j < rest.drop_first().len() && rest.drop_first()[j] == c;
                    assert(rest[j + 1] == c);
                }
            }
            assert(cur + rest =~= c2 + rest.drop_first());
        }
    }
}

/// Reads `.info` settings: `fsa.dict.separator`, `fsa.dict.encoder` and
/// `fsa.dict.frequency-included`; other keys, comments and blank lines are
/// ignored.
pub fn parse_info(info_text: &str) -> (r: InfoSettings)
    ensures
        (r.separator, r.encoder, r.frequency_included) == info_settings(info_text@),
{
    let text = str_chars(info_text);
    let ls = lines_chars(&text);
    let ghost lv = ls@.map_values(|v: Vec<char>| v@);
    let mut separator: u8 = 0x2b;
    let mut encoder = Encoder::Unencoded;
    let mut frequency_included = false;
    let mut i: usize = 0;
    while i < ls.len()
        invariant
            lv == ls@.map_values(|v: Vec<char>| v@),
            lv == lines(info_text@),
            i <= ls.len(),
            (separator, encoder, frequency_included) == info_fold(lv, i as int),
        decreases ls.len() - i,
    {
        let line = trim_chars(&ls[i]);
        let ghost st = (separator, encoder, frequency_included);
        assert(ls[i as int]@ == lv[i as int]);
        if line.len() == 0 || line[0] == '#' {
        } else {
            match find_char(&line, '=') {
                None => {},
                Some(eq) => {
                    let key_raw = sub_chars(&line, 0, eq);
                    let key = trim_chars(&key_raw);
                    let val = sub_chars(&line, eq + 1, line.len());
                    proof {
                        assert(line@.contains('='));
                        assert(!Seq::<char>::empty().contains('='));
                        lemma_split_first_prefix(Seq::empty(), line@, '=');
                        let p0 = split_on(line@, '=')[0];
                        let k = p0.len() as int;
                        assert(p0 == line@.subrange(0, k));
                        if k < eq {
                            assert(line@[k] == '=');
                        } else if k > eq {
                            assert(p0[eq as int] == '=');
                        }
                        assert(p0 =~= line@.subrange(0, eq as int));
                        assert(val@ =~= line@.skip(p0.len() as int + 1));
                    }
                    if chars_eq(&key, &lit("fsa.dict.separator")) {
                        let tv = trim_chars(&val);
                        let s = chars_to_string(&tv);
                        let b = s.as_str().as_bytes();
                        if b.len() > 0 {
                            separator = b[0];
                        }
                    } else if chars_eq(&key, &lit("fsa.dict.encoder")) {
                        encoder = Encoder::parse(&val);
                    } else if chars_eq(&key, &lit("fsa.dict.frequency-included")) {
                        let tv = trim_chars(&val);
                        frequency_included = chars_eq_ignore_ascii_case(&tv, &lit("true"));
                    }
                },
            }
        }
        i += 1;
    }
    InfoSettings { separator, encoder, frequency_included }
}

/// Position of the first `sep` byte in `t`, if any.
pub open spec fn first_index_of(t: Seq<u8>, sep: u8, i: int) -> Option<int>
    decreases t.len() - i,
{
    if i < 0 || i >= t.len() {
        None
    } else if t[i] == sep {
        Some(i)
    } else {
        first_index_of(t, sep, i + 1)
    }
}

/// A tail `encodedStem SEP tag`, split at its first separator (no separator:
/// the whole tail is the encoded stem and the tag is empty).
pub open spec fn split_tail(t: Seq<u8>, sep: u8) -> (Seq<u8>, Seq<u8>) {
    match first_index_of(t, sep, 0) {
        Some(i) => (t.subrange(0, i), t.skip(i + 1)),
        None => (t, Seq::empty()),
    }
}

/// SUFFIX decoding: the first encoded byte is `'A' + trimCount` (wrapping);
/// drop that many bytes from the end of `inflected`, then append the rest.
pub open spec fn spec_decode_suffix(inflected: Seq<u8>, encoded: Seq<u8>) -> Seq<u8> {
    if encoded.len() == 0 {
        inflected
    } else {
        let trim = ((encoded[0] as int - 65) % 256) as int;
        let keep = if inflected.len() >= trim {
            inflected.len() - trim
        } else {
            0
        };
        inflected.subrange(0, keep) + encoded.skip(1)
    }
}

/// Base-form decoding per encoder (PREFIX/INFIX fall back to the literal field).
pub open spec fn spec_decode_stem(enc: Encoder, inflected: Seq<u8>, encoded: Seq<u8>) -> Seq<
    u8,
> {
    match enc {
        Encoder::Suffix => spec_decode_suffix(inflected, encoded),
        _ => encoded,
    }
}

/// SUFFIX decode of `encoded` against `inflected`.
pub fn decode_suffix(inflected: &[u8], encoded: &[u8]) -> (r: Vec<u8>)
    ensures
        r@ == spec_decode_suffix(inflected@, encoded@),
{
    let mut stem: Vec<u8> = Vec::new();
    if encoded.len() == 0 {
        let mut i: usize = 0;
        while i < inflected.len()
            invariant
                i <= inflected.len(),
                stem@ == inflected@.subrange(0, i as int),
            decreases inflected.len() - i,
        {
            stem.push(inflected[i]);
            i += 1;
        }
        assert(stem@ =~= inflected@);
        return stem;
    }
    let trim = encoded[0].wrapping_sub(65) as usize;
    proof {
        assert(trim == ((encoded@[0] as int - 65) % 256)) by {
            if encoded@[0] >= 65 {
                assert(encoded[0].wrapping_sub(65) == encoded@[0] - 65);
            } else {
                assert(encoded[0].wrapping_sub(65) == encoded@[0] as int - 65 + 256);
            }
        }
    }
    let keep = if inflected.len() >= trim {
        inflected.len() - trim
    } else {
        0
    };
    let mut i: usize = 0;
    while i < keep
        invariant
            keep <= inflected.len(),
            i <= keep,
            stem@ == inflected@.subrange(0, i as int),
        decreases keep - i,
    {
        stem.push(inflected[i]);
        i += 1;
    }
    let mut j: usize = 1;
    while j < encoded.len()
        invariant
            1 <= j <= encoded.len(),
            stem@ == inflected@.subrange(0, keep as int) + encoded@.subrange(1, j as int),
        decreases encoded.len() - j,
    {
        stem.push(encoded[j]);
        j += 1;
        assert(encoded@.subrange(1, j as int) == encoded@.subrange(1, j - 1).push(
            encoded@[j - 1],
        ));
    }
    assert(encoded@.subrange(1, encoded.len() as int) =~= encoded@.skip(1));
    stem
}

fn split_once(bytes: &[u8], sep: u8) -> (r: (Vec<u8>, Vec<u8>))
    ensures
        (r.0@, r.1@) == split_tail(bytes@, sep),
{
    let mut i: usize = 0;
    while i < bytes.len()
        invariant
            i <= bytes.len(),
            first_index_of(bytes@, sep, 0) == first_index_of(bytes@, sep, i as int),
        decreases bytes.len() - i,
    {
        if bytes[i] == sep {
            let mut a: Vec<u8> = Vec::new();
            let mut k: usize = 0;
            while k < i
                invariant
                    k <= i < bytes.len(),
                    a@ == bytes@.subrange(0, k as int),
                decreases i - k,
            {
                a.push(bytes[k]);
                k += 1;
            }
            let mut b: Vec<u8> = Vec::new();
            let mut m: usize = i + 1;
            while m < bytes.len()
                invariant
                    i + 1 <= m <= bytes.len(),
                    b@ == bytes@.subrange(i + 1, m as int),
                decreases bytes.len() - m,
            {
                b.push(bytes[m]);
                m += 1;
            }
            assert(b@ =~= bytes@.skip(i + 1));
            return (a, b);
        }
        i += 1;
    }
    let mut a: Vec<u8> = Vec::new();
    let mut k: usize = 0;
    while k < bytes.len()
        invariant
            k <= bytes.len(),
            a@ == bytes@.subrange(0, k as int),
        decreases bytes.len() - k,
    {
        a.push(bytes[k]);
        k += 1;
    }
    assert(a@ =~= bytes@);
    (a, Vec::new())
}

pub struct Dictionary {
    fsa: Cfsa2,
    separator: u8,
    encoder: Encoder,
    frequency_included: bool,
}

impl Dictionary {
    pub closed spec fn automaton(self) -> Cfsa2 {
        self.fsa
    }

    pub closed spec fn sep(self) -> u8 {
        self.separator
    }

    pub closed spec fn enc(self) -> Encoder {
        self.encoder
    }

    pub closed spec fn freq(self) -> bool {
        self.frequency_included
    }

    /// Follows `bytes[i..]` from `node`; `(node reached, last arc final)`.
    /// On the last byte a terminal arc leaves the node unchanged.
    pub open spec fn walk_from(self, node: int, bytes: Seq<u8>, i: int, last_final: bool) -> Option<
        (int, bool),
    >
        decreases bytes.len() - i,
    {
        if i < 0 || i >= bytes.len() {
            Some((node, last_final))
        } else {
            let f = self.automaton();
            let arc = f.spec_get_arc(node, bytes[i]);
            if arc == 0 {
                None
            } else {
                let fin = f.spec_final(arc);
                let terminal = f.spec_dest(arc) == 0;
                if i + 1 < bytes.len() {
                    if terminal {
                        None
                    } else {
                        self.walk_from(f.spec_dest(arc), bytes, i + 1, fin)
                    }
                } else {
                    Some(
                        (
                            if terminal {
                                node
                            } else {
                                f.spec_dest(arc)
                            },
                            fin,
                        ),
                    )
                }
            }
        }
    }

    /// Walk of `bytes` from the root.
    pub open spec fn spec_walk_path(self, bytes: Seq<u8>) -> Option<(int, bool)> {
        self.walk_from(self.automaton().root_pos(), bytes, 0, false)
    }

    /// Membership: the path spelling `w` exists and either ends on a final arc
    /// or continues with a separator arc (a frequency or stem/tag tail).
    pub open spec fn spec_contains(self, w: Seq<u8>) -> bool {
        match self.spec_walk_path(w) {
            None => false,
            Some((node, last_final)) => {
                if !self.freq() && last_final {
                    true
                } else {
                    self.automaton().spec_get_arc(node, self.sep()) != 0 || last_final
                }
            },
        }
    }

    /// The raw tails stored after `w SEP`, in automaton order.
    pub open spec fn spec_tails(self, w: Seq<u8>) -> Seq<Seq<u8>> {
        let f = self.automaton();
        match self.spec_walk_path(w) {
            None => Seq::empty(),
            Some((node, _)) => {
                let sa = f.spec_get_arc(node, self.sep());
                if sa == 0 || f.spec_dest(sa) == 0 {
                    Seq::empty()
                } else {
                    f.node_seqs(Seq::empty(), f.spec_dest(sa), f.len() as nat)
                }
            },
        }
    }

    /// Decoded `(stem bytes, tag bytes)` for every tail of `w`.
    pub open spec fn spec_lookup(self, w: Seq<u8>) -> Seq<(Seq<u8>, Seq<u8>)> {
        self.spec_tails(w).map_values(
            |t: Seq<u8>|
                {
                    let (e, tag) = split_tail(t, self.sep());
                    (spec_decode_stem(self.enc(), w, e), tag)
                },
        )
    }

    /// Stored frequency of `w`: the last byte of its first frequency tail minus
    /// `'A'`, or 0.
    pub open spec fn spec_frequency(self, w: Seq<u8>) -> i32 {
        let f = self.automaton();
        if !self.freq() {
            0
        } else {
            match self.spec_walk_path(w) {
                None => 0,
                Some((node, _)) => {
                    let sa = f.spec_get_arc(node, self.sep());
                    if sa == 0 || f.spec_final(sa) || f.spec_dest(sa) == 0 {
                        0
                    } else {
                        let ts = f.node_seqs(Seq::empty(), f.spec_dest(sa), f.len() as nat);
                        if ts.len() > 0 && ts[0].len() > 0 {
                            (ts[0].last() - 65) as i32
                        } else {
                            0
                        }
                    }
                },
            }
        }
    }

    /// Load from the raw `.dict` bytes plus the text of the sibling `.info`.
    pub fn load(dict_bytes: &[u8], info_text: &str) -> (r: Result<Dictionary, FsaError>)
        ensures
            match header_check(dict_bytes@) {
                Err(e) => r == Err::<Dictionary, FsaError>(e),
                Ok(_) => r is Ok && {
                    let d = r->Ok_0;
                    &&& parsed_from(d.automaton(), dict_bytes@)
                    &&& (d.sep(), d.enc(), d.freq()) == info_settings(info_text@)
                },
            },
    {
        let st = parse_info(info_text);
        let fsa = Cfsa2::parse(dict_bytes)?;
        Ok(
            Dictionary {
                fsa,
                separator: st.separator,
                encoder: st.encoder,
                frequency_included: st.frequency_included,
            },
        )
    }

    pub fn separator(&self) -> (r: u8)
        ensures
            r == self.sep(),
    {
        self.separator
    }

    pub fn encoder(&self) -> (r: Encoder)
        ensures
            r == self.enc(),
    {
        self.encoder
    }

    pub fn fsa(&self) -> (r: &Cfsa2)
        ensures
            *r == self.automaton(),
    {
        &self.fsa
    }

    /// Follow `bytes` from the root node.
    fn walk_path(&self, bytes: &[u8]) -> (r: Option<(usize, bool)>)
        ensures
            match r {
                None => self.spec_walk_path(bytes@) is None,
                Some((n, b)) => self.spec_walk_path(bytes@) == Some((n as int, b)),
            },
    {
        let mut node = self.fsa.root_node();
        let mut last_final = false;
        let mut i: usize = 0;
        while i < bytes.len()
            invariant
                i <= bytes.len(),
                self.spec_walk_path(bytes@) == self.walk_from(
                    node as int,
                    bytes@,
                    i as int,
                    last_final,
                ),
            decreases bytes.len() - i,
        {
            let arc = self.fsa.get_arc(node, bytes[i]);
            if arc == 0 {
                return None;
            }
            last_final = self.fsa.is_arc_final(arc);
            let d = self.fsa.get_end_node(arc);
            if i + 1 < bytes.len() {
                if d == 0 {
                    return None;
                }
                node = d;
            } else if d != 0 {
                node = d;
            }
            i += 1;
        }
        Some((node, last_final))
    }

    /// Spelling membership: is `word` present in the dictionary?
    pub fn contains(&self, word: &str) -> (r: bool)
        ensures
            r == self.spec_contains(word.spec_bytes()),
    {
        let bytes = word.as_bytes();
        match self.walk_path(bytes) {
            None => false,
            Some((node, last_final)) => {
                if !self.frequency_included && last_final {
                    return true;
                }
                self.fsa.get_arc(node, self.separator) != 0 || last_final
            },
        }
    }

    /// The raw tails after `word SEP`.
    fn tails(&self, bytes: &[u8]) -> (r: Vec<Vec<u8>>)
        ensures
            r@.map_values(|v: Vec<u8>| v@) == self.spec_tails(bytes@),
    {
        match self.walk_path(bytes) {
            None => {
                let e: Vec<Vec<u8>> = Vec::new();
                assert(e@.map_values(|v: Vec<u8>| v@) =~= Seq::<Seq<u8>>::empty());
                e
            },
            Some((node, _)) => {
                let sep_arc = self.fsa.get_arc(node, self.separator);
                if sep_arc == 0 {
                    let e: Vec<Vec<u8>> = Vec::new();
                    assert(e@.map_values(|v: Vec<u8>| v@) =~= Seq::<Seq<u8>>::empty());
                    return e;
                }
                let d = self.fsa.get_end_node(sep_arc);
                if d == 0 {
                    let e: Vec<Vec<u8>> = Vec::new();
                    assert(e@.map_values(|v: Vec<u8>| v@) =~= Seq::<Seq<u8>>::empty());
                    return e;
                }
                let mut out: Vec<Vec<u8>> = Vec::new();
                let mut buf: Vec<u8> = Vec::new();
                let n = self.fsa.arc_count();
                self.fsa.walk(d, n, &mut buf, &mut out);
                assert(out@.map_values(|v: Vec<u8>| v@) =~= Seq::<Seq<u8>>::empty()
                    + self.automaton().node_seqs(Seq::empty(), d as int, n as nat));
                out
            },
        }
    }

    /// POS lookup: every `(stem, tag)` entry stored for `word`.
    pub fn lookup(&self, word: &str) -> (r: Vec<DictEntry>)
        ensures
            r@.len() == self.spec_lookup(word.spec_bytes()).len(),
            forall|i: int|
                0 <= i < r@.len() ==> {
                    &&& r@[i].stem@ == lossy_utf8(self.spec_lookup(word.spec_bytes())[i].0)
                    &&& r@[i].tag@ == lossy_utf8(self.spec_lookup(word.spec_bytes())[i].1)
                },
    {
        let bytes = word.as_bytes();
        let tails = self.tails(bytes);
        let ghost tv = tails@.map_values(|v: Vec<u8>| v@);
        let mut out: Vec<DictEntry> = Vec::new();
        let mut i: usize = 0;
        while i < tails.len()
            invariant
                tv == tails@.map_values(|v: Vec<u8>| v@),
                tv == self.spec_tails(bytes@),
                bytes@ == word.spec_bytes(),
                i <= tails.len(),
                out@.len() == i,
                forall|k: int|
                    0 <= k < i ==> {
                        &&& out@[k].stem@ == lossy_utf8(self.spec_lookup(bytes@)[k].0)
                        &&& out@[k].tag@ == lossy_utf8(self.spec_lookup(bytes@)[k].1)
                    },
            decreases tails.len() - i,
        {
            let (enc_stem, tag) = split_once(&tails[i], self.separator);
            let stem = self.decode_stem(bytes, &enc_stem);
            assert(tails[i as int]@ == tv[i as int]);
            let e = DictEntry { stem: utf8_lossy(&stem), tag: utf8_lossy(&tag) };
            out.push(e);
            i += 1;
        }
        out
    }

    /// Stored word frequency (`Speller.getFrequency`), 0 when absent.
    pub fn frequency(&self, word: &str) -> (r: i32)
        ensures
            r == self.spec_frequency(word.spec_bytes()),
    {
        if !self.frequency_included {
            return 0;
        }
        let bytes = word.as_bytes();
        match self.walk_path(bytes) {
            None => 0,
            Some((node, _)) => {
                let sa = self.fsa.get_arc(node, self.separator);
                if sa == 0 || self.fsa.is_arc_final(sa) {
                    return 0;
                }
                let d = self.fsa.get_end_node(sa);
                if d == 0 {
                    return 0;
                }
                let mut out: Vec<Vec<u8>> = Vec::new();
                let mut buf: Vec<u8> = Vec::new();
                let n = self.fsa.arc_count();
                self.fsa.walk(d, n, &mut buf, &mut out);
                let ghost ts = self.automaton().node_seqs(Seq::empty(), d as int, n as nat);
                assert(out@.map_values(|v: Vec<u8>| v@) =~= Seq::<Seq<u8>>::empty() + ts);
                if out.len() > 0 && out[0].len() > 0 {
                    assert(out[0]@ == ts[0]);
                    let last = out[0][out[0].len() - 1];
                    (last as i32) - 65
                } else {
                    0
                }
            },
        }
    }

    fn decode_stem(&self, inflected: &[u8], encoded: &[u8]) -> (r: Vec<u8>)
        ensures
            r@ == spec_decode_stem(self.enc(), inflected@, encoded@),
    {
        match self.encoder {
            Encoder::Suffix => decode_suffix(inflected, encoded),
            _ => {
                let mut v: Vec<u8> = Vec::new();
                let mut i: usize = 0;
                while i < encoded.len()
                    invariant
                        i <= encoded.len(),
                        v@ == encoded@.subrange(0, i as int),
                    decreases encoded.len() - i,
                {
                    v.push(encoded[i]);
                    i += 1;
                }
                assert(v@ =~= encoded@);
                v
            },
        }
    }
}

proof fn lemma_same_walk(a: Dictionary, b: Dictionary, node: int, bytes: Seq<u8>, i: int, lf: bool)
    requires
        same_automaton(a.automaton(), b.automaton()),
    ensures
        a.walk_from(node, bytes, i, lf) == b.walk_from(node, bytes, i, lf),
    decreases bytes.len() - i,
{
    if 0 <= i < bytes.len() {
        let fa = a.automaton();
        let fb = b.automaton();
        lemma_same_lookup(fa, fb, node, bytes[i]);
        let arc = fa.spec_get_arc(node, bytes[i]);
        lemma_same_lookup(fa, fb, arc, 0);
        if arc != 0 && i + 1 < bytes.len() && fa.spec_dest(arc) != 0 {
            lemma_same_walk(a, b, fa.spec_dest(arc), bytes, i + 1, fa.spec_final(arc));
        }
    }
}

/// Dictionaries with the same automaton, separator and frequency setting
/// hold the same words.
pub proof fn lemma_same_contains(a: Dictionary, b: Dictionary, w: Seq<u8>)
    requires
        same_automaton(a.automaton(), b.automaton()),
        a.sep() == b.sep(),
        a.freq() == b.freq(),
    ensures
        a.spec_contains(w) == b.spec_contains(w),
{
    lemma_same_lookup(a.automaton(), b.automaton(), 0, 0);
    lemma_same_walk(a, b, a.automaton().root_pos(), w, 0, false);
    match a.spec_walk_path(w) {
        Some((node, _)) => lemma_same_lookup(a.automaton(), b.automaton(), node, a.sep()),
        None => {},
    }
}

} // verus!
