//! Custom XML entities of rule files: `<!ENTITY name "value">` declarations in
//! the prolog, referenced as `&name;` in token text and attributes. They are
//! expanded before the rules are read; the standard XML entities (`&amp;`,
//! `&lt;`, ...) and unknown references are left as they are.

use vstd::prelude::*;
use crate::text::{chars_eq, chars_to_string, chars_vec, lit, matches_at, occurs_at, str_chars};

verus! {

/// `u8::is_ascii_whitespace` on a character.
pub open spec fn is_ascii_ws(c: char) -> bool {
    c == ' ' || c == '\t' || c == '\n' || c == '\x0C' || c == '\r'
}

/// The first position at or after `i` that is not ASCII whitespace (or the end).
pub open spec fn skip_ws(x: Seq<char>, i: int) -> int
    decreases x.len() - i,
{
    if i < 0 || i >= x.len() || !is_ascii_ws(x[i]) {
        i
    } else {
        skip_ws(x, i + 1)
    }
}

/// The first position at or after `i` holding ASCII whitespace (or the end).
pub open spec fn word_end(x: Seq<char>, i: int) -> int
    decreases x.len() - i,
{
    if i < 0 || i >= x.len() || is_ascii_ws(x[i]) {
        i
    } else {
        word_end(x, i + 1)
    }
}

/// The first position at or after `i` holding `c` (or the end).
pub open spec fn until_char(x: Seq<char>, i: int, c: char) -> int
    decreases x.len() - i,
{
    if i < 0 || i >= x.len() || x[i] == c {
        i
    } else {
        until_char(x, i + 1, c)
    }
}

pub proof fn lemma_skip_ws(x: Seq<char>, i: int)
    requires
        0 <= i,
    ensures
        i <= skip_ws(x, i),
        i <= x.len() ==> skip_ws(x, i) <= x.len(),
        skip_ws(x, i) < x.len() ==> !is_ascii_ws(x[skip_ws(x, i)]),
        forall|k: int| i <= k < skip_ws(x, i) ==> is_ascii_ws(#[trigger] x[k]),
    decreases x.len() - i,
{
    if i < x.len() && is_ascii_ws(x[i]) {
        lemma_skip_ws(x, i + 1);
    }
}

pub proof fn lemma_word_end(x: Seq<char>, i: int)
    requires
        0 <= i,
    ensures
        i <= word_end(x, i),
        i <= x.len() ==> word_end(x, i) <= x.len(),
        word_end(x, i) < x.len() ==> is_ascii_ws(x[word_end(x, i)]),
        forall|k: int| i <= k < word_end(x, i) ==> !is_ascii_ws(#[trigger] x[k]),
    decreases x.len() - i,
{
    if i < x.len() && !is_ascii_ws(x[i]) {
        lemma_word_end(x, i + 1);
    }
}

pub proof fn lemma_until_char(x: Seq<char>, i: int, c: char)
    requires
        0 <= i,
    ensures
        i <= until_char(x, i, c),
        i <= x.len() ==> until_char(x, i, c) <= x.len(),
        until_char(x, i, c) < x.len() ==> x[until_char(x, i, c)] == c,
        forall|k: int| i <= k < until_char(x, i, c) ==> #[trigger] x[k] != c,
    decreases x.len() - i,
{
    if i < x.len() && x[i] != c {
        lemma_until_char(x, i + 1, c);
    }
}

/// The opening of a declaration.
pub open spec fn entity_open() -> Seq<char> {
    seq!['<', '!', 'E', 'N', 'T', 'I', 'T', 'Y']
}

/// The first declaration opening at or after `from`.
pub open spec fn find_open(x: Seq<char>, from: int) -> Option<int>
    decreases x.len() - from,
{
    if from < 0 || from >= x.len() {
        None
    } else if occurs_at(x, entity_open(), from) {
        Some(from)
    } else {
        find_open(x, from + 1)
    }
}

pub proof fn lemma_find_open(x: Seq<char>, from: int)
    requires
        0 <= from,
    ensures
        match find_open(x, from) {
            Some(p) => from <= p && p + 8 <= x.len() && occurs_at(x, entity_open(), p) && forall|
                k: int,
            | from <= k < p ==> !occurs_at(x, entity_open(), k),
            None => forall|k: int| from <= k ==> !occurs_at(x, entity_open(), k),
        },
    decreases x.len() - from,
{
    if from < x.len() && !occurs_at(x, entity_open(), from) {
        lemma_find_open(x, from + 1);
    }
}

/// The declarations found from position `i` on, added to `m` in order (a later
/// declaration of a name replaces an earlier one).
pub open spec fn defs_from(x: Seq<char>, i: int, m: Map<Seq<char>, Seq<char>>) -> Map<
    Seq<char>,
    Seq<char>,
>
    decreases x.len() + 1 - i,
{
    if i < 0 {
        m
    } else {
        match find_open(x, i) {
            None => m,
            Some(p) => {
                proof {
                    lemma_find_open(x, i);
                    lemma_skip_ws(x, p + 8);
                    lemma_word_end(x, skip_ws(x, p + 8));
                    lemma_skip_ws(x, word_end(x, skip_ws(x, p + 8)));
                }
                let j = skip_ws(x, p + 8);
                let ne = word_end(x, j);
                let name = x.subrange(j, ne);
                let j2 = skip_ws(x, ne);
                if j2 < x.len() && (x[j2] == '"' || x[j2] == '\'') {
                    proof {
                        lemma_until_char(x, j2 + 1, x[j2]);
                    }
                    let ve = until_char(x, j2 + 1, x[j2]);
                    let m2 = if name.len() > 0 {
                        m.insert(name, x.subrange(j2 + 1, ve))
                    } else {
                        m
                    };
                    defs_from(x, ve + 1, m2)
                } else {
                    defs_from(x, j2, m)
                }
            },
        }
    }
}

/// All declarations of `x`.
pub open spec fn spec_entity_defs(x: Seq<char>) -> Map<Seq<char>, Seq<char>> {
    defs_from(x, 0, Map::empty())
}

/// A table of declared entities; each name occurs once.
pub struct EntityDefs {
    entries: Vec<(Vec<char>, Vec<char>)>,
}

/// The map held by a list of entries.
pub open spec fn entries_map(s: Seq<(Vec<char>, Vec<char>)>) -> Map<Seq<char>, Seq<char>>
    decreases s.len(),
{
    if s.len() == 0 {
        Map::empty()
    } else {
        entries_map(s.drop_last()).insert(s.last().0@, s.last().1@)
    }
}

pub open spec fn distinct_names(s: Seq<(Vec<char>, Vec<char>)>) -> bool {
    forall|a: int, b: int| 0 <= a < b < s.len() ==> (#[trigger] s[a]).0@ != (#[trigger] s[b]).0@
}

proof fn lemma_entries_map(s: Seq<(Vec<char>, Vec<char>)>)
    requires
        distinct_names(s),
    ensures
        forall|k: Seq<char>| #[trigger]
            entries_map(s).contains_key(k) ==> exists|j: int| 0 <= j < s.len() && s[j].0@ == k,
        forall|j: int|
            0 <= j < s.len() ==> entries_map(s).contains_key(#[trigger] s[j].0@) && entries_map(
                s,
            )[s[j].0@] == s[j].1@,
    decreases s.len(),
{
    if s.len() > 0 {
        let t = s.drop_last();
        let n = s.len() - 1;
        assert(distinct_names(t)) by {
            assert forall|a: int, b: int| 0 <= a < b < t.len() implies (#[trigger] t[a]).0@ != (
            #[trigger] t[b]).0@ by {
                assert(t[a] == s[a] && t[b] == s[b]);
            }
        }
        lemma_entries_map(t);
        assert(s.last() == s[n]);
        assert forall|k: Seq<char>| #[trigger] entries_map(s).contains_key(k) implies exists|
            j: int,
        | 0 <= j < s.len() && s[j].0@ == k by {
            if k == s[n].0@ {
                assert(0 <= n < s.len() && s[n].0@ == k);
            } else {
                assert(entries_map(t).contains_key(k));
                let j = choose|j: int| 0 <= j < t.len() && t[j].0@ == k;
                assert(t[j] == s[j]);
                assert(0 <= j < s.len() && s[j].0@ == k);
            }
        }
        assert forall|j: int| 0 <= j < s.len() implies entries_map(s).contains_key(
            #[trigger] s[j].0@,
        ) && entries_map(s)[s[j].0@] == s[j].1@ by {
            if j < n {
                assert(t[j] == s[j]);
                assert(s[j].0@ != s[n].0@);
                assert(entries_map(t).contains_key(t[j].0@));
            }
        }
    }
}

impl EntityDefs {
    #[verifier::type_invariant]
    closed spec fn inv(self) -> bool {
        distinct_names(self.entries@)
    }

    /// The declared names with their values.
    pub closed spec fn view(self) -> Map<Seq<char>, Seq<char>> {
        entries_map(self.entries@)
    }

    pub fn new() -> (r: EntityDefs)
        ensures
            r.view() == Map::<Seq<char>, Seq<char>>::empty(),
    {
        EntityDefs { entries: Vec::new() }
    }

    fn position(&self, name: &[char]) -> (r: Option<usize>)
        ensures
            match r {
                Some(j) => j < self.entries@.len() && self.entries@[j as int].0@ == name@,
                None => !self.view().contains_key(name@),
            },
    {
        proof {
            use_type_invariant(self);
            lemma_entries_map(self.entries@);
        }
        let mut j: usize = 0;
        while j < self.entries.len()
            invariant
                j <= self.entries@.len(),
                forall|k: int| 0 <= k < j ==> (#[trigger] self.entries@[k]).0@ != name@,
            decreases self.entries.len() - j,
        {
            if chars_eq(&self.entries[j].0, name) {
                return Some(j);
            }
            j += 1;
        }
        None
    }

    /// Records `name` with `value`, replacing an earlier value.
    pub fn insert(&mut self, name: &[char], value: &[char])
        ensures
            final(self).view() == old(self).view().insert(name@, value@),
    {
        proof {
            use_type_invariant(&*self);
            lemma_entries_map(self.entries@);
        }
        let ghost s0 = self.entries@;
        match self.position(name) {
            Some(j) => {
                let mut entries: Vec<(Vec<char>, Vec<char>)> = Vec::new();
                std::mem::swap(&mut entries, &mut self.entries);
                entries.set(j, (chars_vec(name), chars_vec(value)));
                let ghost s1 = entries@;
                assert(distinct_names(s1)) by {
                    assert forall|a: int, b: int| 0 <= a < b < s1.len() implies (#[trigger] s1[
                        a]).0@ != (#[trigger] s1[b]).0@ by {
                        assert(s0[a].0@ != s0[b].0@);
                    }
                }
                proof {
                    lemma_entries_map(s1);
                    assert forall|k: Seq<char>| #[trigger] entries_map(s1).contains_key(k)
                        <==> entries_map(s0).insert(name@, value@).contains_key(k) by {
                        if k == name@ {
                            assert(s1[j as int].0@ == k);
                        }
                        if exists|i: int| 0 <= i < s0.len() && s0[i].0@ == k {
                            let i = choose|i: int| 0 <= i < s0.len() && s0[i].0@ == k;
                            if i != j {
                                assert(s1[i] == s0[i]);
                            }
                        }
                        if exists|i: int| 0 <= i < s1.len() && s1[i].0@ == k {
                            let i = choose|i: int| 0 <= i < s1.len() && s1[i].0@ == k;
                            if i != j {
                                assert(s1[i] == s0[i]);
                            }
                        }
                    }
                    assert forall|k: Seq<char>| #[trigger] entries_map(s1).contains_key(k)
                        implies entries_map(s1)[k] == entries_map(s0).insert(
                        name@,
                        value@,
                    )[k] by {
                        let i = choose|i: int| 0 <= i < s1.len() && s1[i].0@ == k;
                        if i != j {
                            assert(s1[i] == s0[i]);
                        }
                    }
                    assert(entries_map(s1) =~= entries_map(s0).insert(name@, value@));
                }
                self.entries = entries;
            },
            None => {
                proof {
                    assert forall|i: int| 0 <= i < s0.len() implies #[trigger] s0[i].0@
                        != name@ by {
                        if s0[i].0@ == name@ {
                            assert(entries_map(s0).contains_key(s0[i].0@));
                        }
                    }
                }
                let mut entries: Vec<(Vec<char>, Vec<char>)> = Vec::new();
                std::mem::swap(&mut entries, &mut self.entries);
                entries.push((chars_vec(name), chars_vec(value)));
                proof {
                    let s1 = entries@;
                    assert(s1.drop_last() =~= s0);
                    assert(distinct_names(s1)) by {
                        assert forall|a: int, b: int| 0 <= a < b < s1.len() implies (#[trigger] s1[
                            a]).0@ != (#[trigger] s1[b]).0@ by {
                            if b < s1.len() - 1 {
                                assert(s1[a] == s0[a] && s1[b] == s0[b]);
                            } else {
                                assert(s1[a] == s0[a]);
                            }
                        }
                    }
                }
                self.entries = entries;
            },
        }
    }

    /// The value declared for `name`.
    pub fn get_chars(&self, name: &[char]) -> (r: Option<Vec<char>>)
        ensures
            match r {
                Some(v) => self.view().contains_key(name@) && v@ == self.view()[name@],
                None => !self.view().contains_key(name@),
            },
    {
        proof {
            use_type_invariant(self);
            lemma_entries_map(self.entries@);
        }
        match self.position(name) {
            Some(j) => Some(chars_vec(&self.entries[j].1)),
            None => None,
        }
    }

    /// The value declared for `name`.
    pub fn get(&self, name: &str) -> (r: Option<String>)
        ensures
            match r {
                Some(v) => self.view().contains_key(name@) && v@ == self.view()[name@],
                None => !self.view().contains_key(name@),
            },
    {
        match self.get_chars(&str_chars(name)) {
            Some(v) => Some(chars_to_string(&v)),
            None => None,
        }
    }

    /// The number of declared names.
    pub fn len(&self) -> (r: usize)
        ensures
            r == self.view().len(),
    {
        proof {
            use_type_invariant(self);
            lemma_entries_len(self.entries@);
        }
        self.entries.len()
    }

    pub fn is_empty(&self) -> (r: bool)
        ensures
            r == (self.view() == Map::<Seq<char>, Seq<char>>::empty()),
            r == (self.view().len() == 0),
    {
        proof {
            use_type_invariant(self);
            lemma_entries_map(self.entries@);
            lemma_entries_len(self.entries@);
            if self.entries@.len() > 0 {
                assert(entries_map(self.entries@).contains_key(self.entries@[0].0@));
            } else {
                assert(entries_map(self.entries@) =~= Map::<Seq<char>, Seq<char>>::empty());
            }
        }
        self.entries.len() == 0
    }
}

proof fn lemma_entries_len(s: Seq<(Vec<char>, Vec<char>)>)
    requires
        distinct_names(s),
    ensures
        entries_map(s).len() == s.len(),
        entries_map(s).dom().finite(),
    decreases s.len(),
{
    if s.len() > 0 {
        let t = s.drop_last();
        assert(distinct_names(t)) by {
            assert forall|a: int, b: int| 0 <= a < b < t.len() implies (#[trigger] t[a]).0@ != (
            #[trigger] t[b]).0@ by {
                assert(t[a] == s[a] && t[b] == s[b]);
            }
        }
        lemma_entries_len(t);
        lemma_entries_map(t);
        assert(!entries_map(t).contains_key(s.last().0@)) by {
            if entries_map(t).contains_key(s.last().0@) {
                let j = choose|j: int| 0 <= j < t.len() && t[j].0@ == s.last().0@;
                assert(s[j] == t[j]);
                assert(s[s.len() - 1] == s.last());
            }
        }
    }
}

/// Extract the `<!ENTITY name "value">` declarations of `xml`.
pub fn parse_entity_defs(xml: &str) -> (r: EntityDefs)
    ensures
        r.view() == spec_entity_defs(xml@),
{
    let x = str_chars(xml);
    let needle = lit("<!ENTITY");
    proof {
        reveal_strlit("<!ENTITY");
        assert(needle@ =~= entity_open());
    }
    let mut defs = EntityDefs::new();
    let mut i: usize = 0;
    while i < x.len()
        invariant
            needle@ == entity_open(),
            i <= x.len(),
            defs_from(x@, 0, Map::empty()) == defs_from(x@, i as int, defs.view()),
        decreases x.len() - i,
    {
        let ghost m = defs.view();
        proof {
            lemma_find_open(x@, i as int);
        }
        let mut p = i;
        while p < x.len() && !matches_at(&x, &needle, p)
            invariant
                i <= p <= x.len(),
                needle@ == entity_open(),
                forall|k: int| i <= k < p ==> !occurs_at(x@, entity_open(), k),
            decreases x.len() - p,
        {
            p += 1;
        }
        if p >= x.len() {
            assert(find_open(x@, i as int) is None);
            assert(find_open(x@, x.len() as int) is None);
            i = x.len();
            continue;
        }
        assert(find_open(x@, i as int) == Some(p as int));
        let mut j = p + 8;
        proof {
            lemma_skip_ws(x@, j as int);
        }
        while j < x.len() && is_ascii_ws_exec(x[j])
            invariant
                p + 8 <= j <= x.len(),
                skip_ws(x@, p + 8) == skip_ws(x@, j as int),
            decreases x.len() - j,
        {
            j += 1;
        }
        let name_start = j;
        assert(skip_ws(x@, j as int) == j);
        assert(name_start == skip_ws(x@, p + 8));
        proof {
            lemma_word_end(x@, j as int);
        }
        while j < x.len() && !is_ascii_ws_exec(x[j])
            invariant
                name_start <= j <= x.len(),
                word_end(x@, name_start as int) == word_end(x@, j as int),
            decreases x.len() - j,
        {
            j += 1;
        }
        let name_end = j;
        assert(word_end(x@, j as int) == j);
        let name = crate::text::sub_chars(&x, name_start, name_end);
        proof {
            lemma_skip_ws(x@, j as int);
        }
        while j < x.len() && is_ascii_ws_exec(x[j])
            invariant
                name_end <= j <= x.len(),
                skip_ws(x@, name_end as int) == skip_ws(x@, j as int),
            decreases x.len() - j,
        {
            j += 1;
        }
        assert(skip_ws(x@, j as int) == j);
        assert(j == skip_ws(x@, name_end as int));
        if j < x.len() && (x[j] == '"' || x[j] == '\'') {
            let quote = x[j];
            let val_start = j + 1;
            let mut k = val_start;
            while k < x.len() && x[k] != quote
                invariant
                    val_start <= k <= x.len(),
                    until_char(x@, val_start as int, quote) == until_char(x@, k as int, quote),
                decreases x.len() - k,
            {
                k += 1;
            }
            assert(until_char(x@, k as int, quote) == k);
            assert(defs_from(x@, i as int, m) == defs_from(
                x@,
                k + 1,
                if name@.len() > 0 {
                    m.insert(name@, x@.subrange(val_start as int, k as int))
                } else {
                    m
                },
            ));
            if name.len() > 0 {
                let value = crate::text::sub_chars(&x, val_start, k);
                defs.insert(&name, &value);
            }
            if k < x.len() {
                i = k + 1;
            } else {
                assert(find_open(x@, x.len() + 1) is None);
                assert(find_open(x@, x.len() as int) is None);
                i = x.len();
            }
        } else {
            assert(defs_from(x@, i as int, m) == defs_from(x@, j as int, m));
            i = j;
        }
    }
    assert(find_open(x@, i as int) is None);
    defs
}

fn is_ascii_ws_exec(c: char) -> (r: bool)
    ensures
        r == is_ascii_ws(c),
{
    c == ' ' || c == '\t' || c == '\n' || c == '\x0C' || c == '\r'
}

/// The first `c` in `s`.
pub open spec fn first_index(s: Seq<char>, c: char) -> Option<int>
    decreases s.len(),
{
    if s.len() == 0 {
        None
    } else if s[0] == c {
        Some(0)
    } else {
        match first_index(s.drop_first(), c) {
            Some(k) => Some(k + 1),
            None => None,
        }
    }
}

pub proof fn lemma_first_index(s: Seq<char>, c: char)
    ensures
        match first_index(s, c) {
            Some(k) => 0 <= k < s.len() && s[k] == c && forall|l: int| 0 <= l < k ==> s[l] != c,
            None => forall|l: int| 0 <= l < s.len() ==> s[l] != c,
        },
    decreases s.len(),
{
    if s.len() > 0 && s[0] != c {
        lemma_first_index(s.drop_first(), c);
        match first_index(s.drop_first(), c) {
            Some(k) => {
                assert forall|l: int| 0 <= l < k + 1 implies s[l] != c by {
                    if l > 0 {
                        assert(s[l] == s.drop_first()[l - 1]);
                    }
                }
            },
            None => {
                assert forall|l: int| 0 <= l < s.len() implies s[l] != c by {
                    if l > 0 {
                        assert(s[l] == s.drop_first()[l - 1]);
                    }
                }
            },
        }
    }
}

/// One expansion pass: each `&name;` whose name is declared is replaced by its
/// value; the flag says whether anything was replaced.
pub open spec fn expand_once_spec(x: Seq<char>, d: Map<Seq<char>, Seq<char>>) -> (
    Seq<char>,
    bool,
)
    decreases x.len(),
{
    if x.len() == 0 {
        (Seq::empty(), false)
    } else {
        let semi = first_index(x.drop_first(), ';');
        if x[0] == '&' && semi is Some && d.contains_key(x.subrange(1, 1 + semi->0)) {
            proof {
                lemma_first_index(x.drop_first(), ';');
            }
            let rest = expand_once_spec(x.skip(semi->0 + 2), d);
            (d[x.subrange(1, 1 + semi->0)] + rest.0, true)
        } else {
            let rest = expand_once_spec(x.drop_first(), d);
            (seq![x[0]] + rest.0, rest.1)
        }
    }
}

/// Up to `n` passes, stopping after the first pass that replaces nothing.
pub open spec fn expand_passes(x: Seq<char>, d: Map<Seq<char>, Seq<char>>, n: nat) -> Seq<char>
    decreases n,
{
    if n == 0 {
        x
    } else {
        let (next, changed) = expand_once_spec(x, d);
        if changed {
            expand_passes(next, d, (n - 1) as nat)
        } else {
            next
        }
    }
}

/// `expand`: no declarations leave the text as it is; otherwise at most eight
/// passes, which expands references nested up to that depth.
pub open spec fn spec_expand(x: Seq<char>, d: Map<Seq<char>, Seq<char>>) -> Seq<char> {
    if d.len() == 0 {
        x
    } else {
        expand_passes(x, d, 8)
    }
}

/// A pass that replaces nothing returns the text unchanged.
pub proof fn lemma_unchanged_pass(x: Seq<char>, d: Map<Seq<char>, Seq<char>>)
    ensures
        !expand_once_spec(x, d).1 ==> expand_once_spec(x, d).0 == x,
    decreases x.len(),
{
    if x.len() > 0 {
        let semi = first_index(x.drop_first(), ';');
        if x[0] == '&' && semi is Some && d.contains_key(x.subrange(1, 1 + semi->0)) {
        } else {
            lemma_unchanged_pass(x.drop_first(), d);
            assert(seq![x[0]] + x.drop_first() =~= x);
        }
    }
}

fn expand_once(x: &[char], defs: &EntityDefs) -> (r: (Vec<char>, bool))
    ensures
        (r.0@, r.1) == expand_once_spec(x@, defs.view()),
{
    let ghost d = defs.view();
    let mut out: Vec<char> = Vec::new();
    let mut changed = false;
    let mut i: usize = 0;
    assert(x@.skip(0) =~= x@);
    while i < x.len()
        invariant
            i <= x.len(),
            d == defs.view(),
            out@ + expand_once_spec(x@.skip(i as int), d).0 == expand_once_spec(x@, d).0,
            (changed || expand_once_spec(x@.skip(i as int), d).1) == expand_once_spec(x@, d).1,
        decreases x.len() - i,
    {
        let ghost rest = x@.skip(i as int);
        proof {
            lemma_first_index(rest.drop_first(), ';');
        }
        let mut replaced = false;
        if x[i] == '&' {
            let mut q = i + 1;
            while q < x.len() && x[q] != ';'
                invariant
                    i + 1 <= q <= x.len(),
                    forall|l: int| i + 1 <= l < q ==> x@[l] != ';',
                decreases x.len() - q,
            {
                q += 1;
            }
            if q < x.len() {
                assert(first_index(rest.drop_first(), ';') == Some(q - i - 1)) by {
                    match first_index(rest.drop_first(), ';') {
                        Some(k) => {
                            assert(rest.drop_first()[q - i - 1] == x@[q as int]);
                            if k < q - i - 1 {
                                assert(rest.drop_first()[k] == x@[i + 1 + k]);
                            }
                        },
                        None => {
                            assert(rest.drop_first()[q - i - 1] == x@[q as int]);
                        },
                    }
                }
                let name = crate::text::sub_chars(x, i + 1, q);
                assert(name@ =~= rest.subrange(1, 1 + (q - i - 1)));
                match defs.get_chars(&name) {
                    Some(val) => {
                        let ghost o0 = out@;
                        crate::text::append_chars(&mut out, &val);
                        assert(rest.skip(q - i - 1 + 2) =~= x@.skip(q + 1));
                        assert(o0 + (val@ + expand_once_spec(x@.skip(q + 1), d).0) =~= out@
                            + expand_once_spec(x@.skip(q + 1), d).0);
                        changed = true;
                        i = q + 1;
                        replaced = true;
                    },
                    None => {},
                }
            } else {
                assert(first_index(rest.drop_first(), ';') is None) by {
                    match first_index(rest.drop_first(), ';') {
                        Some(k) => {
                            assert(rest.drop_first()[k] == x@[i + 1 + k]);
                        },
                        None => {},
                    }
                }
            }
        }
        if !replaced {
            let ghost o0 = out@;
            out.push(x[i]);
            assert(rest.drop_first() =~= x@.skip(i + 1));
            assert(o0 + (seq![rest[0]] + expand_once_spec(x@.skip(i + 1), d).0) =~= out@
                + expand_once_spec(x@.skip(i + 1), d).0);
            i += 1;
        }
    }
    assert(x@.skip(i as int) =~= Seq::<char>::empty());
    assert(out@ + Seq::<char>::empty() =~= out@);
    (out, changed)
}

/// Replace every `&name;` reference to a declared entity by its value,
/// expanding nested references up to eight levels deep.
pub fn expand(xml: &str, defs: &EntityDefs) -> (r: String)
    ensures
        r@ == spec_expand(xml@, defs.view()),
{
    let x = str_chars(xml);
    if defs.is_empty() {
        assert(defs.view().len() == 0);
        return chars_to_string(&x);
    }
    let ghost xv = x@;
    assert(spec_expand(xml@, defs.view()) == expand_passes(xv, defs.view(), 8));
    let mut cur = x;
    let mut n: usize = 8;
    while n > 0
        invariant
            n <= 8,
            defs.view().len() != 0,
            spec_expand(xml@, defs.view()) == expand_passes(xv, defs.view(), 8),
            expand_passes(xv, defs.view(), 8) == expand_passes(cur@, defs.view(), n as nat),
        decreases n,
    {
        let ghost c0 = cur@;
        let ghost n0 = n;
        let (next, changed) = expand_once(&cur, defs);
        assert(expand_passes(c0, defs.view(), n0 as nat) == if changed {
            expand_passes(next@, defs.view(), (n0 - 1) as nat)
        } else {
            next@
        });
        cur = next;
        n -= 1;
        if !changed {
            assert(expand_passes(xv, defs.view(), 8) == cur@);
            return chars_to_string(&cur);
        }
    }
    chars_to_string(&cur)
}

} // verus!
