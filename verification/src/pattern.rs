//! A `<pattern>`: pattern tokens in order plus a `<marker>` span, matched
//! against the token positions of an analyzed sentence.
//!
//! Matching is greedy backtracking: each pattern token first takes as many
//! consecutive positions as it may (up to `max`, at least `min`), and after it
//! the nearest gap (up to `skip`) is tried first; on failure fewer repetitions
//! are tried.

use vstd::prelude::*;
use crate::analyzed::{sentence_view, AnalyzedTokenReadings, TokenV};
use crate::token::{tm_matches_at, TokenMatcher};

verus! {

pub struct Pattern {
    pub tokens: Vec<TokenMatcher>,
    /// Index of the first marked pattern token.
    pub mark_from: usize,
    /// Index just past the last marked pattern token.
    pub mark_to: usize,
}

/// A successful match, in sentence-position space (half-open spans).
#[derive(Debug, Clone, PartialEq, Eq)]
pub struct PatternMatch {
    pub from_token: usize,
    pub to_token: usize,
    pub marker_from_token: usize,
    pub marker_to_token: usize,
    /// Where each pattern token's match began.
    pub element_start: Vec<usize>,
    /// How many positions each pattern token matched.
    pub element_count: Vec<usize>,
}

/// The marker lies inside the pattern (always true of an empty pattern).
pub open spec fn pattern_wf(p: Pattern) -> bool {
    p.tokens@.len() == 0 || (p.mark_from < p.tokens@.len() && p.mark_to <= p.tokens@.len())
}

pub open spec fn min_count(t: TokenMatcher) -> int {
    if t.min < 0 {
        0
    } else {
        t.min as int
    }
}

pub open spec fn max_count(t: TokenMatcher) -> int {
    if t.max < 0 {
        0x7fff_ffff
    } else {
        t.max as int
    }
}

/// The number of consecutive positions from `ti` the token matches, at most `cap`.
pub open spec fn run_len(t: TokenMatcher, toks: Seq<TokenV>, ti: int, cap: int) -> int
    decreases toks.len() - ti,
{
    if ti < 0 || ti >= toks.len() || cap <= 0 || !tm_matches_at(t, toks, ti) {
        0
    } else {
        1 + run_len(t, toks, ti + 1, cap - 1)
    }
}

/// The largest gap allowed after a token whose repetitions end at `after`.
pub open spec fn gap_limit(t: TokenMatcher, len: int, after: int) -> int {
    let rem = if after <= len {
        len - after
    } else {
        0
    };
    if t.skip < 0 {
        rem
    } else if (t.skip as int) < rem {
        t.skip as int
    } else {
        rem
    }
}

/// Match pattern tokens `pi..` from position `ti`: the end position and, per
/// pattern token, where it began and how many positions it took.
pub open spec fn spec_solve(p: Pattern, toks: Seq<TokenV>, pi: int, ti: int) -> Option<
    (int, Seq<(int, int)>),
>
    decreases p.tokens@.len() - pi, 2int, 0int, 0int,
{
    if pi < 0 {
        None
    } else if pi >= p.tokens@.len() {
        Some((ti, Seq::empty()))
    } else {
        let t = p.tokens@[pi];
        let a = run_len(t, toks, ti, max_count(t));
        if a < min_count(t) {
            None
        } else {
            try_counts(p, toks, pi, ti, a)
        }
    }
}

/// Repetition counts `c`, `c - 1`, ... down to the minimum.
pub open spec fn try_counts(
    p: Pattern,
    toks: Seq<TokenV>,
    pi: int,
    ti: int,
    c: int,
) -> Option<(int, Seq<(int, int)>)>
    decreases p.tokens@.len() - pi, 1int, c, 0int,
{
    if pi < 0 || pi >= p.tokens@.len() || c < min_count(p.tokens@[pi]) {
        None
    } else {
        match try_gaps(p, toks, pi, ti, c, 0) {
            Some(r) => Some(r),
            None => if c == min_count(p.tokens@[pi]) {
                None
            } else {
                try_counts(p, toks, pi, ti, c - 1)
            },
        }
    }
}

/// Gaps `g`, `g + 1`, ... up to the limit after `c` repetitions.
pub open spec fn try_gaps(
    p: Pattern,
    toks: Seq<TokenV>,
    pi: int,
    ti: int,
    c: int,
    g: int,
) -> Option<(int, Seq<(int, int)>)>
    decreases p.tokens@.len() - pi, 0int, 0int, gap_limit(p.tokens@[pi], toks.len() as int, ti + c)
        + 1 - g,
{
    if pi < 0 || pi >= p.tokens@.len() || g < 0 || g > gap_limit(
        p.tokens@[pi],
        toks.len() as int,
        ti + c,
    ) {
        None
    } else {
        match spec_solve(p, toks, pi + 1, ti + c + g) {
            Some((end, path)) => Some((end, seq![(ti, c)] + path)),
            None => try_gaps(p, toks, pi, ti, c, g + 1),
        }
    }
}

/// The whole pattern from position `start` (an empty pattern never matches).
pub open spec fn spec_match_at(p: Pattern, toks: Seq<TokenV>, start: int) -> Option<
    (int, Seq<(int, int)>),
> {
    if p.tokens@.len() == 0 {
        None
    } else {
        spec_solve(p, toks, 0, start)
    }
}

/// The last marked pattern token.
pub open spec fn marker_last(p: Pattern) -> int {
    let l = if p.mark_to >= 1 {
        p.mark_to - 1
    } else {
        0
    };
    if l < p.mark_from {
        p.mark_from as int
    } else {
        l
    }
}

/// A match in sentence-position space.
pub struct PatternMatchV {
    pub from: int,
    pub to: int,
    pub marker_from: int,
    pub marker_to: int,
    pub starts: Seq<int>,
    pub counts: Seq<int>,
}

pub open spec fn pm_view(m: PatternMatch) -> PatternMatchV {
    PatternMatchV {
        from: m.from_token as int,
        to: m.to_token as int,
        marker_from: m.marker_from_token as int,
        marker_to: m.marker_to_token as int,
        starts: m.element_start@.map_values(|x: usize| x as int),
        counts: m.element_count@.map_values(|x: usize| x as int),
    }
}

/// The match of `p` at `start`, as the backtracking search finds it.
pub open spec fn spec_match_view(p: Pattern, toks: Seq<TokenV>, start: int) -> Option<
    PatternMatchV,
> {
    match spec_match_at(p, toks, start) {
        None => None,
        Some((end, path)) => Some(
            PatternMatchV {
                from: start,
                to: end,
                marker_from: path[p.mark_from as int].0,
                marker_to: path[marker_last(p)].0 + path[marker_last(p)].1,
                starts: path.map_values(|x: (int, int)| x.0),
                counts: path.map_values(|x: (int, int)| x.1),
            },
        ),
    }
}

/// `m` is the match of `p` at `start`.
pub open spec fn is_match_result(
    p: Pattern,
    toks: Seq<TokenV>,
    start: int,
    m: PatternMatch,
) -> bool {
    spec_match_view(p, toks, start) == Some(pm_view(m))
}

/// The first start position at or after `start` where the pattern matches.
pub open spec fn spec_first_match(p: Pattern, toks: Seq<TokenV>, start: int) -> Option<
    int,
>
    decreases toks.len() - start,
{
    if start < 0 || start >= toks.len() {
        None
    } else if spec_match_at(p, toks, start) is Some {
        Some(start)
    } else {
        spec_first_match(p, toks, start + 1)
    }
}

/// The recorded path of pattern tokens `pi..`.
pub open spec fn rec_path(rec: Seq<(usize, usize)>, pi: int) -> Seq<(int, int)> {
    rec.skip(pi).map_values(|x: (usize, usize)| (x.0 as int, x.1 as int))
}

pub proof fn lemma_solve_path_len(p: Pattern, toks: Seq<TokenV>, pi: int, ti: int)
    requires
        0 <= pi <= p.tokens@.len(),
    ensures
        spec_solve(p, toks, pi, ti) matches Some((end, path)) ==> path.len() == p.tokens@.len()
            - pi && end >= ti,
    decreases p.tokens@.len() - pi, 2int, 0int, 0int,
{
    if pi < p.tokens@.len() {
        let t = p.tokens@[pi];
        let a = run_len(t, toks, ti, max_count(t));
        if a >= min_count(t) {
            lemma_counts_path_len(p, toks, pi, ti, a);
        }
    }
}

proof fn lemma_counts_path_len(
    p: Pattern,
    toks: Seq<TokenV>,
    pi: int,
    ti: int,
    c: int,
)
    requires
        0 <= pi < p.tokens@.len(),
    ensures
        try_counts(p, toks, pi, ti, c) matches Some((end, path)) ==> path.len() == p.tokens@.len()
            - pi && end >= ti,
    decreases p.tokens@.len() - pi, 1int, c, 0int,
{
    if c >= min_count(p.tokens@[pi]) {
        lemma_gaps_path_len(p, toks, pi, ti, c, 0);
        if c > min_count(p.tokens@[pi]) {
            lemma_counts_path_len(p, toks, pi, ti, c - 1);
        }
    }
}

proof fn lemma_gaps_path_len(
    p: Pattern,
    toks: Seq<TokenV>,
    pi: int,
    ti: int,
    c: int,
    g: int,
)
    requires
        0 <= pi < p.tokens@.len(),
        c >= 0,
    ensures
        try_gaps(p, toks, pi, ti, c, g) matches Some((end, path)) ==> path.len() == p.tokens@.len()
            - pi && end >= ti,
    decreases p.tokens@.len() - pi, 0int, 0int, gap_limit(p.tokens@[pi], toks.len() as int, ti + c)
        + 1 - g,
{
    if 0 <= g <= gap_limit(p.tokens@[pi], toks.len() as int, ti + c) {
        lemma_solve_path_len(p, toks, pi + 1, ti + c + g);
        lemma_gaps_path_len(p, toks, pi, ti, c, g + 1);
    }
}


pub proof fn lemma_first_match(p: Pattern, toks: Seq<TokenV>, start: int)
    ensures
        spec_first_match(p, toks, start) matches Some(f) ==> start <= f < toks.len() && spec_match_at(
            p,
            toks,
            f,
        ) is Some,
    decreases toks.len() - start,
{
    if 0 <= start < toks.len() && spec_match_at(p, toks, start) is None {
        lemma_first_match(p, toks, start + 1);
    }
}

/// The spans `[from, to)` of the successive non-overlapping matches found by
/// scanning from `s` (after each match the scan resumes at its end, or one
/// past its start when it is empty).
pub open spec fn match_spans(p: Pattern, toks: Seq<TokenV>, s: int) -> Seq<(int, int)>
    decreases toks.len() - s,
{
    if s < 0 || s >= toks.len() {
        Seq::empty()
    } else {
        match spec_first_match(p, toks, s) {
            None => Seq::empty(),
            Some(f) => {
                proof {
                    lemma_first_match(p, toks, s);
                }
                match spec_match_at(p, toks, f) {
                    None => Seq::empty(),
                    Some((end, _path)) => {
                        let next = if end > f {
                            end
                        } else {
                            f + 1
                        };
                        if next >= toks.len() {
                            seq![(f, end)]
                        } else {
                            seq![(f, end)] + match_spans(p, toks, next)
                        }
                    },
                }
            },
        }
    }
}

/// Position `i` lies in one of the spans.
pub open spec fn in_spans(sp: Seq<(int, int)>, i: int) -> bool {
    exists|k: int| 0 <= k < sp.len() && (#[trigger] sp[k]).0 <= i < sp[k].1
}

/// Position `i` is covered by a match of one of the patterns.
pub open spec fn covered(antis: Seq<Pattern>, toks: Seq<TokenV>, i: int) -> bool {
    exists|a: int| 0 <= a < antis.len() && in_spans(match_spans(#[trigger] antis[a], toks, 0), i)
}

/// For each sentence position, whether a match of one of `antis` covers it.
pub fn antipattern_coverage(antis: &[Pattern], tokens: &[AnalyzedTokenReadings]) -> (r: Vec<bool>)
    requires
        forall|a: int| 0 <= a < antis@.len() ==> pattern_wf(#[trigger] antis@[a]),
    ensures
        r@.len() == sentence_view(tokens@).len(),
        forall|i: int| 0 <= i < sentence_view(tokens@).len() ==> r@[i] == covered(antis@, sentence_view(tokens@), i),
{
    let n = tokens.len();
    let mut blocked: Vec<bool> = Vec::new();
    let mut k: usize = 0;
    while k < n
        invariant
            k <= n,
            blocked@.len() == k,
            forall|i: int| 0 <= i < k ==> !blocked@[i],
        decreases n - k,
    {
        blocked.push(false);
        k += 1;
    }
    let mut a: usize = 0;
    while a < antis.len()
        invariant
            a <= antis@.len(),
            n == sentence_view(tokens@).len(),
            blocked@.len() == n,
            forall|b: int| 0 <= b < antis@.len() ==> pattern_wf(#[trigger] antis@[b]),
            forall|i: int|
                0 <= i < n ==> blocked@[i] == exists|b: int|
                    0 <= b < a && in_spans(match_spans(#[trigger] antis@[b], sentence_view(tokens@), 0), i),
        decreases antis.len() - a,
    {
        let anti = &antis[a];
        let ghost before = blocked@;
        let ghost all = match_spans(*anti, sentence_view(tokens@), 0);
        let ghost mut done: Seq<(int, int)> = Seq::empty();
        let mut s: usize = 0;
        while s < n
            invariant_except_break
                done + match_spans(*anti, sentence_view(tokens@), s as int) == all,
            invariant
                n == sentence_view(tokens@).len(),
                blocked@.len() == n,
                pattern_wf(*anti),
                forall|i: int| 0 <= i < n ==> blocked@[i] == (before[i] || in_spans(done, i)),
            ensures
                blocked@.len() == n,
                done == all,
                forall|i: int| 0 <= i < n ==> blocked@[i] == (before[i] || in_spans(done, i)),
            decreases n - s,
        {
            let m = match anti.find_at_or_after(tokens, s) {
                Some(m) => m,
                None => {
                    assert(match_spans(*anti, sentence_view(tokens@), s as int) =~= Seq::<(int, int)>::empty());
                    assert(done + Seq::<(int, int)>::empty() =~= done);
                    break;
                },
            };
            proof {
                lemma_first_match(*anti, sentence_view(tokens@), s as int);
            }
            let ghost sp = (m.from_token as int, m.to_token as int);
            let next = if m.to_token > m.from_token {
                m.to_token
            } else {
                m.from_token + 1
            };
            assert(next > s);
            assert(match_spans(*anti, sentence_view(tokens@), s as int) =~= seq![sp] + match_spans(
                *anti,
                sentence_view(tokens@),
                next as int,
            ));
            let ghost b0 = blocked@;
            let lo = m.from_token;
            let hi = m.to_token;
            let top = if hi < n {
                hi
            } else {
                n
            };
            let mut i = lo;
            while i < top
                invariant
                    lo <= i,
                    lo <= top ==> i <= top,
                    lo > top ==> i == lo,
                    top <= n,
                    blocked@.len() == n,
                    forall|j: int| 0 <= j < n ==> #[trigger] blocked@[j] == (b0[j] || (lo <= j && j < i)),
                decreases top - i,
            {
                let ghost bb = blocked@;
                blocked.set(i, true);
                assert forall|j: int| 0 <= j < n implies #[trigger] blocked@[j] == (b0[j] || (lo <= j
                    && j < i + 1)) by {
                    if j != i {
                        assert(blocked@[j] == bb[j]);
                    }
                }
                i += 1;
            }
            assert(sp == (lo as int, hi as int));
            assert forall|j: int| 0 <= j < n implies #[trigger] blocked@[j] == (b0[j] || (lo <= j
                && j < hi)) by {
                assert(blocked@[j] == (b0[j] || (lo <= j && j < i)));
            }
            assert forall|j: int| 0 <= j < n implies #[trigger] b0[j] == (before[j] || in_spans(
                done,
                j,
            )) by {
            }
            proof {
                let d2 = done.push(sp);
                assert forall|j: int| 0 <= j < n implies #[trigger] blocked@[j] == (before[j]
                    || in_spans(d2, j)) by {
                    assert(blocked@[j] == (b0[j] || (lo <= j && j < hi)));
                    assert(b0[j] == (before[j] || in_spans(done, j)));
                    if in_spans(done, j) {
                        let q = choose|q: int| 0 <= q < done.len() && (#[trigger] done[q]).0 <= j
                            < done[q].1;
                        assert(d2[q] == done[q]);
                    }
                    if in_spans(d2, j) && !in_spans(done, j) {
                        let q = choose|q: int| 0 <= q < d2.len() && (#[trigger] d2[q]).0 <= j
                            < d2[q].1;
                        if q < done.len() {
                            assert(d2[q] == done[q]);
                        }
                    }
                    if lo <= j < hi {
                        assert(d2[done.len() as int] == sp);
                    }
                }
                assert(d2 + match_spans(*anti, sentence_view(tokens@), next as int) =~= done + match_spans(
                    *anti,
                    sentence_view(tokens@),
                    s as int,
                ));
                done = d2;
            }
            if next >= n {
                assert(match_spans(*anti, sentence_view(tokens@), next as int) =~= Seq::<(int, int)>::empty());
                assert(done + Seq::<(int, int)>::empty() =~= done);
                break;
            }
            s = next;
        }
        proof {
            assert forall|i: int| 0 <= i < n implies blocked@[i] == exists|b: int|
                0 <= b < a + 1 && in_spans(match_spans(#[trigger] antis@[b], sentence_view(tokens@), 0), i) by {
                if exists|b: int|
                    0 <= b < a + 1 && in_spans(match_spans(#[trigger] antis@[b], sentence_view(tokens@), 0), i) {
                    let b = choose|b: int|
                        0 <= b < a + 1 && in_spans(match_spans(#[trigger] antis@[b], sentence_view(tokens@), 0), i);
                    if b < a {
                        assert(before[i]);
                    }
                }
                if in_spans(done, i) {
                    assert(antis@[a as int] == *anti);
                }
            }
        }
        a += 1;
    }
    blocked
}

impl Pattern {
    /// A pattern of `tokens`, all of them marked.
    pub fn new(tokens: Vec<TokenMatcher>) -> (r: Pattern)
        ensures
            r.tokens == tokens,
            r.mark_from == 0,
            r.mark_to == tokens@.len(),
            pattern_wf(r),
    {
        let n = tokens.len();
        Pattern { tokens, mark_from: 0, mark_to: n }
    }

    /// The first match at or after `start` (start positions scanned in order).
    pub fn find_at_or_after(&self, tokens: &[AnalyzedTokenReadings], start: usize) -> (r: Option<
        PatternMatch,
    >)
        requires
            pattern_wf(*self),
        ensures
            r is Some <==> spec_first_match(*self, sentence_view(tokens@), start as int) is Some,
            r matches Some(m) ==> spec_first_match(*self, sentence_view(tokens@), start as int) == Some(
                m.from_token as int,
            ) && is_match_result(*self, sentence_view(tokens@), m.from_token as int, m),
    {
        let mut s = start;
        while s < tokens.len()
            invariant
                pattern_wf(*self),
                start <= s,
                spec_first_match(*self, sentence_view(tokens@), start as int) == spec_first_match(
                    *self,
                    sentence_view(tokens@),
                    s as int,
                ),
            decreases tokens.len() - s,
        {
            let m = self.match_at(tokens, s);
            if m.is_some() {
                return m;
            }
            s += 1;
        }
        None
    }

    /// Try to match the whole pattern starting exactly at position `start`.
    pub fn match_at(&self, tokens: &[AnalyzedTokenReadings], start: usize) -> (r: Option<
        PatternMatch,
    >)
        requires
            pattern_wf(*self),
        ensures
            r is Some <==> spec_match_at(*self, sentence_view(tokens@), start as int) is Some,
            r matches Some(m) ==> is_match_result(*self, sentence_view(tokens@), start as int, m),
    {
        let n = self.tokens.len();
        if n == 0 {
            return None;
        }
        let mut rec: Vec<(usize, usize)> = Vec::new();
        let mut k: usize = 0;
        while k < n
            invariant
                k <= n,
                rec@.len() == k,
            decreases n - k,
        {
            rec.push((0, 0));
            k += 1;
        }
        let end = match self.solve(tokens, 0, start, &mut rec) {
            Some(e) => e,
            None => return None,
        };
        proof {
            lemma_solve_path_len(*self, sentence_view(tokens@), 0, start as int);
        }
        let ghost path = rec_path(rec@, 0);
        assert(rec@.skip(0) =~= rec@);
        let mut element_start: Vec<usize> = Vec::new();
        let mut element_count: Vec<usize> = Vec::new();
        let mut j: usize = 0;
        while j < n
            invariant
                j <= n,
                rec@.len() == n,
                path == rec_path(rec@, 0),
                rec@.skip(0) == rec@,
                element_start@.len() == j,
                element_count@.len() == j,
                forall|i: int|
                    0 <= i < j ==> element_start@[i] == rec@[i].0 && element_count@[i]
                        == rec@[i].1,
            decreases n - j,
        {
            element_start.push(rec[j].0);
            element_count.push(rec[j].1);
            j += 1;
        }
        let from = rec[self.mark_from].0;
        let last = if self.mark_to >= 1 {
            self.mark_to - 1
        } else {
            0
        };
        let last = if last < self.mark_from {
            self.mark_from
        } else {
            last
        };
        let (ls, lc) = rec[last];
        assert(path[last as int] == (ls as int, lc as int));
        let m = PatternMatch {
            from_token: start,
            to_token: end,
            marker_from_token: from,
            marker_to_token: ls + lc,
            element_start,
            element_count,
        };
        proof {
            let (e, pth) = spec_match_at(*self, sentence_view(tokens@), start as int)->0;
            assert(pth == path);
            assert(pm_view(m).starts =~= path.map_values(|x: (int, int)| x.0));
            assert(pm_view(m).counts =~= path.map_values(|x: (int, int)| x.1));
        }
        Some(m)
    }

    /// Recursive greedy backtracking; records each pattern token's
    /// `(start, count)` in `rec` and returns the end position.
    fn solve(
        &self,
        tokens: &[AnalyzedTokenReadings],
        pi: usize,
        ti: usize,
        rec: &mut Vec<(usize, usize)>,
    ) -> (r: Option<usize>)
        requires
            pi <= self.tokens@.len(),
            old(rec)@.len() == self.tokens@.len(),
        ensures
            final(rec)@.len() == self.tokens@.len(),
            forall|k: int| 0 <= k < pi ==> final(rec)@[k] == old(rec)@[k],
            r is Some <==> spec_solve(*self, sentence_view(tokens@), pi as int, ti as int) is Some,
            r matches Some(end) ==> spec_solve(*self, sentence_view(tokens@), pi as int, ti as int) == Some(
                (end as int, rec_path(final(rec)@, pi as int)),
            ),
            r is Some ==> forall|k: int|
                pi <= k < self.tokens@.len() ==> final(rec)@[k].0 + final(rec)@[k].1 <= usize::MAX,
        decreases self.tokens@.len() - pi,
    {
        let n = self.tokens.len();
        let ghost r0 = rec@;
        if pi == n {
            assert(rec_path(rec@, pi as int) =~= Seq::<(int, int)>::empty());
            return Some(ti);
        }
        let pt = &self.tokens[pi];
        let len = tokens.len();
        let max_c: usize = if pt.max < 0 {
            0x7fff_ffffusize
        } else {
            pt.max as usize
        };
        let min_c: usize = if pt.min < 0 {
            0
        } else {
            pt.min as usize
        };
        let mut avail: usize = 0;
        while ti < len && avail < len - ti && avail < max_c && pt.matches_at(
            tokens,
            ti + avail,
        )
            invariant
                pt == self.tokens@[pi as int],
                len == sentence_view(tokens@).len(),
                avail <= max_c,
                ti < len ==> avail <= len - ti,
                max_c == max_count(*pt),
                run_len(*pt, sentence_view(tokens@), ti as int, max_c as int) == avail + run_len(
                    *pt,
                    sentence_view(tokens@),
                    ti + avail,
                    max_c - avail,
                ),
            decreases max_c - avail,
        {
            avail += 1;
        }
        assert(run_len(*pt, sentence_view(tokens@), ti + avail, max_c - avail) == 0);
        if avail < min_c {
            return None;
        }
        assert(spec_solve(*self, sentence_view(tokens@), pi as int, ti as int) == try_counts(
            *self,
            sentence_view(tokens@),
            pi as int,
            ti as int,
            avail as int,
        ));
        let mut c = avail;
        loop
            invariant
                pi < n,
                n == self.tokens@.len(),
                pt == self.tokens@[pi as int],
                len == sentence_view(tokens@).len(),
                min_c == min_count(*pt),
                min_c <= c <= avail,
                ti < len ==> avail <= len - ti,
                ti >= len ==> avail == 0,
                try_counts(*self, sentence_view(tokens@), pi as int, ti as int, avail as int) == try_counts(
                    *self,
                    sentence_view(tokens@),
                    pi as int,
                    ti as int,
                    c as int,
                ),
                rec@.len() == n,
                r0 == old(rec)@,
                forall|k: int| 0 <= k < pi ==> rec@[k] == r0[k],
                spec_solve(*self, sentence_view(tokens@), pi as int, ti as int) == try_counts(
                    *self,
                    sentence_view(tokens@),
                    pi as int,
                    ti as int,
                    avail as int,
                ),
            decreases c,
        {
            let after = ti + c;
            let rem = if after <= len {
                len - after
            } else {
                0
            };
            let max_skip = if pt.skip < 0 {
                rem
            } else if (pt.skip as usize) < rem {
                pt.skip as usize
            } else {
                rem
            };
            assert(max_skip == gap_limit(*pt, len as int, after as int));
            rec.set(pi, (ti, c));
            let mut g: usize = 0;
            loop
                invariant
                    pi < n,
                    n == self.tokens@.len(),
                    pt == self.tokens@[pi as int],
                    len == sentence_view(tokens@).len(),
                    after == ti + c,
                    max_skip == gap_limit(*pt, len as int, after as int),
                    g <= max_skip,
                    after <= len || max_skip == 0,
                    after <= len ==> max_skip <= len - after,
                    try_gaps(*self, sentence_view(tokens@), pi as int, ti as int, c as int, 0) == try_gaps(
                        *self,
                        sentence_view(tokens@),
                        pi as int,
                        ti as int,
                        c as int,
                        g as int,
                    ),
                    rec@.len() == n,
                    rec@[pi as int] == (ti, c),
                    r0 == old(rec)@,
                    forall|k: int| 0 <= k < pi ==> rec@[k] == r0[k],
                    min_c <= c,
                    min_c == min_count(*pt),
                    spec_solve(*self, sentence_view(tokens@), pi as int, ti as int) == try_counts(
                        *self,
                        sentence_view(tokens@),
                        pi as int,
                        ti as int,
                        c as int,
                    ),
                ensures
                    try_gaps(*self, sentence_view(tokens@), pi as int, ti as int, c as int, 0) is None,
                    rec@.len() == n,
                    r0 == old(rec)@,
                    forall|k: int| 0 <= k < pi ==> rec@[k] == r0[k],
                decreases max_skip - g,
            {
                let ghost rb = rec@;
                let res = self.solve(tokens, pi + 1, after + g, rec);
                assert(rec@[pi as int] == rb[pi as int]);
                if let Some(end) = res {
                    assert(rec_path(rec@, pi as int) =~= seq![(ti as int, c as int)] + rec_path(
                        rec@,
                        pi + 1,
                    ));
                    assert forall|k: int| pi <= k < n implies rec@[k].0 + rec@[k].1
                        <= usize::MAX by {
                        if k == pi {
                            assert(rec@[k] == (ti, c));
                        }
                    }
                    return Some(end);
                }
                if g == max_skip {
                    assert(try_gaps(*self, sentence_view(tokens@), pi as int, ti as int, c as int, g + 1) is None);
                    assert(try_gaps(*self, sentence_view(tokens@), pi as int, ti as int, c as int, g as int) is None);
                    break;
                }
                g += 1;
            }
            if c == min_c {
                return None;
            }
            c -= 1;
        }
    }
}

} // verus!
