//! What the tokenizer's own steps keep of the text: the hyphen and apostrophe
//! splitting of a word and the re-joining of URLs give back, concatenated,
//! exactly what they were handed, and make no empty token.

use vstd::prelude::*;
use vstd::utf8::{encode_scalar, encode_utf8};
use crate::analyzed::char_index;
use crate::tokenizer::{
    first_contraction, groups_words, piece_tokens, raw_pieces, replace_str, spec_join_emails,
    spec_tokenize, split_fold, unshield, find_spec, is_variation_selector, E_MAIL, APOSTYPEW,
    APOSTYPOG, blen, concat, email_fold, email_step, head_bytes, hyphen_tokens, lead_hyphens, middle_tokens,
    sat_add, spec_join_urls, spec_words_to_add, split_apos, tail_bytes, trail_hyphens, url_fold,
};

verus! {

/// Every token of `l` holds at least one character.
pub open spec fn all_nonempty(l: Seq<Seq<char>>) -> bool {
    forall|i: int| 0 <= i < l.len() ==> (#[trigger] l[i]).len() > 0
}

/// Concatenation distributes over appending token lists.
pub proof fn lemma_concat_append(a: Seq<Seq<char>>, b: Seq<Seq<char>>)
    ensures
        concat(a + b) == concat(a) + concat(b),
    decreases b.len(),
{
    if b.len() == 0 {
        assert(a + b =~= a);
        assert(concat(a) + concat(b) =~= concat(a));
    } else {
        assert((a + b).drop_last() =~= a + b.drop_last());
        lemma_concat_append(a, b.drop_last());
        assert(concat(a + b) =~= concat(a) + concat(b));
    }
}

proof fn lemma_concat_one(x: Seq<char>)
    ensures
        concat(seq![x]) == x,
{
    assert(seq![x].drop_last() =~= Seq::<Seq<char>>::empty());
    assert(concat(seq![x].drop_last()) =~= Seq::<char>::empty());
    assert(concat(seq![x]) =~= x);
}

proof fn lemma_split_apos(cur: Seq<char>, rest: Seq<char>)
    ensures
        concat(split_apos(cur, rest)) == cur + rest,
        all_nonempty(split_apos(cur, rest)),
    decreases rest.len(),
{
    let flushed: Seq<Seq<char>> = if cur.len() > 0 {
        seq![cur]
    } else {
        Seq::empty()
    };
    if cur.len() > 0 {
        lemma_concat_one(cur);
    }
    assert(concat(flushed) =~= cur);
    if rest.len() == 0 {
        assert(cur + rest =~= cur);
    } else if crate::tokenizer::is_apostrophe(rest[0]) {
        let tail = split_apos(Seq::empty(), rest.drop_first());
        lemma_split_apos(Seq::empty(), rest.drop_first());
        lemma_concat_one(seq![rest[0]]);
        lemma_concat_append(flushed, seq![seq![rest[0]]]);
        lemma_concat_append(flushed + seq![seq![rest[0]]], tail);
        assert(cur + rest =~= cur + seq![rest[0]] + (Seq::<char>::empty() + rest.drop_first()));
        let all = flushed + seq![seq![rest[0]]] + tail;
        assert forall|i: int| 0 <= i < all.len() implies (#[trigger] all[i]).len() > 0 by {
            if i >= flushed.len() + 1 {
                assert(all[i] == tail[i - flushed.len() - 1]);
            }
        }
    } else {
        lemma_split_apos(cur.push(rest[0]), rest.drop_first());
        assert(cur.push(rest[0]) + rest.drop_first() =~= cur + rest);
    }
}

proof fn lemma_hyphen_tokens(n: nat)
    ensures
        concat(hyphen_tokens(n)) == Seq::new(n, |i: int| '-'),
        all_nonempty(hyphen_tokens(n)),
    decreases n,
{
    if n > 0 {
        lemma_hyphen_tokens((n - 1) as nat);
        assert(hyphen_tokens(n).drop_last() =~= hyphen_tokens((n - 1) as nat));
        assert(Seq::new(n, |i: int| '-') =~= Seq::new((n - 1) as nat, |i: int| '-') + seq!['-']);
    }
}

proof fn lemma_lead_dashes(s: Seq<char>)
    ensures
        lead_hyphens(s) <= s.len(),
        s.take(lead_hyphens(s) as int) == Seq::new(lead_hyphens(s), |i: int| '-'),
    decreases s.len(),
{
    if s.len() > 0 && s[0] == '-' {
        lemma_lead_dashes(s.drop_first());
        let n = lead_hyphens(s);
        assert(s.take(n as int) =~= seq!['-'] + s.drop_first().take((n - 1) as int));
        assert(Seq::new(n, |i: int| '-') =~= seq!['-'] + Seq::new((n - 1) as nat, |i: int| '-'));
    } else {
        assert(s.take(0) =~= Seq::new(0, |i: int| '-'));
    }
}

proof fn lemma_trail_dashes(s: Seq<char>)
    ensures
        trail_hyphens(s) <= s.len(),
        s.skip(s.len() - trail_hyphens(s)) == Seq::new(trail_hyphens(s), |i: int| '-'),
    decreases s.len(),
{
    if s.len() > 0 && s.last() == '-' {
        lemma_trail_dashes(s.drop_last());
        let n = trail_hyphens(s);
        assert(s.skip(s.len() - n) =~= s.drop_last().skip(s.drop_last().len() - (n - 1)) + seq!['-']);
        assert(Seq::new(n, |i: int| '-') =~= Seq::new((n - 1) as nat, |i: int| '-') + seq!['-']);
    } else {
        assert(s.skip(s.len() as int) =~= Seq::new(0, |i: int| '-'));
    }
}

proof fn lemma_middle_tokens(t: Map<Seq<char>, bool>, s: Seq<char>)
    ensures
        concat(middle_tokens(t, s)) == s,
        all_nonempty(middle_tokens(t, s)),
{
    if s.len() == 0 {
    } else if middle_tokens(t, s) == seq![s] {
        lemma_concat_one(s);
    } else {
        lemma_split_apos(Seq::empty(), s);
        assert(Seq::<char>::empty() + s =~= s);
    }
}

proof fn lemma_append_nonempty(a: Seq<Seq<char>>, b: Seq<Seq<char>>)
    requires
        all_nonempty(a),
        all_nonempty(b),
    ensures
        all_nonempty(a + b),
{
    assert forall|i: int| 0 <= i < (a + b).len() implies (#[trigger] (a + b)[i]).len() > 0 by {
        if i >= a.len() {
            assert((a + b)[i] == b[i - a.len()]);
        }
    }
}

/// The hyphen and apostrophe handling of one word gives back the word,
/// whatever the tagger answers, and makes no empty token.
pub proof fn lemma_words_to_add_concat(t: Map<Seq<char>, bool>, input: Seq<char>)
    ensures
        concat(spec_words_to_add(t, input)) == input,
        all_nonempty(spec_words_to_add(t, input)),
{
    if input.len() > 0 {
        let a = lead_hyphens(input);
        lemma_lead_dashes(input);
        let s1 = input.skip(a as int);
        let b = trail_hyphens(s1);
        lemma_trail_dashes(s1);
        let s = s1.subrange(0, s1.len() - b);
        lemma_hyphen_tokens(a);
        lemma_hyphen_tokens(b);
        lemma_middle_tokens(t, s);
        lemma_concat_append(hyphen_tokens(a), middle_tokens(t, s));
        lemma_concat_append(hyphen_tokens(a) + middle_tokens(t, s), hyphen_tokens(b));
        lemma_append_nonempty(hyphen_tokens(a), middle_tokens(t, s));
        lemma_append_nonempty(hyphen_tokens(a) + middle_tokens(t, s), hyphen_tokens(b));
        assert(s1 =~= s + s1.skip(s1.len() - b));
        assert(input =~= input.take(a as int) + s1);
    } else {
        assert(concat(Seq::<Seq<char>>::empty()) =~= input);
    }
}

proof fn lemma_url_fold(l: Seq<Seq<char>>, n: int)
    requires
        0 <= n <= l.len(),
        all_nonempty(l),
    ensures
        concat(url_fold(l, n).0) + url_fold(l, n).2 == concat(l.take(n)),
        all_nonempty(url_fold(l, n).0),
        !url_fold(l, n).1 ==> url_fold(l, n).2 == Seq::<char>::empty(),
    decreases n,
{
    if n <= 0 {
        assert(l.take(0) =~= Seq::<Seq<char>>::empty());
        assert(Seq::<char>::empty() + Seq::<char>::empty() =~= Seq::<char>::empty());
    } else {
        lemma_url_fold(l, n - 1);
        let (o, in_url, url, q) = url_fold(l, n - 1);
        let i = n - 1;
        assert(l.take(n).drop_last() =~= l.take(n - 1));
        assert(l.take(n).last() == l[i]);
        assert(l[i].len() > 0);
        let (o2, in2, url2, q2) = url_fold(l, n);
        if crate::tokenizer::url_starts(i, l) && !in_url {
            assert(concat(o) + (url + l[i]) =~= (concat(o) + url) + l[i]);
        } else if in_url && crate::tokenizer::url_ends(i, l, q) {
            assert(o2 == o.push(url).push(l[i]));
            assert(o.push(url).drop_last() =~= o);
            assert(o.push(url).push(l[i]).drop_last() =~= o.push(url));
            assert(concat(o.push(url)) == concat(o) + url);
            assert(concat(o2) == concat(o.push(url)) + l[i]);
            assert(url2 == Seq::<char>::empty());
            assert(concat(o2) + url2 =~= (concat(o) + url) + l[i]);
            assert forall|k: int| 0 <= k < o2.len() implies (#[trigger] o2[k]).len() > 0 by {
                if k < o.len() {
                    assert(o2[k] == o[k]);
                }
            }
        } else if in_url {
            assert(concat(o) + (url + l[i]) =~= (concat(o) + url) + l[i]);
        } else {
            assert(o.push(l[i]).drop_last() =~= o);
            assert(concat(o2) + url2 =~= (concat(o) + url) + l[i]);
            assert forall|k: int| 0 <= k < o2.len() implies (#[trigger] o2[k]).len() > 0 by {
                if k < o.len() {
                    assert(o2[k] == o[k]);
                }
            }
        }
    }
}

/// Re-joining URLs gives back the text of the tokens it was handed and
/// makes no empty token of non-empty ones.
pub proof fn lemma_join_urls_concat(l: Seq<Seq<char>>)
    requires
        all_nonempty(l),
    ensures
        concat(spec_join_urls(l)) == concat(l),
        all_nonempty(spec_join_urls(l)),
{
    lemma_url_fold(l, l.len() as int);
    assert(l.take(l.len() as int) =~= l);
    let (o, _, url, _) = url_fold(l, l.len() as int);
    if url.len() > 0 {
        assert(o.push(url).drop_last() =~= o);
        assert forall|k: int| 0 <= k < o.push(url).len() implies (#[trigger] o.push(url)[k]).len() > 0 by {
            if k < o.len() {
                assert(o.push(url)[k] == o[k]);
            }
        }
    } else {
        assert(concat(o) + url =~= concat(o));
    }
}

// --- e-mail joining ----------------------------------------------------------

/// Byte length of the UTF-8 encoding of `s`.
pub open spec fn enc_len(s: Seq<char>) -> int {
    encode_utf8(s).len() as int
}

proof fn lemma_scalar_width(c: char)
    ensures
        1 <= encode_scalar(c as u32).len() <= 4,
{
}

proof fn lemma_enc_append(a: Seq<char>, b: Seq<char>)
    ensures
        encode_utf8(a + b) == encode_utf8(a) + encode_utf8(b),
    decreases a.len(),
{
    if a.len() == 0 {
        assert(a + b =~= b);
        assert(encode_utf8(a) + encode_utf8(b) =~= encode_utf8(b));
    } else {
        assert((a + b).drop_first() =~= a.drop_first() + b);
        lemma_enc_append(a.drop_first(), b);
        assert((a + b)[0] == a[0]);
        assert(encode_utf8(a + b) =~= encode_utf8(a) + encode_utf8(b));
    }
}

proof fn lemma_enc_len_ge(a: Seq<char>)
    ensures
        enc_len(a) >= a.len(),
    decreases a.len(),
{
    if a.len() > 0 {
        lemma_scalar_width(a[0]);
        lemma_enc_len_ge(a.drop_first());
    }
}

/// The byte offset just past `a` falls at character `a.len()` of `a + b`.
proof fn lemma_ci_prefix(a: Seq<char>, b: Seq<char>)
    ensures
        char_index(a + b, enc_len(a)) == Some(a.len() as int),
    decreases a.len(),
{
    if a.len() > 0 {
        lemma_scalar_width(a[0]);
        lemma_enc_len_ge(a);
        assert((a + b).drop_first() =~= a.drop_first() + b);
        assert((a + b)[0] == a[0]);
        lemma_ci_prefix(a.drop_first(), b);
    } else {
        assert(enc_len(a) == 0);
    }
}

/// A character index found for a byte offset is where that offset ends.
proof fn lemma_ci_unique(t: Seq<char>, b: int)
    ensures
        char_index(t, b) matches Some(k) ==> 0 <= k <= t.len() && b == enc_len(t.take(k)),
    decreases t.len(),
{
    if b == 0 {
        assert(t.take(0) =~= Seq::<char>::empty());
    } else if b > 0 && t.len() > 0 {
        let w = encode_scalar(t[0] as u32).len() as int;
        lemma_ci_unique(t.drop_first(), b - w);
        if let Some(k) = char_index(t, b) {
            let k1 = k - 1;
            assert(t.take(k) =~= seq![t[0]] + t.drop_first().take(k1));
            assert(char_index(t.drop_first(), b - w) == Some(k1));
            lemma_enc_append(seq![t[0]], t.drop_first().take(k1));
            assert(seq![t[0]].drop_first() =~= Seq::<char>::empty());
            assert(encode_utf8(seq![t[0]]) =~= encode_scalar(t[0] as u32) + encode_utf8(Seq::<char>::empty()));
            assert(enc_len(seq![t[0]]) == w);
            assert(b == w + enc_len(t.drop_first().take(k1)));
        }
    }
}

/// Byte offsets of character positions grow with them.
proof fn lemma_pos_strict(t: Seq<char>, k1: int, k2: int)
    requires
        0 <= k1 <= k2 <= t.len(),
    ensures
        enc_len(t.take(k1)) + (k2 - k1) <= enc_len(t.take(k2)),
        enc_len(t.take(k2)) <= enc_len(t),
{
    assert(t.take(k2) =~= t.take(k1) + t.subrange(k1, k2));
    lemma_enc_append(t.take(k1), t.subrange(k1, k2));
    lemma_enc_len_ge(t.subrange(k1, k2));
    assert(t =~= t.take(k2) + t.skip(k2));
    lemma_enc_append(t.take(k2), t.skip(k2));
}

/// What a search promises of its matches in `text`: each starts and ends
/// on a character boundary, starts before it ends, carries the characters
/// between, and ends no later than the next one starts.
pub open spec fn matches_fit(ms: Seq<(int, int, Seq<char>)>, text: Seq<char>) -> bool {
    &&& forall|i: int|
        0 <= i < ms.len() ==> {
            &&& (#[trigger] ms[i]).0 < ms[i].1
            &&& char_index(text, ms[i].0) is Some
            &&& char_index(text, ms[i].1) is Some
            &&& ms[i].2 == text.subrange(char_index(text, ms[i].0)->0, char_index(text, ms[i].1)->0)
        }
    &&& forall|i: int| 0 <= i < ms.len() - 1 ==> (#[trigger] ms[i]).1 <= ms[i + 1].0
}

/// The characters of the token `t = text[c..c + t.len()]` before (or from)
/// byte offset `b` of `text`, at character `k`, are those of `text` up to
/// (or from) `k`.
proof fn lemma_cut_inside(text: Seq<char>, c: int, t: Seq<char>, k: int)
    requires
        0 <= c <= k <= c + t.len() <= text.len(),
        text.subrange(c, c + t.len()) == t,
    ensures
        char_index(t, enc_len(text.take(k)) - enc_len(text.take(c))) == Some(k - c),
        enc_len(text.take(k)) - enc_len(text.take(c)) == enc_len(t.take(k - c)),
{
    assert(text.take(k) =~= text.take(c) + t.take(k - c));
    lemma_enc_append(text.take(c), t.take(k - c));
    assert(t =~= t.take(k - c) + t.skip(k - c));
    lemma_ci_prefix(t.take(k - c), t.skip(k - c));
}

/// One match joined: from a state that covers `text` up to character `c`
/// (byte `cur`), before the match or, with the match already given out,
/// inside it, the step ends at the match's end with the text covered up to
/// there and the rest still to read.
proof fn lemma_email_step(
    text: Seq<char>,
    out: Seq<Seq<char>>,
    rest: Seq<Seq<char>>,
    c: int,
    m: (int, int, Seq<char>),
)
    requires
        0 <= c <= text.len(),
        enc_len(text) <= usize::MAX,
        concat(rest) == text.skip(c),
        all_nonempty(rest),
        all_nonempty(out),
        m.0 < m.1,
        char_index(text, m.0) is Some,
        char_index(text, m.1) is Some,
        m.2 == text.subrange(char_index(text, m.0)->0, char_index(text, m.1)->0),
        enc_len(text.take(c)) <= m.0 && concat(out) == text.take(c) || m.0 < enc_len(text.take(c))
            <= m.1 && concat(out) == text.take(char_index(text, m.1)->0),
    ensures
        ({
            let (o2, r2, c2) = email_step(out, rest, enc_len(text.take(c)), m);
            let e = char_index(text, m.1)->0;
            &&& c2 == m.1
            &&& concat(o2) == text.take(e)
            &&& concat(r2) == text.skip(e)
            &&& all_nonempty(o2)
            &&& all_nonempty(r2)
        }),
    decreases rest.len(),
{
    let s = char_index(text, m.0)->0;
    let e = char_index(text, m.1)->0;
    lemma_ci_unique(text, m.0);
    lemma_ci_unique(text, m.1);
    let cur = enc_len(text.take(c));
    if c < s {
        lemma_pos_strict(text, c, s);
    }
    if s < c {
        lemma_pos_strict(text, s, c);
    }
    if c < e {
        lemma_pos_strict(text, c, e);
    }
    if e < c {
        lemma_pos_strict(text, e, c);
    }
    if s > e {
        lemma_pos_strict(text, e, s);
    }
    assert(text =~= text.take(c) + text.skip(c));
    if cur >= m.1 {
        // only where the match is already given out and ends here
        assert(c == e);
        assert(email_step(out, rest, cur, m) == (out, rest, cur));
    } else {
        if rest.len() == 0 {
            assert(text.skip(c).len() == 0);
            assert(c == text.len());
            lemma_pos_strict(text, e, c);
            assert(text.take(c) =~= text);
            assert(false);
        }
        let t = rest[0];
        assert(rest =~= seq![t] + rest.drop_first());
        lemma_concat_append(seq![t], rest.drop_first());
        lemma_concat_one(t);
        let c1 = c + t.len();
        assert(text.skip(c) =~= t + concat(rest.drop_first()));
        assert(text.subrange(c, c1) =~= t);
        assert(text.skip(c1) =~= concat(rest.drop_first()));
        assert(text.take(c1) =~= text.take(c) + t);
        lemma_enc_append(text.take(c), t);
        lemma_pos_strict(text, c1, text.len() as int);
        let next = sat_add(cur, blen(t));
        assert(next == enc_len(text.take(c1)));
        assert(rest.drop_first().len() < rest.len());
        assert forall|i: int| 0 <= i < rest.drop_first().len() implies (#[trigger] rest.drop_first()[i]).len() > 0 by {
            assert(rest.drop_first()[i] == rest[i + 1]);
        }
        assert(t.len() > 0);
        if c1 < s {
            lemma_pos_strict(text, c1, s);
        }
        if s < c1 {
            lemma_pos_strict(text, s, c1);
        }
        if c1 < e {
            lemma_pos_strict(text, c1, e);
        }
        if e < c1 {
            lemma_pos_strict(text, e, c1);
        }
        let out2 = if next <= m.0 {
            out.push(t)
        } else if cur < m.0 {
            out.push(head_bytes(t, m.0 - cur)).push(m.2)
        } else if cur == m.0 {
            out.push(m.2)
        } else {
            out
        };
        // what the step gives out covers the text up to `e`, or up to `c1`
        // while the match lies ahead
        if next <= m.0 {
            assert(out.push(t).drop_last() =~= out);
            assert(concat(out2) =~= text.take(c1));
            assert forall|i: int| 0 <= i < out2.len() implies (#[trigger] out2[i]).len() > 0 by {
                if i < out.len() {
                    assert(out2[i] == out[i]);
                }
            }
        } else {
            assert(text.take(e) =~= text.take(s) + m.2);
            if cur < m.0 {
                lemma_cut_inside(text, c, t, s);
                let h = head_bytes(t, m.0 - cur);
                assert(h == t.take(s - c));
                assert(text.take(s) =~= text.take(c) + h);
                let o1 = out.push(h);
                assert(o1.drop_last() =~= out);
                assert(out2.drop_last() =~= o1);
                assert(concat(o1) == text.take(c) + h);
                assert(concat(out2) =~= text.take(e));
                assert forall|i: int| 0 <= i < out2.len() implies (#[trigger] out2[i]).len() > 0 by {
                    if i < out.len() {
                        assert(out2[i] == out[i]);
                    } else if i == out.len() {
                        assert(out2[i] == h);
                    }
                }
            } else if cur == m.0 {
                assert(c == s);
                assert(out.push(m.2).drop_last() =~= out);
                assert(concat(out2) =~= text.take(e));
                assert forall|i: int| 0 <= i < out2.len() implies (#[trigger] out2[i]).len() > 0 by {
                    if i < out.len() {
                        assert(out2[i] == out[i]);
                    }
                }
            } else {
                assert(concat(out2) == text.take(e));
            }
        }
        if m.1 < next {
            lemma_cut_inside(text, c, t, e);
            let tl = tail_bytes(t, m.1 - cur);
            assert(tl == t.skip(e - c));
            let r2 = seq![tl] + rest.drop_first();
            lemma_concat_append(seq![tl], rest.drop_first());
            lemma_concat_one(tl);
            assert(concat(r2) =~= text.skip(e));
            assert forall|i: int| 0 <= i < r2.len() implies (#[trigger] r2[i]).len() > 0 by {
                if i > 0 {
                    assert(r2[i] == rest.drop_first()[i - 1]);
                }
            }
            assert(email_step(out, rest, cur, m) == (out2, r2, m.1));
        } else {
            assert(email_step(out, rest, cur, m) == email_step(out2, rest.drop_first(), next, m));
            lemma_email_step(text, out2, rest.drop_first(), c1, m);
        }
    }
}

/// Joining over the first `n` matches covers the text up to the end of the
/// last one joined, the rest still to read.
proof fn lemma_email_fold(list: Seq<Seq<char>>, ms: Seq<(int, int, Seq<char>)>, n: int)
    requires
        0 <= n <= ms.len(),
        all_nonempty(list),
        matches_fit(ms, concat(list)),
        enc_len(concat(list)) <= usize::MAX,
    ensures
        ({
            let (o, r, c) = email_fold(list, ms, n);
            let text = concat(list);
            exists|k: int|
                0 <= k <= text.len() && c == enc_len(text.take(k)) && #[trigger] concat(o) == text.take(k)
                    && concat(r) == text.skip(k) && (n > 0 ==> c == ms[n - 1].1)
        }),
        all_nonempty(email_fold(list, ms, n).0),
        all_nonempty(email_fold(list, ms, n).1),
    decreases n,
{
    let text = concat(list);
    if n == 0 {
        assert(text.take(0) =~= Seq::<char>::empty());
        assert(text.skip(0) =~= text);
        assert(concat(Seq::<Seq<char>>::empty()) == text.take(0));
    } else {
        lemma_email_fold(list, ms, n - 1);
        let (o, r, c) = email_fold(list, ms, n - 1);
        let k = choose|k: int|
            0 <= k <= text.len() && c == enc_len(text.take(k)) && #[trigger] concat(o) == text.take(k)
                && concat(r) == text.skip(k) && (n - 1 > 0 ==> c == ms[n - 2].1);
        let m = ms[n - 1];
        assert(m.0 < m.1);
        if n - 1 > 0 {
            assert(ms[n - 2].1 <= ms[n - 1].0);
        } else {
            assert(text.take(0) =~= Seq::<char>::empty());
            lemma_pos_strict(text, 0, k);
        }
        lemma_ci_unique(text, m.0);
        lemma_email_step(text, o, r, k, m);
        let e = char_index(text, m.1)->0;
        lemma_ci_unique(text, m.1);
        assert(concat(email_fold(list, ms, n).0) == text.take(e));
    }
}

/// E-mail joining gives back the text of the tokens it was handed and makes
/// no empty token, wherever the matches it is given lie as a search of the
/// tokens' text reports them.
pub proof fn lemma_email_fold_concat(list: Seq<Seq<char>>, ms: Seq<(int, int, Seq<char>)>)
    requires
        all_nonempty(list),
        matches_fit(ms, concat(list)),
        enc_len(concat(list)) <= usize::MAX,
    ensures
        concat(email_fold(list, ms, ms.len() as int).0 + email_fold(list, ms, ms.len() as int).1)
            == concat(list),
        all_nonempty(email_fold(list, ms, ms.len() as int).0 + email_fold(list, ms, ms.len() as int).1),
{
    lemma_email_fold(list, ms, ms.len() as int);
    let (o, r, c) = email_fold(list, ms, ms.len() as int);
    lemma_concat_append(o, r);
    lemma_append_nonempty(o, r);
    let text = concat(list);
    let k = choose|k: int|
        0 <= k <= text.len() && c == enc_len(text.take(k)) && #[trigger] concat(o) == text.take(k)
            && concat(r) == text.skip(k) && (ms.len() > 0 ==> c == ms[ms.len() - 1].1);
    assert(text.take(k) + text.skip(k) =~= text);
}

// --- the whole tokenization --------------------------------------------------

/// The text of the capture groups that took part, in order.
pub open spec fn groups_text(gs: Seq<Option<Seq<char>>>) -> Seq<char>
    decreases gs.len(),
{
    if gs.len() == 0 {
        Seq::empty()
    } else {
        groups_text(gs.drop_last()) + match gs.last() {
            Some(g) => g,
            None => Seq::empty(),
        }
    }
}

/// The first contraction pattern that matches `s`, if any, cuts it into
/// groups that spell the whole of it.
pub open spec fn contraction_whole(s: Seq<char>) -> bool {
    first_contraction(s, 0) matches Some(gs) ==> groups_text(gs) == s
}

/// What the word search reports of `text`: pieces that, apostrophes
/// restored, spell the text, none empty, and each cut whole by a
/// contraction pattern that matches it.
pub open spec fn pieces_fit(text: Seq<char>) -> bool {
    let raws = raw_pieces(text);
    &&& concat(raws.map_values(|r: Seq<char>| unshield(r))) == text
    &&& forall|i: int|
        0 <= i < raws.len() ==> (#[trigger] unshield(raws[i])).len() > 0 && contraction_whole(
            unshield(raws[i]),
        )
}

proof fn lemma_groups_words(t: Map<Seq<char>, bool>, gs: Seq<Option<Seq<char>>>)
    ensures
        concat(groups_words(t, gs)) == groups_text(gs),
        all_nonempty(groups_words(t, gs)),
    decreases gs.len(),
{
    if gs.len() > 0 {
        lemma_groups_words(t, gs.drop_last());
        let w = match gs.last() {
            Some(g) => spec_words_to_add(t, g),
            None => Seq::empty(),
        };
        match gs.last() {
            Some(g) => lemma_words_to_add_concat(t, g),
            None => {
                assert(concat(w) =~= Seq::<char>::empty());
            },
        }
        lemma_concat_append(groups_words(t, gs.drop_last()), w);
        lemma_append_nonempty(groups_words(t, gs.drop_last()), w);
        assert(concat(w) == match gs.last() {
            Some(g) => g,
            None => Seq::<char>::empty(),
        });
    }
}

proof fn lemma_piece_tokens(t: Map<Seq<char>, bool>, s: Seq<char>)
    requires
        contraction_whole(s),
    ensures
        concat(piece_tokens(t, s)) == s,
        all_nonempty(piece_tokens(t, s)),
{
    lemma_words_to_add_concat(t, s);
    if s.contains('\'') || s.contains('\u{2019}') {
        match first_contraction(s, 0) {
            Some(gs) => lemma_groups_words(t, gs),
            None => {},
        }
    }
}

proof fn lemma_replace_one(c: char, from: Seq<char>, to: Seq<char>)
    requires
        from.len() > 1,
    ensures
        replace_str(seq![c], from, to) == seq![c],
{
    assert(seq![c].drop_first() =~= Seq::<char>::empty());
    assert(replace_str(Seq::<char>::empty(), from, to) =~= Seq::<char>::empty());
    assert(seq![c][0] == c);
    assert(seq![c] + Seq::<char>::empty() =~= seq![c]);
}

proof fn lemma_split_fold(t: Map<Seq<char>, bool>, raws: Seq<Seq<char>>, n: int)
    requires
        0 <= n <= raws.len(),
        forall|i: int|
            0 <= i < raws.len() ==> (#[trigger] unshield(raws[i])).len() > 0 && contraction_whole(
                unshield(raws[i]),
            ),
    ensures
        concat(split_fold(t, raws, n)) == concat(raws.take(n).map_values(|r: Seq<char>| unshield(r))),
        all_nonempty(split_fold(t, raws, n)),
    decreases n,
{
    let u = raws.take(n).map_values(|r: Seq<char>| unshield(r));
    if n <= 0 {
        assert(u =~= Seq::<Seq<char>>::empty());
    } else {
        lemma_split_fold(t, raws, n - 1);
        let l = split_fold(t, raws, n - 1);
        let raw = raws[n - 1];
        let u0 = raws.take(n - 1).map_values(|r: Seq<char>| unshield(r));
        assert(u.drop_last() =~= u0);
        assert(u.last() == unshield(raw));
        assert(unshield(raw).len() > 0);
        if l.len() > 0 && raw.len() == 1 && is_variation_selector(raw[0]) {
            reveal_strlit("xxAPOSTYPEWxx");
            reveal_strlit("xxAPOSTYPOGxx");
            assert(raw =~= seq![raw[0]]);
            lemma_replace_one(raw[0], APOSTYPEW@, "'"@);
            lemma_replace_one(raw[0], APOSTYPOG@, "\u{2019}"@);
            assert(unshield(raw) == raw);
            let l2 = l.update(l.len() - 1, l.last() + raw);
            assert(l2.drop_last() =~= l.drop_last());
            assert(concat(l2) =~= concat(l.drop_last()) + l.last() + raw);
            assert forall|i: int| 0 <= i < l2.len() implies (#[trigger] l2[i]).len() > 0 by {
                if i < l.len() - 1 {
                    assert(l2[i] == l[i]);
                }
            }
        } else {
            lemma_piece_tokens(t, unshield(raw));
            lemma_concat_append(l, piece_tokens(t, unshield(raw)));
            lemma_append_nonempty(l, piece_tokens(t, unshield(raw)));
        }
    }
}

/// The tokens concatenate back to the text and none is empty, whatever the
/// tagger answers, wherever the searches report what they find as the
/// regular-expression engine does: word pieces that spell the text (a text
/// holding the words that stand in for apostrophes during the split is not
/// among these), contraction groups that spell their piece, and e-mail
/// matches on character boundaries that carry the text between them.
pub proof fn lemma_tokens_concat(t: Map<Seq<char>, bool>, text: Seq<char>)
    requires
        pieces_fit(text),
        matches_fit(find_spec(E_MAIL@, text), text),
        enc_len(text) <= usize::MAX,
    ensures
        concat(spec_tokenize(t, text)) == text,
        all_nonempty(spec_tokenize(t, text)),
{
    let raws = raw_pieces(text);
    lemma_split_fold(t, raws, raws.len() as int);
    assert(raws.take(raws.len() as int) =~= raws);
    let l = split_fold(t, raws, raws.len() as int);
    assert(concat(l) == text);
    if concat(l).contains('@') && crate::tokenizer::match_spec(E_MAIL@, concat(l)) {
        lemma_email_fold_concat(l, find_spec(E_MAIL@, text));
    }
    lemma_join_urls_concat(spec_join_emails(l));
}

} // verus!
