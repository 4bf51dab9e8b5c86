//! Translation of the Java regex dialect used in SRX rule files into the
//! syntax `fancy-regex` accepts: the only systematic difference is the Unicode
//! escape, `\uXXXX` in Java and `\x{XXXX}` in fancy-regex.

use vstd::prelude::*;
use crate::text::{chars_to_string, str_chars};

verus! {

pub open spec fn is_hex(c: char) -> bool {
    ('0' <= c <= '9') || ('a' <= c <= 'f') || ('A' <= c <= 'F')
}

/// Four hex digits at `at`.
pub open spec fn hex4(s: Seq<char>, at: int) -> bool {
    0 <= at && at + 4 <= s.len() && is_hex(s[at]) && is_hex(s[at + 1]) && is_hex(s[at + 2])
        && is_hex(s[at + 3])
}

/// Length of the run of backslashes at the start of `s`.
pub open spec fn backslash_run(s: Seq<char>) -> nat
    decreases s.len(),
{
    if s.len() > 0 && s[0] == '\\' {
        1 + backslash_run(s.drop_first())
    } else {
        0
    }
}

/// `n` backslashes.
pub open spec fn backslashes(n: nat) -> Seq<char> {
    Seq::new(n, |i: int| '\\')
}

pub proof fn lemma_backslash_run(s: Seq<char>)
    ensures
        backslash_run(s) <= s.len(),
        forall|k: int| 0 <= k < backslash_run(s) ==> s[k] == '\\',
        backslash_run(s) < s.len() ==> s[backslash_run(s) as int] != '\\',
    decreases s.len(),
{
    if s.len() > 0 && s[0] == '\\' {
        lemma_backslash_run(s.drop_first());
        assert forall|k: int| 0 <= k < backslash_run(s) implies s[k] == '\\' by {
            if k > 0 {
                assert(s[k] == s.drop_first()[k - 1]);
            }
        }
    }
}

/// `\uXXXX` after an odd run of backslashes becomes `\x{XXXX}`; everything
/// else is copied.
pub open spec fn spec_java_to_fancy(s: Seq<char>) -> Seq<char>
    decreases s.len(),
{
    if s.len() == 0 {
        Seq::empty()
    } else if s[0] == '\\' {
        proof {
            lemma_backslash_run(s);
        }
        let run = backslash_run(s);
        let rest = s.skip(run as int);
        if run % 2 == 1 && rest.len() > 0 && rest[0] == 'u' && hex4(rest, 1) {
            backslashes((run - 1) as nat) + seq!['\\', 'x', '{'] + rest.subrange(1, 5) + seq!['}']
                + spec_java_to_fancy(rest.skip(5))
        } else {
            backslashes(run) + spec_java_to_fancy(rest)
        }
    } else {
        seq![s[0]] + spec_java_to_fancy(s.drop_first())
    }
}

fn is_hex_exec(c: char) -> (r: bool)
    ensures
        r == is_hex(c),
{
    ('0' <= c && c <= '9') || ('a' <= c && c <= 'f') || ('A' <= c && c <= 'F')
}

/// Four hex digits at `at`.
pub fn has_4_hex(s: &[char], at: usize) -> (r: bool)
    ensures
        r == hex4(s@, at as int),
{
    at <= s.len() && s.len() - at >= 4 && is_hex_exec(s[at]) && is_hex_exec(s[at + 1])
        && is_hex_exec(s[at + 2]) && is_hex_exec(s[at + 3])
}

/// `java_to_fancy` on characters.
pub fn java_to_fancy_chars(src: &[char]) -> (r: Vec<char>)
    ensures
        r@ == spec_java_to_fancy(src@),
{
    let mut out: Vec<char> = Vec::new();
    let mut i: usize = 0;
    assert(src@.skip(0) =~= src@);
    while i < src.len()
        invariant
            i <= src.len(),
            out@ + spec_java_to_fancy(src@.skip(i as int)) == spec_java_to_fancy(src@),
        decreases src.len() - i,
    {
        let ghost rest0 = src@.skip(i as int);
        let ghost o0 = out@;
        if src[i] == '\\' {
            let start = i;
            proof {
                lemma_backslash_run(rest0);
            }
            while i < src.len() && src[i] == '\\'
                invariant
                    start <= i <= src.len(),
                    backslash_run(rest0) == (i - start) + backslash_run(src@.skip(i as int)),
                    rest0 == src@.skip(start as int),
                decreases src.len() - i,
            {
                assert(src@.skip(i as int).drop_first() =~= src@.skip(i + 1));
                i += 1;
            }
            assert(backslash_run(src@.skip(i as int)) == 0) by {
                if i < src.len() {
                    assert(src@.skip(i as int)[0] == src@[i as int]);
                }
            }
            let run = i - start;
            let ghost rest = src@.skip(i as int);
            assert(rest0.skip(run as int) =~= rest);
            if run % 2 == 1 && i < src.len() && src[i] == 'u' && has_4_hex(src, i + 1) {
                let mut k: usize = 0;
                while k < run - 1
                    invariant
                        k <= run - 1,
                        out@ == o0 + backslashes(k as nat),
                    decreases run - 1 - k,
                {
                    out.push('\\');
                    assert(backslashes((k + 1) as nat) =~= backslashes(k as nat).push('\\'));
                    k += 1;
                }
                out.push('\\');
                out.push('x');
                out.push('{');
                out.push(src[i + 1]);
                out.push(src[i + 2]);
                out.push(src[i + 3]);
                out.push(src[i + 4]);
                out.push('}');
                assert(rest[0] == src@[i as int]);
                assert(hex4(rest, 1) == hex4(src@, i + 1));
                assert(rest.subrange(1, 5) =~= seq![
                    src@[i + 1],
                    src@[i + 2],
                    src@[i + 3],
                    src@[i + 4],
                ]);
                assert(rest.skip(5) =~= src@.skip(i + 5));
                assert(out@ =~= o0 + backslashes((run - 1) as nat) + seq!['\\', 'x', '{']
                    + rest.subrange(1, 5) + seq!['}']);
                i += 5;
            } else {
                proof {
                    if i < src.len() {
                        assert(rest[0] == src@[i as int]);
                        if src@[i as int] == 'u' {
                            assert(hex4(rest, 1) == hex4(src@, i + 1));
                        }
                    }
                }
                let mut k: usize = 0;
                while k < run
                    invariant
                        k <= run,
                        out@ == o0 + backslashes(k as nat),
                    decreases run - k,
                {
                    out.push('\\');
                    assert(backslashes((k + 1) as nat) =~= backslashes(k as nat).push('\\'));
                    k += 1;
                }
            }
        } else {
            assert(rest0.drop_first() =~= src@.skip(i + 1));
            assert(rest0[0] == src@[i as int]);
            out.push(src[i]);
            i += 1;
        }
    }
    assert(src@.skip(i as int) =~= Seq::<char>::empty());
    assert(out@ + Seq::<char>::empty() =~= out@);
    out
}

/// Rewrite `\uXXXX` (exactly four hex digits) as `\x{XXXX}`; an escaped
/// backslash (`\\u`) is left alone.
pub fn java_to_fancy(src: &str) -> (r: String)
    ensures
        r@ == spec_java_to_fancy(src@),
{
    chars_to_string(&java_to_fancy_chars(&str_chars(src)))
}

} // verus!
