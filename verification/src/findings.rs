//! Properties of how the findings of a sentence are put in document order
//! and how nested findings are dropped.

use vstd::prelude::*;
use crate::grammar::{
    contained_in_any, insert_sorted, keep_fold, key_gt, spec_filter_overlaps, stable_sort,
    strictly_contains, GrammarMatchV,
};

verus! {

/// Sorted by offset, and at one offset by decreasing length.
pub open spec fn sorted_by_span(v: Seq<GrammarMatchV>) -> bool {
    forall|i: int, j: int| 0 <= i < j < v.len() ==> !key_gt(#[trigger] v[i], #[trigger] v[j])
}

/// No element of `v` sorts after `b`.
pub open spec fn all_upto(v: Seq<GrammarMatchV>, b: GrammarMatchV) -> bool {
    forall|i: int| 0 <= i < v.len() ==> !key_gt(#[trigger] v[i], b)
}

/// No finding's span strictly contains another's.
pub open spec fn no_nesting(v: Seq<GrammarMatchV>) -> bool {
    forall|i: int, j: int|
        0 <= i < v.len() && 0 <= j < v.len() ==> !strictly_contains(#[trigger] v[i], #[trigger] v[j])
}

proof fn lemma_sorted_prefix(s: Seq<GrammarMatchV>)
    requires
        sorted_by_span(s),
        s.len() > 0,
    ensures
        sorted_by_span(s.drop_last()),
        all_upto(s.drop_last(), s.last()),
{
    let rest = s.drop_last();
    assert forall|i: int, j: int| 0 <= i < j < rest.len() implies !key_gt(
        #[trigger] rest[i],
        #[trigger] rest[j],
    ) by {
        assert(rest[i] == s[i]);
        assert(rest[j] == s[j]);
    }
    assert forall|i: int| 0 <= i < rest.len() implies !key_gt(#[trigger] rest[i], s.last()) by {
        assert(rest[i] == s[i]);
        assert(s.last() == s[s.len() - 1]);
    }
}

proof fn lemma_insert_sorted(s: Seq<GrammarMatchV>, m: GrammarMatchV, b: GrammarMatchV)
    requires
        sorted_by_span(s),
    ensures
        sorted_by_span(insert_sorted(s, m)),
        insert_sorted(s, m).to_multiset() =~= s.to_multiset().insert(m),
        all_upto(s, b) && !key_gt(m, b) ==> all_upto(insert_sorted(s, m), b),
    decreases s.len(),
{
    broadcast use vstd::seq_lib::group_to_multiset_ensures;

    if s.len() == 0 {
        assert(seq![m] =~= Seq::<GrammarMatchV>::empty().push(m));
    } else {
        let last = s.last();
        let rest = s.drop_last();
        assert(s =~= rest.push(last));
        lemma_sorted_prefix(s);
        if key_gt(last, m) {
            let t = insert_sorted(rest, m);
            lemma_insert_sorted(rest, m, last);
            lemma_insert_sorted(rest, m, b);
            let r = t.push(last);
            assert forall|i: int, j: int| 0 <= i < j < r.len() implies !key_gt(
                #[trigger] r[i],
                #[trigger] r[j],
            ) by {
                assert(r[i] == t[i]);
                if j < t.len() {
                    assert(r[j] == t[j]);
                }
            }
            if all_upto(s, b) && !key_gt(m, b) {
                assert(all_upto(rest, b)) by {
                    assert forall|i: int| 0 <= i < rest.len() implies !key_gt(#[trigger] rest[i], b) by {
                        assert(rest[i] == s[i]);
                    }
                }
                assert(!key_gt(last, b)) by {
                    assert(s[s.len() - 1] == last);
                }
                assert forall|i: int| 0 <= i < r.len() implies !key_gt(#[trigger] r[i], b) by {
                    if i < t.len() {
                        assert(r[i] == t[i]);
                    }
                }
            }
        } else {
            let r = s.push(m);
            assert forall|i: int, j: int| 0 <= i < j < r.len() implies !key_gt(
                #[trigger] r[i],
                #[trigger] r[j],
            ) by {
                assert(r[i] == s[i]);
                if j < s.len() {
                    assert(r[j] == s[j]);
                } else if i < s.len() - 1 {
                    assert(!key_gt(rest[i], last));
                    assert(rest[i] == s[i]);
                }
            }
            if all_upto(s, b) && !key_gt(m, b) {
                assert forall|i: int| 0 <= i < r.len() implies !key_gt(#[trigger] r[i], b) by {
                    if i < s.len() {
                        assert(r[i] == s[i]);
                    }
                }
            }
        }
    }
}

/// Sorting the findings puts them in document order (by offset, the longer
/// first at one offset) and keeps every one of them.
pub proof fn lemma_stable_sort(v: Seq<GrammarMatchV>)
    ensures
        sorted_by_span(stable_sort(v)),
        stable_sort(v).to_multiset() =~= v.to_multiset(),
        stable_sort(v).len() == v.len(),
    decreases v.len(),
{
    broadcast use vstd::seq_lib::group_to_multiset_ensures;

    if v.len() > 0 {
        lemma_stable_sort(v.drop_last());
        lemma_insert_sorted(stable_sort(v.drop_last()), v.last(), v.last());
        assert(v =~= v.drop_last().push(v.last()));
    }
    assert(stable_sort(v).to_multiset().len() == v.to_multiset().len());
}

proof fn lemma_keep_fold(s: Seq<GrammarMatchV>, b: GrammarMatchV)
    requires
        sorted_by_span(s),
    ensures
        sorted_by_span(keep_fold(s)),
        all_upto(s, b) ==> all_upto(keep_fold(s), b),
        no_nesting(keep_fold(s)),
        forall|i: int|
            0 <= i < s.len() ==> keep_fold(s).contains(#[trigger] s[i]) || contained_in_any(
                keep_fold(s),
                s[i],
            ),
    decreases s.len(),
{
    if s.len() > 0 {
        let last = s.last();
        let rest = s.drop_last();
        lemma_sorted_prefix(s);
        lemma_keep_fold(rest, last);
        lemma_keep_fold(rest, b);
        let k = keep_fold(rest);
        let r = keep_fold(s);
        if all_upto(s, b) {
            assert(all_upto(rest, b)) by {
                assert forall|i: int| 0 <= i < rest.len() implies !key_gt(#[trigger] rest[i], b) by {
                    assert(rest[i] == s[i]);
                }
            }
            assert(!key_gt(last, b)) by {
                assert(s[s.len() - 1] == last);
            }
        }
        if contained_in_any(k, last) {
            assert(r == k);
            assert forall|i: int| 0 <= i < s.len() implies r.contains(#[trigger] s[i])
                || contained_in_any(r, s[i]) by {
                if i < rest.len() {
                    assert(rest[i] == s[i]);
                } else {
                    assert(s[i] == last);
                }
            }
        } else {
            assert(r == k.push(last));
            assert forall|i: int, j: int| 0 <= i < j < r.len() implies !key_gt(
                #[trigger] r[i],
                #[trigger] r[j],
            ) by {
                assert(r[i] == k[i]);
                if j < k.len() {
                    assert(r[j] == k[j]);
                }
            }
            if all_upto(s, b) {
                assert forall|i: int| 0 <= i < r.len() implies !key_gt(#[trigger] r[i], b) by {
                    if i < k.len() {
                        assert(r[i] == k[i]);
                    }
                }
            }
            assert forall|i: int, j: int| 0 <= i < r.len() && 0 <= j < r.len() implies !strictly_contains(
                #[trigger] r[i],
                #[trigger] r[j],
            ) by {
                if i < k.len() && j < k.len() {
                    assert(r[i] == k[i]);
                    assert(r[j] == k[j]);
                } else if i < k.len() {
                    assert(r[i] == k[i]);
                    assert(r[j] == last);
                } else if j < k.len() {
                    assert(r[j] == k[j]);
                    assert(r[i] == last);
                    assert(!key_gt(k[j], last));
                }
            }
            assert forall|i: int| 0 <= i < s.len() implies r.contains(#[trigger] s[i])
                || contained_in_any(r, s[i]) by {
                if i < rest.len() {
                    assert(rest[i] == s[i]);
                    if k.contains(s[i]) {
                        let w = choose|w: int| 0 <= w < k.len() && k[w] == s[i];
                        assert(r[w] == k[w]);
                    } else {
                        let w = choose|w: int|
                            0 <= w < k.len() && strictly_contains(#[trigger] k[w], s[i]);
                        assert(r[w] == k[w]);
                    }
                } else {
                    assert(s[i] == last);
                    assert(r[k.len() as int] == last);
                }
            }
        }
    }
}

/// Dropping nested findings: the result is in document order, no kept
/// finding's span strictly contains another's, and every finding is either
/// kept or lies strictly inside a kept one.
pub proof fn lemma_filter_overlaps(v: Seq<GrammarMatchV>)
    ensures
        sorted_by_span(spec_filter_overlaps(v)),
        no_nesting(spec_filter_overlaps(v)),
        forall|i: int|
            0 <= i < v.len() ==> spec_filter_overlaps(v).contains(#[trigger] v[i])
                || contained_in_any(spec_filter_overlaps(v), v[i]),
{
    broadcast use vstd::seq_lib::group_to_multiset_ensures;

    let s = stable_sort(v);
    let r = spec_filter_overlaps(v);
    lemma_stable_sort(v);
    let b = GrammarMatchV {
        offset: 0,
        length: 0,
        message: Seq::empty(),
        replacements: Seq::empty(),
        rule_id: Seq::empty(),
        category_id: Seq::empty(),
    };
    lemma_keep_fold(s, b);
    assert forall|i: int| 0 <= i < v.len() implies r.contains(#[trigger] v[i]) || contained_in_any(
        r,
        v[i],
    ) by {
        assert(v.contains(v[i]));
        assert(v.to_multiset().count(v[i]) > 0);
        assert(s.to_multiset().count(v[i]) > 0);
        assert(s.contains(v[i]));
        let j = choose|j: int| 0 <= j < s.len() && s[j] == v[i];
        assert(r.contains(s[j]) || contained_in_any(r, s[j]));
    }
}


} // verus!
