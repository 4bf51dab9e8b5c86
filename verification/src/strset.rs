//! A finite set of words, kept as a list without repetitions.

use vstd::prelude::*;
use crate::text::{chars_eq, chars_vec, str_chars};

verus! {

pub struct StringSet {
    items: Vec<Vec<char>>,
}

/// The characters of each stored word.
pub open spec fn item_views(v: Seq<Vec<char>>) -> Seq<Seq<char>> {
    v.map_values(|w: Vec<char>| w@)
}

impl StringSet {
    #[verifier::type_invariant]
    closed spec fn inv(self) -> bool {
        item_views(self.items@).no_duplicates()
    }

    /// The words held.
    pub closed spec fn view(self) -> Set<Seq<char>> {
        item_views(self.items@).to_set()
    }

    pub fn new() -> (r: StringSet)
        ensures
            r.view() == Set::<Seq<char>>::empty(),
    {
        let r = StringSet { items: Vec::new() };
        assert(r.view() =~= Set::<Seq<char>>::empty());
        r
    }

    /// Whether `w` is held.
    pub fn contains_chars(&self, w: &[char]) -> (r: bool)
        ensures
            r == self.view().contains(w@),
    {
        let ghost iv = item_views(self.items@);
        let mut i: usize = 0;
        while i < self.items.len()
            invariant
                i <= self.items@.len(),
                iv == item_views(self.items@),
                forall|k: int| 0 <= k < i ==> iv[k] != w@,
            decreases self.items.len() - i,
        {
            if chars_eq(&self.items[i], w) {
                assert(iv[i as int] == w@);
                return true;
            }
            i += 1;
        }
        assert(!iv.contains(w@));
        false
    }

    /// Whether `w` is held.
    pub fn contains(&self, w: &str) -> (r: bool)
        ensures
            r == self.view().contains(w@),
    {
        self.contains_chars(&str_chars(w))
    }

    /// Adds `w`.
    pub fn insert_chars(&mut self, w: &[char])
        ensures
            final(self).view() == old(self).view().insert(w@),
    {
        if self.contains_chars(w) {
            assert(self.view().insert(w@) =~= self.view());
            return;
        }
        proof {
            use_type_invariant(&*self);
        }
        let ghost iv = item_views(self.items@);
        let mut items: Vec<Vec<char>> = Vec::new();
        std::mem::swap(&mut items, &mut self.items);
        let t = chars_vec(w);
        items.push(t);
        proof {
            assert(item_views(items@) =~= iv.push(w@));
            assert(iv.push(w@) =~= iv + seq![w@]);
            assert((iv + seq![w@]).to_set() =~= iv.to_set().insert(w@)) by {
                Seq::lemma_to_set_insert_commutes(iv, w@);
            }
            assert(item_views(items@).no_duplicates()) by {
                let nv = item_views(items@);
                assert forall|a: int, b: int|
                    0 <= a < nv.len() && 0 <= b < nv.len() && a != b implies nv[a] != nv[b] by {
                    if a < iv.len() && b < iv.len() {
                        assert(nv[a] == iv[a] && nv[b] == iv[b]);
                    } else if a < iv.len() {
                        assert(nv[a] == iv[a]);
                        assert(iv.contains(iv[a]));
                    } else {
                        assert(nv[b] == iv[b]);
                        assert(iv.contains(iv[b]));
                    }
                }
            }
        }
        self.items = items;
    }

    /// Adds `w`.
    pub fn insert(&mut self, w: &str)
        ensures
            final(self).view() == old(self).view().insert(w@),
    {
        self.insert_chars(&str_chars(w));
    }

    /// The number of words held.
    pub fn len(&self) -> (r: usize)
        ensures
            r == self.view().len(),
            self.view().finite(),
    {
        proof {
            use_type_invariant(self);
            item_views(self.items@).unique_seq_to_set();
            vstd::seq_lib::seq_to_set_is_finite(item_views(self.items@));
        }
        self.items.len()
    }

    pub fn is_empty(&self) -> (r: bool)
        ensures
            r == (self.view() == Set::<Seq<char>>::empty()),
    {
        let n = self.items.len();
        proof {
            if n > 0 {
                let iv = item_views(self.items@);
                assert(iv.contains(iv[0]));
                assert(self.view().contains(iv[0]));
            } else {
                assert(self.view() =~= Set::<Seq<char>>::empty()) by {
                    let iv = item_views(self.items@);
                    assert(iv.len() == 0);
                }
            }
        }
        n == 0
    }
}

} // verus!
