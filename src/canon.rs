use vstd::prelude::*;
use crate::order::{char_le, chars_sorted, lemma_char_le_total, lemma_sorted_unique, sort_chars};

verus! {

/// The canonical key of a word: its characters sorted by code point.
/// Two words share a key exactly when they are anagrams of each other.
pub open spec fn canonical(w: Seq<char>) -> Seq<char> {
    w.sort_by(|a: char, b: char| char_le(a, b))
}

/// The canonical key is sorted and holds the characters of the word.
pub proof fn lemma_canonical_props(w: Seq<char>)
    ensures
        chars_sorted(canonical(w)),
        canonical(w).to_multiset() == w.to_multiset(),
{
    let leq = |a: char, b: char| char_le(a, b);
    lemma_char_le_total();
    w.lemma_sort_by_ensures(leq);
    let k = canonical(w);
    assert forall|i: int, j: int| 0 <= i < j < k.len() implies char_le(
        #[trigger] k[i],
        #[trigger] k[j],
    ) by {
        assert(leq(k[i], k[j]));
    }
}

/// The canonical key is the one sorted arrangement of a word's characters.
pub proof fn lemma_canonical_is_sorted_form(w: Seq<char>, k: Seq<char>)
    ensures
        (chars_sorted(k) && k.to_multiset() == w.to_multiset()) <==> k == canonical(w),
{
    lemma_canonical_props(w);
    if chars_sorted(k) && k.to_multiset() == w.to_multiset() {
        lemma_sorted_unique(k, canonical(w));
    }
}

/// Two words have the same canonical key if and only if they are anagrams:
/// they hold each character the same number of times.
pub proof fn lemma_canonical_anagram(w1: Seq<char>, w2: Seq<char>)
    ensures
        canonical(w1) == canonical(w2) <==> w1.to_multiset() == w2.to_multiset(),
{
    lemma_canonical_props(w1);
    lemma_canonical_props(w2);
    if w1.to_multiset() == w2.to_multiset() {
        lemma_sorted_unique(canonical(w1), canonical(w2));
    }
}

/// Canonicalizing a canonical key gives the key back.
pub proof fn lemma_canonical_idempotent(w: Seq<char>)
    ensures
        canonical(canonical(w)) == canonical(w),
{
    lemma_canonical_props(w);
    lemma_canonical_is_sorted_form(canonical(w), canonical(w));
}

/// Computes the canonical key of a word.
pub fn canonicalize(w: &Vec<char>) -> (r: Vec<char>)
    ensures
        r@ == canonical(w@),
{
    let r = sort_chars(w);
    proof {
        lemma_canonical_is_sorted_form(w@, r@);
    }
    r
}

/// How often each character occurs in a word: a list of distinct characters
/// beside their counts.
pub struct CharCounts {
    pub chars: Vec<char>,
    pub counts: Vec<usize>,
}

impl CharCounts {
    pub open spec fn wf(&self) -> bool {
        &&& self.chars.len() == self.counts.len()
        &&& self.chars@.no_duplicates()
    }

    /// The number of times `c` occurs.
    pub open spec fn count(&self, c: char) -> nat {
        if self.chars@.contains(c) {
            self.counts@[choose|i: int| 0 <= i < self.chars.len() && self.chars@[i] == c] as nat
        } else {
            0
        }
    }

    proof fn lemma_count_at(&self, i: int)
        requires
            self.wf(),
            0 <= i < self.chars.len(),
        ensures
            self.count(self.chars@[i]) == self.counts@[i],
    {
        let c = self.chars@[i];
        assert(self.chars@.contains(c));
        let j = choose|j: int| 0 <= j < self.chars.len() && self.chars@[j] == c;
        assert(i == j);
    }

    /// Looks up how often `c` occurs.
    pub fn get(&self, c: char) -> (r: usize)
        requires
            self.wf(),
        ensures
            r == self.count(c),
    {
        let mut i: usize = 0;
        while i < self.chars.len()
            invariant
                self.wf(),
                i <= self.chars.len(),
                forall|j: int| 0 <= j < i ==> self.chars@[j] != c,
            decreases self.chars.len() - i,
        {
            if self.chars[i] == c {
                proof {
                    self.lemma_count_at(i as int);
                }
                return self.counts[i];
            }
            i += 1;
        }
        0
    }
}

/// Counts how often each character occurs in `s`.
pub fn count_chars(s: &Vec<char>) -> (r: CharCounts)
    ensures
        r.wf(),
        forall|j: int| 0 <= j < r.counts.len() ==> 1 <= #[trigger] r.counts@[j] <= s.len(),
        forall|c: char| r.count(c) == s@.to_multiset().count(c),
{
    let mut r = CharCounts { chars: Vec::new(), counts: Vec::new() };
    let mut i: usize = 0;
    proof {
        assert(s@.subrange(0, 0) =~= Seq::<char>::empty());
        s@.subrange(0, 0).to_multiset_ensures();
        assert forall|c: char| r.count(c) == s@.subrange(0, 0).to_multiset().count(c) by {
            assert(!s@.subrange(0, 0).contains(c));
        }
    }
    while i < s.len()
        invariant
            i <= s.len(),
            r.wf(),
            forall|c: char| r.count(c) == s@.subrange(0, i as int).to_multiset().count(c),
            forall|j: int| 0 <= j < r.counts.len() ==> 1 <= #[trigger] r.counts@[j] <= i,
        decreases s.len() - i,
    {
        let c = s[i];
        let ghost old_r = r;
        let mut j: usize = 0;
        while j < r.chars.len() && r.chars[j] != c
            invariant
                j <= r.chars.len(),
                r == old_r,
                forall|k: int| 0 <= k < j ==> r.chars@[k] != c,
            decreases r.chars.len() - j,
        {
            j += 1;
        }
        proof {
            s@.subrange(0, i as int).to_multiset_ensures();
            assert(s@.subrange(0, i + 1) =~= s@.subrange(0, i as int).push(c));
            assert(s@.subrange(0, i + 1).to_multiset() =~= s@.subrange(0, i as int).to_multiset().insert(c));
        }
        if j < r.chars.len() {
            let n = r.counts[j];
            r.counts.set(j, n + 1);
            proof {
                assert(r.chars@ == old_r.chars@);
                assert forall|d: char| r.count(d) == s@.subrange(0, i + 1).to_multiset().count(
                    d,
                ) by {
                    assert(s@.subrange(0, i + 1).to_multiset().count(d) == s@.subrange(
                        0,
                        i as int,
                    ).to_multiset().count(d) + if d == c {
                        1int
                    } else {
                        0int
                    });
                    assert(old_r.count(d) == s@.subrange(0, i as int).to_multiset().count(d));
                    if d == c {
                        r.lemma_count_at(j as int);
                        old_r.lemma_count_at(j as int);
                    } else if r.chars@.contains(d) {
                        let k = choose|k: int| 0 <= k < r.chars.len() && r.chars@[k] == d;
                        r.lemma_count_at(k);
                        old_r.lemma_count_at(k);
                    }
                }
            }
        } else {
            r.chars.push(c);
            r.counts.push(1);
            proof {
                assert(!old_r.chars@.contains(c));
                assert forall|d: char| r.count(d) == s@.subrange(0, i + 1).to_multiset().count(
                    d,
                ) by {
                    assert(s@.subrange(0, i + 1).to_multiset().count(d) == s@.subrange(
                        0,
                        i as int,
                    ).to_multiset().count(d) + if d == c {
                        1int
                    } else {
                        0int
                    });
                    assert(old_r.count(d) == s@.subrange(0, i as int).to_multiset().count(d));
                    if d == c {
                        r.lemma_count_at(j as int);
                    } else if r.chars@.contains(d) {
                        let k = choose|k: int| 0 <= k < r.chars.len() && r.chars@[k] == d;
                        assert(k < old_r.chars.len());
                        r.lemma_count_at(k);
                        old_r.lemma_count_at(k);
                    } else {
                        assert(!old_r.chars@.contains(d)) by {
                            if old_r.chars@.contains(d) {
                                let k = choose|k: int|
                                    0 <= k < old_r.chars.len() && old_r.chars@[k] == d;
                                assert(r.chars@[k] == d);
                            }
                        }
                    }
                }
            }
        }
        i += 1;
    }
    assert(s@.subrange(0, s.len() as int) =~= s@);
    r
}

/// Whether every character occurs in `count` at most as often as in `of`.
pub fn is_subseq(count: &CharCounts, of: &CharCounts) -> (r: bool)
    requires
        count.wf(),
        of.wf(),
    ensures
        r == (forall|c: char| count.count(c) <= of.count(c)),
{
    let mut i: usize = 0;
    while i < count.chars.len()
        invariant
            count.wf(),
            of.wf(),
            i <= count.chars.len(),
            forall|j: int| 0 <= j < i ==> count.count(count.chars@[j]) <= of.count(count.chars@[j]),
        decreases count.chars.len() - i,
    {
        let c = count.chars[i];
        proof {
            count.lemma_count_at(i as int);
        }
        if count.counts[i] > of.get(c) {
            return false;
        }
        i += 1;
    }
    proof {
        assert forall|c: char| count.count(c) <= of.count(c) by {
            if count.chars@.contains(c) {
                let k = choose|k: int| 0 <= k < count.chars.len() && count.chars@[k] == c;
                assert(count.count(count.chars@[k]) <= of.count(count.chars@[k]));
            }
        }
    }
    true
}

} // verus!
