use vstd::prelude::*;
use vstd::relations::*;
use vstd::utf8::char_u32_cast;

verus! {

/// Order on characters: by code point, the order of `char`'s `Ord`.
pub open spec fn char_le(a: char, b: char) -> bool {
    (a as u32) <= (b as u32)
}

/// Lexicographic order on character sequences; a proper prefix comes first.
/// On the characters of two `String`s this is the order of `String`'s `Ord`.
pub open spec fn lex_lt(a: Seq<char>, b: Seq<char>) -> bool
    decreases a.len(),
{
    if a.len() == 0 {
        b.len() > 0
    } else if b.len() == 0 {
        false
    } else if a[0] != b[0] {
        (a[0] as u32) < (b[0] as u32)
    } else {
        lex_lt(a.drop_first(), b.drop_first())
    }
}

/// The order of the words in a family: shorter words first, then lexicographic.
pub open spec fn word_lt(a: Seq<char>, b: Seq<char>) -> bool {
    a.len() < b.len() || (a.len() == b.len() && lex_lt(a, b))
}

/// Strictly increasing in the family order (so also free of repeats).
pub open spec fn words_sorted(s: Seq<Seq<char>>) -> bool {
    forall|i: int, j: int| 0 <= i < j < s.len() ==> word_lt(#[trigger] s[i], #[trigger] s[j])
}

/// The character sequences that a sequence of `Vec<char>` holds.
pub open spec fn words_of(v: Seq<Vec<char>>) -> Seq<Seq<char>> {
    Seq::new(v.len(), |i: int| v[i]@)
}

pub proof fn lemma_char_eq(a: char, b: char)
    requires
        (a as u32) == (b as u32),
    ensures
        a == b,
{
    char_u32_cast(a, a as u32);
    char_u32_cast(b, b as u32);
}

pub proof fn lemma_char_le_total()
    ensures
        total_ordering(|a: char, b: char| char_le(a, b)),
{
    assert forall|a: char, b: char| char_le(a, b) && char_le(b, a) implies a == b by {
        lemma_char_eq(a, b);
    }
}

pub proof fn lemma_lex_irreflexive(a: Seq<char>)
    ensures
        !lex_lt(a, a),
    decreases a.len(),
{
    if a.len() > 0 {
        lemma_lex_irreflexive(a.drop_first());
    }
}

pub proof fn lemma_lex_transitive(a: Seq<char>, b: Seq<char>, c: Seq<char>)
    requires
        lex_lt(a, b),
        lex_lt(b, c),
    ensures
        lex_lt(a, c),
    decreases a.len(),
{
    if a.len() > 0 && b.len() > 0 && c.len() > 0 {
        if a[0] == b[0] && b[0] == c[0] {
            lemma_lex_transitive(a.drop_first(), b.drop_first(), c.drop_first());
        } else if a[0] == c[0] {
            assert((a[0] as u32) != (b[0] as u32) || (b[0] as u32) != (c[0] as u32)) by {
                if (a[0] as u32) == (b[0] as u32) {
                    lemma_char_eq(a[0], b[0]);
                }
            }
        }
    }
}

pub proof fn lemma_lex_total(a: Seq<char>, b: Seq<char>)
    requires
        a != b,
    ensures
        lex_lt(a, b) || lex_lt(b, a),
    decreases a.len(),
{
    if a.len() == 0 {
        assert(b.len() > 0) by {
            if b.len() == 0 {
                assert(a =~= b);
            }
        }
    } else if b.len() == 0 {
    } else if a[0] != b[0] {
        if (a[0] as u32) == (b[0] as u32) {
            lemma_char_eq(a[0], b[0]);
        }
    } else {
        assert(a.drop_first() != b.drop_first()) by {
            if a.drop_first() =~= b.drop_first() {
                assert(a =~= seq![a[0]] + a.drop_first());
                assert(b =~= seq![b[0]] + b.drop_first());
            }
        }
        lemma_lex_total(a.drop_first(), b.drop_first());
    }
}

pub proof fn lemma_word_irreflexive(a: Seq<char>)
    ensures
        !word_lt(a, a),
{
    lemma_lex_irreflexive(a);
}

pub proof fn lemma_word_transitive(a: Seq<char>, b: Seq<char>, c: Seq<char>)
    requires
        word_lt(a, b),
        word_lt(b, c),
    ensures
        word_lt(a, c),
{
    if a.len() == b.len() && b.len() == c.len() {
        lemma_lex_transitive(a, b, c);
    }
}

pub proof fn lemma_word_total(a: Seq<char>, b: Seq<char>)
    requires
        a != b,
    ensures
        word_lt(a, b) || word_lt(b, a),
{
    if a.len() == b.len() {
        lemma_lex_total(a, b);
    }
}

/// Compares two words lexicographically.
pub fn lex_less(a: &Vec<char>, b: &Vec<char>) -> (r: bool)
    ensures
        r == lex_lt(a@, b@),
{
    let mut i: usize = 0;
    assert(a@.skip(0) =~= a@);
    assert(b@.skip(0) =~= b@);
    while i < a.len() && i < b.len()
        invariant
            0 <= i <= a.len(),
            i <= b.len(),
            lex_lt(a@, b@) == lex_lt(a@.skip(i as int), b@.skip(i as int)),
        decreases a.len() - i,
    {
        if a[i] != b[i] {
            return (a[i] as u32) < (b[i] as u32);
        }
        assert(a@.skip(i as int).drop_first() =~= a@.skip(i + 1));
        assert(b@.skip(i as int).drop_first() =~= b@.skip(i + 1));
        i += 1;
    }
    i < b.len()
}

/// Compares two words in the family order.
pub fn word_less(a: &Vec<char>, b: &Vec<char>) -> (r: bool)
    ensures
        r == word_lt(a@, b@),
{
    if a.len() != b.len() {
        a.len() < b.len()
    } else {
        lex_less(a, b)
    }
}

/// Whether the characters are in non-decreasing code point order.
pub open spec fn chars_sorted(s: Seq<char>) -> bool {
    forall|i: int, j: int| 0 <= i < j < s.len() ==> char_le(#[trigger] s[i], #[trigger] s[j])
}

/// Two sorted sequences of characters that hold the same characters are equal.
pub proof fn lemma_sorted_unique(x: Seq<char>, y: Seq<char>)
    requires
        chars_sorted(x),
        chars_sorted(y),
        x.to_multiset() == y.to_multiset(),
    ensures
        x == y,
    decreases x.len(),
{
    x.to_multiset_ensures();
    y.to_multiset_ensures();
    if x.len() == 0 {
        assert(y.len() == 0);
        assert(x =~= y);
    } else {
        assert(y.to_multiset().count(x[0]) > 0);
        assert(y.contains(x[0]));
        let j = choose|j: int| 0 <= j < y.len() && y[j] == x[0];
        assert(char_le(y[0], x[0])) by {
            if j > 0 {
                assert(char_le(y[0], y[j]));
            }
        }
        assert(y.to_multiset().count(y[0]) > 0);
        assert(x.to_multiset().count(y[0]) > 0);
        assert(x.contains(y[0]));
        let k = choose|k: int| 0 <= k < x.len() && x[k] == y[0];
        assert(char_le(x[0], y[0])) by {
            if k > 0 {
                assert(char_le(x[0], x[k]));
            }
        }
        lemma_char_eq(x[0], y[0]);
        assert(x.remove(0) =~= x.drop_first());
        assert(y.remove(0) =~= y.drop_first());
        assert(x.drop_first().to_multiset() =~= y.drop_first().to_multiset());
        lemma_sorted_unique(x.drop_first(), y.drop_first());
        assert(x =~= seq![x[0]] + x.drop_first());
        assert(y =~= seq![y[0]] + y.drop_first());
    }
}

/// Sorts characters by code point.
pub fn sort_chars(v: &Vec<char>) -> (r: Vec<char>)
    ensures
        chars_sorted(r@),
        r@.to_multiset() == v@.to_multiset(),
{
    broadcast use vstd::seq_lib::group_to_multiset_ensures;

    let mut rest: Vec<char> = Vec::new();
    let mut i: usize = 0;
    while i < v.len()
        invariant
            i <= v.len(),
            rest@ == v@.subrange(0, i as int),
        decreases v.len() - i,
    {
        rest.push(v[i]);
        assert(v@.subrange(0, i + 1) =~= v@.subrange(0, i as int).push(v[i as int]));
        i += 1;
    }
    assert(rest@ =~= v@);
    let mut out: Vec<char> = Vec::new();
    while rest.len() > 0
        invariant
            chars_sorted(out@),
            out@.to_multiset().add(rest@.to_multiset()) == v@.to_multiset(),
            forall|a: int, b: int|
                0 <= a < out.len() && 0 <= b < rest.len() ==> char_le(out@[a], rest@[b]),
        decreases rest.len(),
    {
        let mut best: usize = 0;
        let mut k: usize = 1;
        while k < rest.len()
            invariant
                best < rest.len(),
                1 <= k <= rest.len(),
                forall|j: int| 0 <= j < k ==> char_le(rest@[best as int], #[trigger] rest@[j]),
            decreases rest.len() - k,
        {
            if (rest[k] as u32) < (rest[best] as u32) {
                best = k;
            }
            k += 1;
        }
        let ghost old_rest = rest@;
        let c = rest.remove(best);
        proof {
            old_rest.to_multiset_ensures();
            out@.to_multiset_ensures();
            assert(old_rest.to_multiset() =~= rest@.to_multiset().insert(c));
        }
        out.push(c);
        proof {
            assert(out@.to_multiset().add(rest@.to_multiset()) =~= v@.to_multiset());
        }
    }
    out
}

/// Sorts words, which are all different, into the family order.
pub fn sort_words(v: Vec<Vec<char>>) -> (r: Vec<Vec<char>>)
    requires
        words_of(v@).no_duplicates(),
    ensures
        words_sorted(words_of(r@)),
        words_of(r@).to_multiset() == words_of(v@).to_multiset(),
{
    broadcast use vstd::seq_lib::group_to_multiset_ensures;

    let ghost orig = words_of(v@);
    let mut rest = v;
    let mut out: Vec<Vec<char>> = Vec::new();
    assert(words_of(out@) =~= Seq::<Seq<char>>::empty());
    while rest.len() > 0
        invariant
            words_sorted(words_of(out@)),
            words_of(rest@).no_duplicates(),
            words_of(out@).to_multiset().add(words_of(rest@).to_multiset()) == orig.to_multiset(),
            forall|a: int, b: int|
                0 <= a < out.len() && 0 <= b < rest.len() ==> word_lt(out@[a]@, rest@[b]@),
        decreases rest.len(),
    {
        let mut best: usize = 0;
        let mut k: usize = 1;
        proof {
            lemma_word_irreflexive(rest@[0]@);
        }
        while k < rest.len()
            invariant
                best < rest.len(),
                1 <= k <= rest.len(),
                forall|j: int| 0 <= j < k ==> !word_lt(#[trigger] rest@[j]@, rest@[best as int]@),
            decreases rest.len() - k,
        {
            if word_less(&rest[k], &rest[best]) {
                proof {
                    assert forall|j: int| 0 <= j < k implies !word_lt(
                        #[trigger] rest@[j]@,
                        rest@[k as int]@,
                    ) by {
                        if word_lt(rest@[j]@, rest@[k as int]@) {
                            lemma_word_transitive(rest@[j]@, rest@[k as int]@, rest@[best as int]@);
                        }
                    }
                    lemma_word_irreflexive(rest@[k as int]@);
                }
                best = k;
            }
            k += 1;
        }
        let ghost old_rest = rest@;
        let ghost old_out = out@;
        let w = rest.remove(best);
        proof {
            let ow = words_of(old_rest);
            ow.remove_ensures(best as int);
            ow.to_multiset_ensures();
            words_of(old_out).to_multiset_ensures();
            assert(words_of(rest@) =~= ow.remove(best as int));
            assert(ow.to_multiset() =~= words_of(rest@).to_multiset().insert(w@));
            assert forall|b: int| 0 <= b < rest.len() implies word_lt(w@, #[trigger] rest@[b]@) by {
                let ob = if b < best { b } else { b + 1 };
                assert(rest@[b] == old_rest[ob]);
                assert(ob != best);
                assert(ow[ob] != ow[best as int]);
                lemma_word_total(w@, rest@[b]@);
            }
            assert forall|i: int, j: int|
                0 <= i < j < rest.len() implies words_of(rest@)[i] != words_of(rest@)[j] by {
                let oi = if i < best { i } else { i + 1 };
                let oj = if j < best { j } else { j + 1 };
                assert(ow[oi] != ow[oj]);
            }
        }
        out.push(w);
        proof {
            assert(words_of(out@) =~= words_of(old_out).push(w@));
            assert(words_of(out@).to_multiset().add(words_of(rest@).to_multiset()) =~= orig.to_multiset());
            assert forall|a: int, b: int|
                0 <= a < out.len() && 0 <= b < rest.len() implies word_lt(out@[a]@, rest@[b]@) by {
                if a < old_out.len() {
                    let ob = if b < best { b } else { b + 1 };
                    assert(rest@[b] == old_rest[ob]);
                    assert(out@[a] == old_out[a]);
                }
            }
            assert forall|i: int, j: int| 0 <= i < j < out.len() implies word_lt(
                #[trigger] words_of(out@)[i],
                #[trigger] words_of(out@)[j],
            ) by {
                assert(words_of(old_out)[i] == words_of(out@)[i]);
                if j < old_out.len() {
                    assert(words_of(old_out)[j] == words_of(out@)[j]);
                } else {
                    assert(old_rest[best as int] == w);
                }
            }
        }
    }
    assert(words_of(rest@) =~= Seq::<Seq<char>>::empty());
    assert(words_of(out@).to_multiset() =~= orig.to_multiset());
    out
}

} // verus!
