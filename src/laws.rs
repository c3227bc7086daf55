use vstd::prelude::*;
use crate::canon::{canonical, lemma_canonical_anagram, lemma_canonical_props};
use crate::engine::{accepts, families_of, in_family, is_target, Family, MAX_LEN, MIN_LEN};
use crate::order::words_of;
use crate::pipeline::{built, entry_matches, lines_grouped};
use crate::snapshot::{class_member, classes_wf, grouped, has_forms, kept, kept_word, Class, RawWord, Stage1, WordForms};
use crate::tables::{indexed_key, stored_word, tables_of, used_word, Tables};
use crate::text::normal_form;

verus! {

/// Two raw words get the same canonical key exactly when their normalized
/// forms are anagrams of each other.
pub proof fn lemma_same_key_iff_anagram(w1: Seq<char>, w2: Seq<char>)
    ensures
        canonical(normal_form(w1)) == canonical(normal_form(w2)) <==> normal_form(w1).to_multiset()
            == normal_form(w2).to_multiset(),
{
    lemma_canonical_anagram(normal_form(w1), normal_form(w2));
}

/// No blacklisted normalized word is stored in the word-id table or has a
/// display form stored.
pub proof fn lemma_blacklist_never_stored(lines: Seq<Seq<char>>, blacklist: Seq<Seq<char>>, t: Tables)
    requires
        built(lines, blacklist, t),
    ensures
        forall|i: int| 0 <= i < t.form_ids.len() ==> !blacklist.contains(#[trigger] t.form_ids@[i].norm@),
        forall|r: int|
            0 <= r < t.forms.len() ==> t.forms@[r].id < t.form_ids.len() && !blacklist.contains(
                t.form_ids@[(#[trigger] t.forms@[r]).id as int].norm@,
            ),
{
    reveal(tables_of);
    let (s, fams) = choose|s: Stage1, fams: Seq<Family>|
        lines_grouped(lines, blacklist, s) && families_of(s.classes@, fams) && tables_of(s.forms@, fams, t);
    let es = choose|es: Seq<RawWord>|
        es.len() == lines.len() && (forall|i: int| 0 <= i < es.len() ==> entry_matches(#[trigger] es[i], lines[i]))
            && grouped(es, blacklist, s);
    assert forall|i: int| 0 <= i < t.form_ids.len() implies !blacklist.contains(#[trigger] t.form_ids@[i].norm@) by {
        let n = t.form_ids@[i].norm@;
        assert(has_forms(s.forms@, n));
        assert(kept_word(es, blacklist, n));
        let j = choose|j: int| 0 <= j < es.len() && kept(es[j], blacklist) && #[trigger] es[j].normalized@ == n;
    }
    assert forall|r: int| 0 <= r < t.forms.len() implies t.forms@[r].id < t.form_ids.len() && !blacklist.contains(
        t.form_ids@[(#[trigger] t.forms@[r]).id as int].norm@,
    ) by {
        let i = t.forms@[r].id as int;
        assert(!blacklist.contains(t.form_ids@[i].norm@));
    }
}

/// Every key in the length index has exactly the length it is filed under,
/// and that length is a target length.
pub proof fn lemma_length_index(lines: Seq<Seq<char>>, blacklist: Seq<Seq<char>>, t: Tables)
    requires
        built(lines, blacklist, t),
    ensures
        forall|i: int|
            0 <= i < t.set_keys.len() ==> (#[trigger] t.set_keys@[i]).key@.len() == t.set_keys@[i].len
                && MIN_LEN <= t.set_keys@[i].len <= MAX_LEN,
{
    reveal(tables_of);
    let (s, fams) = choose|s: Stage1, fams: Seq<Family>|
        lines_grouped(lines, blacklist, s) && families_of(s.classes@, fams) && tables_of(s.forms@, fams, t);
    assert forall|i: int| 0 <= i < t.set_keys.len() implies (#[trigger] t.set_keys@[i]).key@.len() == t.set_keys@[i].len
        && MIN_LEN <= t.set_keys@[i].len <= MAX_LEN by {
        let f = fams[i];
        assert(f.key@ == s.classes@[f.class as int].key@);
    }
}

/// Every stored family member holds each character at most as often as the
/// key of its family.
pub proof fn lemma_members_within_target(lines: Seq<Seq<char>>, blacklist: Seq<Seq<char>>, t: Tables)
    requires
        built(lines, blacklist, t),
    ensures
        forall|r: int|
            0 <= r < t.sets.len() ==> (#[trigger] t.sets@[r]).id < t.set_ids.len()
                && t.sets@[r].norm@.to_multiset().subset_of(
                t.set_ids@[t.sets@[r].id as int].key@.to_multiset(),
            ),
{
    reveal(tables_of);
    let (s, fams) = choose|s: Stage1, fams: Seq<Family>|
        lines_grouped(lines, blacklist, s) && families_of(s.classes@, fams) && tables_of(s.forms@, fams, t);
    let es = choose|es: Seq<RawWord>|
        es.len() == lines.len() && (forall|i: int| 0 <= i < es.len() ==> entry_matches(#[trigger] es[i], lines[i]))
            && grouped(es, blacklist, s);
    let classes = s.classes@;
    assert forall|r: int| 0 <= r < t.sets.len() implies (#[trigger] t.sets@[r]).id < t.set_ids.len()
        && t.sets@[r].norm@.to_multiset().subset_of(t.set_ids@[t.sets@[r].id as int].key@.to_multiset()) by {
        let id = t.sets@[r].id as int;
        let w = t.sets@[r].norm@;
        let f = fams[id];
        assert(words_of(f.words@).contains(w));
        assert(in_family(classes, f.key@, w));
        let (k, m) = choose|k: int, m: int|
            0 <= k < classes.len() && 0 <= m < classes[k].members.len() && accepts(f.key@, classes[k].key@)
                && #[trigger] classes[k].members@[m]@ == w;
        assert(classes[k].wf());
        assert(canonical(w) == classes[k].key@);
        lemma_canonical_props(w);
    }
}

/// A word that no family uses has nothing stored: the word-id table holds
/// exactly the words that have display forms and are members of some family,
/// and every stored display form belongs to such a word.
pub proof fn lemma_pruning(forms: Seq<WordForms>, fams: Seq<Family>, t: Tables)
    requires
        tables_of(forms, fams, t),
    ensures
        forall|n: Seq<char>| #[trigger] stored_word(t, n) <==> (has_forms(forms, n) && used_word(fams, n)),
        forall|r: int|
            0 <= r < t.forms.len() ==> t.forms@[r].id < t.form_ids.len() && used_word(
                fams,
                t.form_ids@[(#[trigger] t.forms@[r]).id as int].norm@,
            ),
{
    reveal(tables_of);
    assert forall|r: int| 0 <= r < t.forms.len() implies t.forms@[r].id < t.form_ids.len() && used_word(
        fams,
        t.form_ids@[(#[trigger] t.forms@[r]).id as int].norm@,
    ) by {
        let i = t.forms@[r].id as int;
        assert(used_word(fams, t.form_ids@[i].norm@));
    }
}

proof fn lemma_kept_same(lines: Seq<Seq<char>>, blacklist: Seq<Seq<char>>, es1: Seq<RawWord>, es2: Seq<RawWord>)
    requires
        es1.len() == lines.len(),
        es2.len() == lines.len(),
        forall|i: int| 0 <= i < es1.len() ==> entry_matches(#[trigger] es1[i], lines[i]),
        forall|i: int| 0 <= i < es2.len() ==> entry_matches(#[trigger] es2[i], lines[i]),
    ensures
        forall|n: Seq<char>| #[trigger] kept_word(es1, blacklist, n) <==> kept_word(es2, blacklist, n),
{
    assert forall|n: Seq<char>| #[trigger] kept_word(es1, blacklist, n) implies kept_word(es2, blacklist, n) by {
        let j = choose|j: int| 0 <= j < es1.len() && kept(es1[j], blacklist) && #[trigger] es1[j].normalized@ == n;
        assert(entry_matches(es1[j], lines[j]) && entry_matches(es2[j], lines[j]));
        assert(es2[j].normalized@ == n);
    }
    assert forall|n: Seq<char>| #[trigger] kept_word(es2, blacklist, n) implies kept_word(es1, blacklist, n) by {
        let j = choose|j: int| 0 <= j < es2.len() && kept(es2[j], blacklist) && #[trigger] es2[j].normalized@ == n;
        assert(entry_matches(es1[j], lines[j]) && entry_matches(es2[j], lines[j]));
        assert(es1[j].normalized@ == n);
    }
}

/// Whether some target class has the key `key`.
spec fn target_key(classes: Seq<Class>, key: Seq<char>) -> bool {
    exists|k: int| 0 <= k < classes.len() && is_target(classes, k) && #[trigger] classes[k].key@ == key
}

/// Whether some target key accepts the key `c`.
spec fn target_accepts(classes: Seq<Class>, c: Seq<char>) -> bool {
    exists|k: int| 0 <= k < classes.len() && is_target(classes, k) && #[trigger] accepts(classes[k].key@, c)
}

proof fn lemma_target_key_moves(c1: Seq<Class>, c2: Seq<Class>, key: Seq<char>)
    requires
        classes_wf(c1),
        classes_wf(c2),
        forall|n: Seq<char>| #[trigger] class_member(c1, n) ==> class_member(c2, n),
        target_key(c1, key),
    ensures
        target_key(c2, key),
{
    let k = choose|k: int| 0 <= k < c1.len() && is_target(c1, k) && #[trigger] c1[k].key@ == key;
    assert(c1[k].wf());
    let n = c1[k].members@[0]@;
    assert(canonical(n) == key);
    assert(class_member(c1, n));
    assert(class_member(c2, n));
    let (k2, m2) = choose|k2: int, m2: int|
        0 <= k2 < c2.len() && 0 <= m2 < c2[k2].members.len() && #[trigger] c2[k2].members@[m2]@ == n;
    assert(c2[k2].wf());
    assert(c2[k2].key@ == key);
}

proof fn lemma_used_words(classes: Seq<Class>, fams: Seq<Family>, n: Seq<char>)
    requires
        classes_wf(classes),
        families_of(classes, fams),
    ensures
        used_word(fams, n) <==> (class_member(classes, n) && target_accepts(classes, canonical(n))),
{
    if used_word(fams, n) {
        let (i, w) = choose|i: int, w: int| 0 <= i < fams.len() && 0 <= w < fams[i].words.len() && #[trigger] fams[i].words@[w]@ == n;
        let f = fams[i];
        assert(words_of(f.words@)[w] == n);
        assert(words_of(f.words@).contains(n));
        assert(in_family(classes, f.key@, n));
        let (k, m) = choose|k: int, m: int|
            0 <= k < classes.len() && 0 <= m < classes[k].members.len() && accepts(f.key@, classes[k].key@)
                && #[trigger] classes[k].members@[m]@ == n;
        assert(classes[k].wf());
        assert(canonical(n) == classes[k].key@);
        assert(classes[f.class as int].key@ == f.key@);
        assert(accepts(classes[f.class as int].key@, canonical(n)));
    }
    if class_member(classes, n) && target_accepts(classes, canonical(n)) {
        let k = choose|k: int| 0 <= k < classes.len() && is_target(classes, k) && #[trigger] accepts(classes[k].key@, canonical(n));
        let (k2, m) = choose|k2: int, m: int|
            0 <= k2 < classes.len() && 0 <= m < classes[k2].members.len() && #[trigger] classes[k2].members@[m]@ == n;
        assert(classes[k2].wf());
        assert(canonical(n) == classes[k2].key@);
        assert(in_family(classes, classes[k].key@, n));
        let i = choose|i: int| 0 <= i < fams.len() && (#[trigger] fams[i]).class == k;
        assert(words_of(fams[i].words@).contains(n));
        let w = choose|w: int| 0 <= w < words_of(fams[i].words@).len() && words_of(fams[i].words@)[w] == n;
        assert(fams[i].words@[w]@ == n);
    }
}

proof fn lemma_length_index_keys(classes: Seq<Class>, forms: Seq<WordForms>, fams: Seq<Family>, t: Tables, key: Seq<char>)
    requires
        families_of(classes, fams),
        tables_of(forms, fams, t),
    ensures
        indexed_key(t, key) <==> target_key(classes, key),
{
    reveal(tables_of);
    if indexed_key(t, key) {
        let i = choose|i: int| 0 <= i < t.set_keys.len() && #[trigger] t.set_keys@[i].key@ == key;
        let f = fams[i];
        assert(classes[f.class as int].key@ == key);
    }
    if target_key(classes, key) {
        let k = choose|k: int| 0 <= k < classes.len() && is_target(classes, k) && #[trigger] classes[k].key@ == key;
        let i = choose|i: int| 0 <= i < fams.len() && (#[trigger] fams[i]).class == k;
        assert(t.set_keys@[i].key@ == key);
    }
}

/// Two builds from the same word list and blacklist store the same words in
/// the word-id table and the same keys in the length index.
#[verifier::spinoff_prover]
pub proof fn lemma_rebuild_same_contents(
    lines: Seq<Seq<char>>,
    blacklist: Seq<Seq<char>>,
    t1: Tables,
    t2: Tables,
)
    requires
        built(lines, blacklist, t1),
        built(lines, blacklist, t2),
    ensures
        forall|n: Seq<char>| #[trigger] stored_word(t1, n) <==> stored_word(t2, n),
        forall|key: Seq<char>| #[trigger] indexed_key(t1, key) <==> indexed_key(t2, key),
{
    let (s1, f1) = choose|s: Stage1, fams: Seq<Family>|
        lines_grouped(lines, blacklist, s) && families_of(s.classes@, fams) && tables_of(s.forms@, fams, t1);
    let (s2, f2) = choose|s: Stage1, fams: Seq<Family>|
        lines_grouped(lines, blacklist, s) && families_of(s.classes@, fams) && tables_of(s.forms@, fams, t2);
    let es1 = choose|es: Seq<RawWord>|
        es.len() == lines.len() && (forall|i: int| 0 <= i < es.len() ==> entry_matches(#[trigger] es[i], lines[i]))
            && grouped(es, blacklist, s1);
    let es2 = choose|es: Seq<RawWord>|
        es.len() == lines.len() && (forall|i: int| 0 <= i < es.len() ==> entry_matches(#[trigger] es[i], lines[i]))
            && grouped(es, blacklist, s2);
    let c1 = s1.classes@;
    let c2 = s2.classes@;
    lemma_kept_same(lines, blacklist, es1, es2);
    assert forall|n: Seq<char>| #[trigger] class_member(c1, n) <==> class_member(c2, n) by {
        assert(class_member(c1, n) <==> kept_word(es1, blacklist, n));
        assert(class_member(c2, n) <==> kept_word(es2, blacklist, n));
    }
    assert forall|key: Seq<char>| #[trigger] target_key(c1, key) <==> target_key(c2, key) by {
        if target_key(c1, key) {
            lemma_target_key_moves(c1, c2, key);
        }
        if target_key(c2, key) {
            lemma_target_key_moves(c2, c1, key);
        }
    }
    lemma_pruning(s1.forms@, f1, t1);
    lemma_pruning(s2.forms@, f2, t2);
    assert forall|n: Seq<char>| #[trigger] stored_word(t1, n) <==> stored_word(t2, n) by {
        assert(has_forms(s1.forms@, n) <==> kept_word(es1, blacklist, n));
        assert(has_forms(s2.forms@, n) <==> kept_word(es2, blacklist, n));
        lemma_used_words(c1, f1, n);
        lemma_used_words(c2, f2, n);
        let c = canonical(n);
        if target_accepts(c1, c) {
            let k = choose|k: int| 0 <= k < c1.len() && is_target(c1, k) && #[trigger] accepts(c1[k].key@, c);
            assert(target_key(c1, c1[k].key@));
            assert(target_key(c2, c1[k].key@));
            let k2 = choose|k2: int| 0 <= k2 < c2.len() && is_target(c2, k2) && #[trigger] c2[k2].key@ == c1[k].key@;
            assert(accepts(c2[k2].key@, c));
        }
        if target_accepts(c2, c) {
            let k = choose|k: int| 0 <= k < c2.len() && is_target(c2, k) && #[trigger] accepts(c2[k].key@, c);
            assert(target_key(c2, c2[k].key@));
            assert(target_key(c1, c2[k].key@));
            let k1 = choose|k1: int| 0 <= k1 < c1.len() && is_target(c1, k1) && #[trigger] c1[k1].key@ == c2[k].key@;
            assert(accepts(c1[k1].key@, c));
        }
    }
    assert forall|key: Seq<char>| #[trigger] indexed_key(t1, key) <==> indexed_key(t2, key) by {
        lemma_length_index_keys(c1, s1.forms@, f1, t1, key);
        lemma_length_index_keys(c2, s2.forms@, f2, t2, key);
    }
}

} // verus!
