use vstd::prelude::*;
use crate::canon::{canonical, canonicalize, count_chars, CharCounts};
use crate::order::words_of;

verus! {

/// The fewest characters a word needs to belong to another word's family.
pub const MIN_VALID_LEN: usize = 3;

/// A display form of a word: the blanked text and the text as it was read.
pub struct Form {
    pub blanked: String,
    pub full: String,
}

/// The display forms of one normalized word.
pub struct WordForms {
    pub norm: Vec<char>,
    pub forms: Vec<Form>,
}

/// An anagram class: its canonical key, the normalized words that have it,
/// and how often each character occurs in the key.
pub struct Class {
    pub key: Vec<char>,
    pub members: Vec<Vec<char>>,
    pub counts: CharCounts,
}

impl Class {
    pub open spec fn wf(&self) -> bool {
        &&& self.counts.wf()
        &&& self.members.len() > 0
        &&& forall|c: char| self.counts.count(c) == self.key@.to_multiset().count(c)
        &&& forall|m: int| 0 <= m < self.members.len() ==> canonical(#[trigger] self.members@[m]@) == self.key@
        &&& words_of(self.members@).no_duplicates()
    }
}

/// Classes that are each well formed and have distinct keys.
pub open spec fn classes_wf(classes: Seq<Class>) -> bool {
    &&& forall|k: int| 0 <= k < classes.len() ==> (#[trigger] classes[k]).wf()
    &&& forall|i: int, j: int|
        0 <= i < j < classes.len() ==> (#[trigger] classes[i]).key@ != (#[trigger] classes[j]).key@
}

/// One line of the word list after the text work: the line as read, whether
/// it is left out for holding a digit or white space, its normalized form and
/// its blanked form.
pub struct RawWord {
    pub full: String,
    pub rejected: bool,
    pub normalized: Vec<char>,
    pub blanked: String,
}

/// The grouped word list: the display forms of each normalized word, the
/// anagram classes, and the blacklisted words that the list held.
pub struct Stage1 {
    pub forms: Vec<WordForms>,
    pub classes: Vec<Class>,
    pub used_blacklist: Vec<Vec<char>>,
}

/// Whether a line of the word list is grouped: it is not rejected and its
/// normalized form is not blacklisted.
pub open spec fn kept(e: RawWord, blacklist: Seq<Seq<char>>) -> bool {
    !e.rejected && !blacklist.contains(e.normalized@)
}

/// Whether `n` is the normalized form of a grouped line.
pub open spec fn kept_word(entries: Seq<RawWord>, blacklist: Seq<Seq<char>>, n: Seq<char>) -> bool {
    exists|j: int|
        0 <= j < entries.len() && kept(entries[j], blacklist) && #[trigger] entries[j].normalized@
            == n
}

/// Whether `n` is the normalized form of a line that is not rejected but blacklisted.
pub open spec fn blacklisted_word(entries: Seq<RawWord>, blacklist: Seq<Seq<char>>, n: Seq<char>) -> bool {
    exists|j: int|
        0 <= j < entries.len() && !entries[j].rejected && blacklist.contains(n)
            && #[trigger] entries[j].normalized@ == n
}

/// Whether `n` is a member of one of the classes.
pub open spec fn class_member(classes: Seq<Class>, n: Seq<char>) -> bool {
    exists|k: int, m: int|
        0 <= k < classes.len() && 0 <= m < classes[k].members.len()
            && #[trigger] classes[k].members@[m]@ == n
}

/// Whether `n` has display forms.
pub open spec fn has_forms(forms: Seq<WordForms>, n: Seq<char>) -> bool {
    exists|i: int| 0 <= i < forms.len() && #[trigger] forms[i].norm@ == n
}

/// Display forms keyed by distinct normalized words, each form taken from a
/// grouped line with that normalized form.
pub open spec fn forms_from(forms: Seq<WordForms>, entries: Seq<RawWord>, blacklist: Seq<Seq<char>>) -> bool {
    &&& forall|i: int, j: int| 0 <= i < j < forms.len() ==> (#[trigger] forms[i]).norm@ != (#[trigger] forms[j]).norm@
    &&& forall|i: int, f: int|
        0 <= i < forms.len() && 0 <= f < forms[i].forms.len() ==> form_source(
            entries,
            blacklist,
            forms[i].norm@,
            #[trigger] forms[i].forms@[f],
        )
}

/// Whether a grouped line with normalized form `norm` has the display form `form`.
pub open spec fn form_source(entries: Seq<RawWord>, blacklist: Seq<Seq<char>>, norm: Seq<char>, form: Form) -> bool {
    exists|j: int|
        0 <= j < entries.len() && kept(entries[j], blacklist) && #[trigger] entries[j].normalized@ == norm
            && entries[j].full@ == form.full@ && entries[j].blanked@ == form.blanked@
}

/// Whether the display forms list the form of the line `e` under its
/// normalized form.
pub open spec fn form_listed(forms: Seq<WordForms>, e: RawWord) -> bool {
    exists|i: int, f: int|
        0 <= i < forms.len() && 0 <= f < forms[i].forms.len() && forms[i].norm@ == e.normalized@
            && #[trigger] forms[i].forms@[f].full@ == e.full@ && forms[i].forms@[f].blanked@
            == e.blanked@
}

/// The display forms that the grouped lines give the word `n`, in line order.
pub open spec fn forms_for(entries: Seq<RawWord>, blacklist: Seq<Seq<char>>, n: Seq<char>) -> Seq<(Seq<char>, Seq<char>)>
    decreases entries.len(),
{
    if entries.len() == 0 {
        Seq::empty()
    } else {
        let r = forms_for(entries.drop_last(), blacklist, n);
        let e = entries.last();
        if kept(e, blacklist) && e.normalized@ == n {
            r.push((e.blanked@, e.full@))
        } else {
            r
        }
    }
}

/// The (blanked, full) pairs of a list of display forms.
pub open spec fn form_pairs(fs: Seq<Form>) -> Seq<(Seq<char>, Seq<char>)> {
    Seq::new(fs.len(), |f: int| (fs[f].blanked@, fs[f].full@))
}

proof fn lemma_forms_for_empty(entries: Seq<RawWord>, blacklist: Seq<Seq<char>>, n: Seq<char>)
    requires
        !kept_upto(entries, blacklist, entries.len() as int, n),
    ensures
        forms_for(entries, blacklist, n).len() == 0,
    decreases entries.len(),
{
    if entries.len() > 0 {
        let pre = entries.drop_last();
        assert forall|i: int| 0 <= i < pre.len() implies !(kept(pre[i], blacklist) && #[trigger] pre[i].normalized@ == n) by {
            assert(entries[i] == pre[i]);
        }
        lemma_forms_for_empty(pre, blacklist, n);
        assert(!(kept(entries[entries.len() - 1], blacklist) && entries[entries.len() - 1].normalized@ == n));
    }
}

/// What grouping the lines gives.
pub open spec fn grouped(entries: Seq<RawWord>, blacklist: Seq<Seq<char>>, s: Stage1) -> bool {
    &&& classes_wf(s.classes@)
    &&& forall|j: int|
        0 <= j < entries.len() && kept(entries[j], blacklist) ==> form_listed(s.forms@, #[trigger] entries[j])
    &&& forall|n: Seq<char>| class_member(s.classes@, n) <==> kept_word(entries, blacklist, n)
    &&& forall|n: Seq<char>| has_forms(s.forms@, n) <==> kept_word(entries, blacklist, n)
    &&& forms_from(s.forms@, entries, blacklist)
    &&& forall|i: int|
        0 <= i < s.forms.len() ==> form_pairs((#[trigger] s.forms@[i]).forms@) == forms_for(
            entries,
            blacklist,
            s.forms@[i].norm@,
        )
    &&& forall|n: Seq<char>|
        words_of(s.used_blacklist@).contains(n) <==> blacklisted_word(entries, blacklist, n)
}

/// Whether two words are equal.
pub fn same_word(a: &Vec<char>, b: &Vec<char>) -> (r: bool)
    ensures
        r == (a@ == b@),
{
    if a.len() != b.len() {
        return false;
    }
    let mut i: usize = 0;
    while i < a.len()
        invariant
            a.len() == b.len(),
            i <= a.len(),
            forall|j: int| 0 <= j < i ==> a@[j] == b@[j],
        decreases a.len() - i,
    {
        if a[i] != b[i] {
            return false;
        }
        i += 1;
    }
    assert(a@ =~= b@);
    true
}

/// Whether `w` is one of the words of `v`.
pub fn contains_word(v: &Vec<Vec<char>>, w: &Vec<char>) -> (r: bool)
    ensures
        r == words_of(v@).contains(w@),
{
    let mut i: usize = 0;
    while i < v.len()
        invariant
            i <= v.len(),
            forall|j: int| 0 <= j < i ==> v@[j]@ != w@,
        decreases v.len() - i,
    {
        if same_word(&v[i], w) {
            assert(words_of(v@)[i as int] == w@);
            return true;
        }
        i += 1;
    }
    false
}

/// A copy of a word.
pub(crate) fn copy_word(w: &Vec<char>) -> (r: Vec<char>)
    ensures
        r@ == w@,
{
    let mut r: Vec<char> = Vec::new();
    let mut i: usize = 0;
    while i < w.len()
        invariant
            i <= w.len(),
            r@ == w@.subrange(0, i as int),
        decreases w.len() - i,
    {
        r.push(w[i]);
        assert(w@.subrange(0, i + 1) =~= w@.subrange(0, i as int).push(w[i as int]));
        i += 1;
    }
    assert(w@.subrange(0, w.len() as int) =~= w@);
    r
}

fn find_forms(forms: &Vec<WordForms>, n: &Vec<char>) -> (r: Option<usize>)
    ensures
        match r {
            Some(i) => i < forms.len() && forms@[i as int].norm@ == n@,
            None => !has_forms(forms@, n@),
        },
{
    let mut i: usize = 0;
    while i < forms.len()
        invariant
            i <= forms.len(),
            forall|j: int| 0 <= j < i ==> forms@[j].norm@ != n@,
        decreases forms.len() - i,
    {
        if same_word(&forms[i].norm, n) {
            return Some(i);
        }
        i += 1;
    }
    None
}

fn find_class(classes: &Vec<Class>, key: &Vec<char>) -> (r: Option<usize>)
    ensures
        match r {
            Some(i) => i < classes.len() && classes@[i as int].key@ == key@,
            None => forall|k: int| 0 <= k < classes.len() ==> classes@[k].key@ != key@,
        },
{
    let mut i: usize = 0;
    while i < classes.len()
        invariant
            i <= classes.len(),
            forall|j: int| 0 <= j < i ==> classes@[j].key@ != key@,
        decreases classes.len() - i,
    {
        if same_word(&classes[i].key, key) {
            return Some(i);
        }
        i += 1;
    }
    None
}

spec fn kept_upto(entries: Seq<RawWord>, blacklist: Seq<Seq<char>>, j: int, n: Seq<char>) -> bool {
    exists|i: int|
        0 <= i < j && kept(entries[i], blacklist) && #[trigger] entries[i].normalized@ == n
}

spec fn blacklisted_upto(entries: Seq<RawWord>, blacklist: Seq<Seq<char>>, j: int, n: Seq<char>) -> bool {
    exists|i: int|
        0 <= i < j && !entries[i].rejected && blacklist.contains(n)
            && #[trigger] entries[i].normalized@ == n
}

/// A line that is not grouped adds no grouped word.
proof fn lemma_kept_step(entries: Seq<RawWord>, blacklist: Seq<Seq<char>>, j: int)
    requires
        0 <= j < entries.len(),
        !kept(entries[j], blacklist),
    ensures
        forall|n: Seq<char>| kept_upto(entries, blacklist, j + 1, n) <==> kept_upto(entries, blacklist, j, n),
{
    assert forall|n: Seq<char>| kept_upto(entries, blacklist, j + 1, n) implies kept_upto(entries, blacklist, j, n) by {
        let i = choose|i: int| 0 <= i < j + 1 && kept(entries[i], blacklist) && #[trigger] entries[i].normalized@ == n;
        assert(i < j);
    }
}

/// A line that is rejected or not blacklisted adds no blacklisted word.
proof fn lemma_blacklisted_step(entries: Seq<RawWord>, blacklist: Seq<Seq<char>>, j: int)
    requires
        0 <= j < entries.len(),
        entries[j].rejected || !blacklist.contains(entries[j].normalized@),
    ensures
        forall|n: Seq<char>| blacklisted_upto(entries, blacklist, j + 1, n) <==> blacklisted_upto(entries, blacklist, j, n),
{
    assert forall|n: Seq<char>| blacklisted_upto(entries, blacklist, j + 1, n) implies blacklisted_upto(entries, blacklist, j, n) by {
        let i = choose|i: int| 0 <= i < j + 1 && !entries[i].rejected && blacklist.contains(n) && #[trigger] entries[i].normalized@ == n;
        assert(i < j);
    }
}

proof fn lemma_member_update(old: Seq<Class>, k: int, cl: Class, nv: Seq<char>)
    requires
        0 <= k < old.len(),
        cl.members@.len() == old[k].members@.len() + 1,
        forall|m: int| 0 <= m < old[k].members.len() ==> cl.members@[m] == old[k].members@[m],
        cl.members@[old[k].members.len() as int]@ == nv,
    ensures
        forall|x: Seq<char>|
            class_member(old.update(k, cl), x) <==> (class_member(old, x) || x == nv),
{
    let new = old.update(k, cl);
    assert forall|x: Seq<char>| class_member(new, x) <==> (class_member(old, x) || x == nv) by {
        if class_member(new, x) {
            let (k2, m) = choose|k2: int, m: int|
                0 <= k2 < new.len() && 0 <= m < new[k2].members.len()
                    && #[trigger] new[k2].members@[m]@ == x;
            if k2 != k {
                assert(old[k2].members@[m]@ == x);
            } else if m < old[k].members.len() {
                assert(old[k].members@[m]@ == x);
            }
        }
        if class_member(old, x) {
            let (k2, m) = choose|k2: int, m: int|
                0 <= k2 < old.len() && 0 <= m < old[k2].members.len()
                    && #[trigger] old[k2].members@[m]@ == x;
            if k2 != k {
                assert(new[k2].members@[m]@ == x);
            } else {
                assert(new[k].members@[m]@ == x);
            }
        }
        if x == nv {
            assert(new[k].members@[old[k].members.len() as int]@ == x);
        }
    }
}

proof fn lemma_member_push(old: Seq<Class>, cl: Class, nv: Seq<char>)
    requires
        cl.members@.len() == 1,
        cl.members@[0]@ == nv,
    ensures
        forall|x: Seq<char>| class_member(old.push(cl), x) <==> (class_member(old, x) || x == nv),
{
    let new = old.push(cl);
    assert forall|x: Seq<char>| class_member(new, x) <==> (class_member(old, x) || x == nv) by {
        if class_member(new, x) {
            let (k2, m) = choose|k2: int, m: int|
                0 <= k2 < new.len() && 0 <= m < new[k2].members.len()
                    && #[trigger] new[k2].members@[m]@ == x;
            if k2 < old.len() {
                assert(old[k2].members@[m]@ == x);
            }
        }
        if class_member(old, x) {
            let (k2, m) = choose|k2: int, m: int|
                0 <= k2 < old.len() && 0 <= m < old[k2].members.len()
                    && #[trigger] old[k2].members@[m]@ == x;
            assert(new[k2].members@[m]@ == x);
        }
        if x == nv {
            assert(new[old.len() as int].members@[0]@ == x);
        }
    }
}

/// Groups the lines of the word list: drops rejected and blacklisted lines,
/// keeps the display forms of each normalized word, and sorts the normalized
/// words into anagram classes.
/// Adds the normalized word `n` to the class of its key, making the class
/// where there is none.
fn add_to_class(cls: &mut Vec<Class>, n: &Vec<char>)
    requires
        classes_wf(old(cls)@),
    ensures
        classes_wf(final(cls)@),
        forall|x: Seq<char>| class_member(final(cls)@, x) <==> (class_member(old(cls)@, x) || x == n@),
{
    let ghost old_cls = cls@;
    let ghost nv = n@;
    let key = canonicalize(n);
    match find_class(cls, &key) {
        Some(k) => {
            if !contains_word(&cls[k].members, n) {
                let mut cl = cls.remove(k);
                let ghost old_cl = cl;
                cl.members.push(copy_word(n));
                cls.insert(k, cl);
                proof {
                    assert(cls@ =~= old_cls.update(k as int, cl));
                    lemma_member_update(old_cls, k as int, cl, nv);
                    assert forall|x: Seq<char>| class_member(cls@, x) <==> (class_member(old_cls, x) || x == nv) by {
                        assert(class_member(old_cls.update(k as int, cl), x) <==> (class_member(old_cls, x) || x == nv));
                    }
                    assert(cl.wf()) by {
                        assert forall|m: int| 0 <= m < cl.members.len() implies canonical(#[trigger] cl.members@[m]@) == cl.key@ by {
                            if m < old_cl.members.len() {
                                assert(cl.members@[m] == old_cl.members@[m]);
                            }
                        }
                        assert(words_of(cl.members@) =~= words_of(old_cl.members@).push(nv));
                    }
                    assert forall|a: int, b: int| 0 <= a < b < cls.len() implies (#[trigger] cls@[a]).key@ != (#[trigger] cls@[b]).key@ by {
                        assert(old_cls[a].key@ != old_cls[b].key@);
                    }
                }
            } else {
                proof {
                    let m = choose|m: int| 0 <= m < cls@[k as int].members.len() && words_of(cls@[k as int].members@)[m] == nv;
                    assert(cls@[k as int].members@[m]@ == nv);
                    assert(class_member(cls@, nv));
                    assert(cls@ == old_cls);
                    assert forall|x: Seq<char>| class_member(cls@, x) <==> (class_member(old_cls, x) || x == nv) by {
                        if x == nv {
                            assert(class_member(old_cls, x));
                        }
                    }
                }
            }
        }
        None => {
            let counts = count_chars(&key);
            let mut ms: Vec<Vec<char>> = Vec::new();
            ms.push(copy_word(n));
            let cl = Class { key, members: ms, counts };
            cls.push(cl);
            proof {
                lemma_member_push(old_cls, cl, nv);
                assert(cls@ == old_cls.push(cl));
                assert(forall|x: Seq<char>| class_member(cls@, x) <==> (class_member(old_cls, x) || x == nv));
                assert(cl.wf()) by {
                    assert(words_of(cl.members@) =~= seq![nv]);
                }
                assert forall|a: int, b: int| 0 <= a < b < cls.len() implies (#[trigger] cls@[a]).key@ != (#[trigger] cls@[b]).key@ by {
                    if b < old_cls.len() {
                        assert(old_cls[a].key@ != old_cls[b].key@);
                    } else {
                        assert(old_cls[a].key@ != cl.key@);
                    }
                }
                assert forall|a: int| 0 <= a < cls.len() implies (#[trigger] cls@[a]).wf() by {
                    if a < old_cls.len() {
                        assert(old_cls[a].wf());
                    }
                }
            }
        }
    }
}

#[verifier::spinoff_prover]
pub fn group_words(entries: &Vec<RawWord>, blacklist: &Vec<Vec<char>>) -> (s: Stage1)
    ensures
        grouped(entries@, words_of(blacklist@), s),
{
    let ghost bl = words_of(blacklist@);
    let mut forms: Vec<WordForms> = Vec::new();
    let mut classes: Vec<Class> = Vec::new();
    let mut used: Vec<Vec<char>> = Vec::new();
    let mut j: usize = 0;
    assert(words_of(used@) =~= Seq::<Seq<char>>::empty());
    while j < entries.len()
        invariant
            j <= entries.len(),
            bl == words_of(blacklist@),
            classes_wf(classes@),
            forall|n: Seq<char>| class_member(classes@, n) <==> kept_upto(entries@, bl, j as int, n),
            forall|n: Seq<char>| has_forms(forms@, n) <==> kept_upto(entries@, bl, j as int, n),
            forms_from(forms@, entries@, bl),
            forall|i: int|
                0 <= i < forms.len() ==> form_pairs((#[trigger] forms@[i]).forms@) == forms_for(
                    entries@.subrange(0, j as int),
                    bl,
                    forms@[i].norm@,
                ),
            forall|i: int| 0 <= i < j && kept(entries@[i], bl) ==> form_listed(forms@, #[trigger] entries@[i]),
            forall|n: Seq<char>|
                words_of(used@).contains(n) <==> blacklisted_upto(entries@, bl, j as int, n),
        decreases entries.len() - j,
    {
        let e = &entries[j];
        let ghost pre_e = entries@.subrange(0, j as int);
        let ghost sub_e = entries@.subrange(0, j + 1);
        proof {
            assert(sub_e.drop_last() =~= pre_e);
            assert(sub_e.last() == entries@[j as int]);
        }
        let ghost old_classes = classes@;
        let ghost old_forms = forms@;
        let ghost old_used = used@;
        if e.rejected {
            proof {
                lemma_kept_step(entries@, bl, j as int);
                lemma_blacklisted_step(entries@, bl, j as int);
                assert forall|a: int| 0 <= a < forms.len() implies form_pairs((#[trigger] forms@[a]).forms@) == forms_for(sub_e, bl, forms@[a].norm@) by {
                    assert(!kept(sub_e.last(), bl));
                }
            }
        } else if contains_word(blacklist, &e.normalized) {
            used.push(copy_word(&e.normalized));
            proof {
                assert(words_of(used@) =~= words_of(old_used).push(e.normalized@));
                assert forall|a: int| 0 <= a < forms.len() implies form_pairs((#[trigger] forms@[a]).forms@) == forms_for(sub_e, bl, forms@[a].norm@) by {
                    assert(!kept(sub_e.last(), bl));
                }
                lemma_kept_step(entries@, bl, j as int);
                assert forall|n: Seq<char>| words_of(used@).contains(n) <==> blacklisted_upto(entries@, bl, j + 1, n) by {
                    if blacklisted_upto(entries@, bl, j + 1, n) {
                        let i = choose|i: int| 0 <= i < j + 1 && !entries@[i].rejected && bl.contains(n) && #[trigger] entries@[i].normalized@ == n;
                        if i < j {
                            assert(words_of(old_used).contains(n));
                            let x = choose|x: int| 0 <= x < old_used.len() && words_of(old_used)[x] == n;
                            assert(words_of(used@)[x] == n);
                        } else {
                            assert(words_of(used@)[old_used.len() as int] == n);
                        }
                    }
                    if words_of(used@).contains(n) {
                        let x = choose|x: int| 0 <= x < used.len() && words_of(used@)[x] == n;
                        assert(x < used.len());
                        if x < old_used.len() {
                            assert(words_of(old_used)[x] == n);
                            assert(words_of(old_used).contains(n));
                            let i = choose|i: int| 0 <= i < j && !entries@[i].rejected && bl.contains(n) && #[trigger] entries@[i].normalized@ == n;
                            assert(0 <= i < j + 1);
                        } else {
                            assert(entries@[j as int].normalized@ == n);
                        }
                    }
                }
            }
        } else {
            let n = &e.normalized;
            let ghost nv = n@;
            proof {
                assert(kept(entries@[j as int], bl));
                assert forall|x: Seq<char>| kept_upto(entries@, bl, j + 1, x) <==> (kept_upto(entries@, bl, j as int, x) || x == nv) by {
                    if kept_upto(entries@, bl, j + 1, x) {
                        let i = choose|i: int| 0 <= i < j + 1 && kept(entries@[i], bl) && #[trigger] entries@[i].normalized@ == x;
                        if i < j {
                            assert(kept_upto(entries@, bl, j as int, x));
                        }
                    }
                    if kept_upto(entries@, bl, j as int, x) {
                        let i = choose|i: int| 0 <= i < j && kept(entries@[i], bl) && #[trigger] entries@[i].normalized@ == x;
                        assert(0 <= i < j + 1);
                    }
                    if x == nv {
                        assert(entries@[j as int].normalized@ == x);
                    }
                }
                lemma_blacklisted_step(entries@, bl, j as int);
            }
            let form = Form { blanked: e.blanked.clone(), full: e.full.clone() };
            match find_forms(&forms, n) {
                Some(i) => {
                    let mut wf = forms.remove(i);
                    let ghost old_wf = wf;
                    wf.forms.push(form);
                    forms.insert(i, wf);
                    proof {
                        assert(forms@ =~= old_forms.update(i as int, wf));
                        assert(has_forms(old_forms, nv));
                        assert forall|a: int| 0 <= a < forms.len() implies form_pairs((#[trigger] forms@[a]).forms@) == forms_for(sub_e, bl, forms@[a].norm@) by {
                            if a == i {
                                assert(old_wf == old_forms[a]);
                                assert(form_pairs(forms@[a].forms@) =~= form_pairs(old_wf.forms@).push((form.blanked@, form.full@)));
                            } else {
                                assert(old_forms[a].norm@ != old_forms[i as int].norm@);
                                assert(forms@[a] == old_forms[a]);
                            }
                        }
                        assert forall|i2: int| 0 <= i2 < j + 1 && kept(entries@[i2], bl) implies form_listed(forms@, #[trigger] entries@[i2]) by {
                            if i2 < j {
                                let (a, f) = choose|a: int, f: int|
                                    0 <= a < old_forms.len() && 0 <= f < old_forms[a].forms.len() && old_forms[a].norm@ == entries@[i2].normalized@
                                        && #[trigger] old_forms[a].forms@[f].full@ == entries@[i2].full@ && old_forms[a].forms@[f].blanked@
                                        == entries@[i2].blanked@;
                                if a == i {
                                    assert(forms@[a].forms@[f] == old_wf.forms@[f]);
                                } else {
                                    assert(forms@[a] == old_forms[a]);
                                }
                                assert(forms@[a].forms@[f].full@ == entries@[i2].full@);
                            } else {
                                let f = old_wf.forms.len() as int;
                                assert(forms@[i as int].forms@[f].full@ == entries@[i2].full@);
                            }
                        }
                        assert forall|x: Seq<char>| has_forms(forms@, x) <==> has_forms(old_forms, x) by {
                            if has_forms(forms@, x) {
                                let a = choose|a: int| 0 <= a < forms.len() && #[trigger] forms@[a].norm@ == x;
                                assert(old_forms[a].norm@ == x);
                            }
                            if has_forms(old_forms, x) {
                                let a = choose|a: int| 0 <= a < old_forms.len() && #[trigger] old_forms[a].norm@ == x;
                                assert(forms@[a].norm@ == x);
                            }
                        }
                        assert forall|a: int, b: int| 0 <= a < b < forms.len() implies (#[trigger] forms@[a]).norm@ != (#[trigger] forms@[b]).norm@ by {
                            assert(old_forms[a].norm@ != old_forms[b].norm@);
                        }
                        assert forall|a: int, f: int|
                            0 <= a < forms.len() && 0 <= f < forms@[a].forms.len() implies form_source(
                                entries@,
                                bl,
                                forms@[a].norm@,
                                #[trigger] forms@[a].forms@[f],
                            ) by {
                            if a != i || f < old_wf.forms.len() {
                                if a == i {
                                    assert(old_wf == old_forms[a]);
                                    assert(forms@[a].forms@ == old_wf.forms@.push(form));
                                }
                                assert(f < old_forms[a].forms.len());
                                assert(forms@[a].forms@[f] == old_forms[a].forms@[f]);
                                assert(form_source(entries@, bl, old_forms[a].norm@, old_forms[a].forms@[f]));
                            } else {
                                assert(entries@[j as int].full@ == forms@[a].forms@[f].full@);
                                assert(entries@[j as int].normalized@ == forms@[a].norm@);
                            }
                        }
                    }
                }
                None => {
                    let mut fs: Vec<Form> = Vec::new();
                    fs.push(form);
                    let wf = WordForms { norm: copy_word(n), forms: fs };
                    forms.push(wf);
                    proof {
                        assert forall|a: int| 0 <= a < forms.len() implies form_pairs((#[trigger] forms@[a]).forms@) == forms_for(sub_e, bl, forms@[a].norm@) by {
                            if a < old_forms.len() {
                                assert(forms@[a] == old_forms[a]);
                                assert(old_forms[a].norm@ != nv);
                            } else {
                                assert(!kept_upto(pre_e, bl, pre_e.len() as int, nv)) by {
                                    if kept_upto(pre_e, bl, pre_e.len() as int, nv) {
                                        let i3 = choose|i3: int| 0 <= i3 < pre_e.len() && kept(pre_e[i3], bl) && #[trigger] pre_e[i3].normalized@ == nv;
                                        assert(entries@[i3] == pre_e[i3]);
                                    }
                                }
                                lemma_forms_for_empty(pre_e, bl, nv);
                                assert(form_pairs(forms@[a].forms@) =~= forms_for(pre_e, bl, nv).push((form.blanked@, form.full@)));
                            }
                        }
                        assert forall|i2: int| 0 <= i2 < j + 1 && kept(entries@[i2], bl) implies form_listed(forms@, #[trigger] entries@[i2]) by {
                            if i2 < j {
                                let (a, f) = choose|a: int, f: int|
                                    0 <= a < old_forms.len() && 0 <= f < old_forms[a].forms.len() && old_forms[a].norm@ == entries@[i2].normalized@
                                        && #[trigger] old_forms[a].forms@[f].full@ == entries@[i2].full@ && old_forms[a].forms@[f].blanked@
                                        == entries@[i2].blanked@;
                                assert(forms@[a] == old_forms[a]);
                                assert(forms@[a].forms@[f].full@ == entries@[i2].full@);
                            } else {
                                assert(forms@[old_forms.len() as int].forms@[0].full@ == entries@[i2].full@);
                            }
                        }
                        assert forall|x: Seq<char>| has_forms(forms@, x) <==> (has_forms(old_forms, x) || x == nv) by {
                            if has_forms(forms@, x) {
                                let a = choose|a: int| 0 <= a < forms.len() && #[trigger] forms@[a].norm@ == x;
                                if a < old_forms.len() {
                                    assert(old_forms[a].norm@ == x);
                                }
                            }
                            if has_forms(old_forms, x) {
                                let a = choose|a: int| 0 <= a < old_forms.len() && #[trigger] old_forms[a].norm@ == x;
                                assert(forms@[a].norm@ == x);
                            }
                            if x == nv {
                                assert(forms@[old_forms.len() as int].norm@ == x);
                            }
                        }
                        assert forall|a: int, b: int| 0 <= a < b < forms.len() implies (#[trigger] forms@[a]).norm@ != (#[trigger] forms@[b]).norm@ by {
                            if b < old_forms.len() {
                                assert(old_forms[a].norm@ != old_forms[b].norm@);
                            } else {
                                assert(old_forms[a].norm@ == forms@[a].norm@);
                            }
                        }
                        assert forall|a: int, f: int|
                            0 <= a < forms.len() && 0 <= f < forms@[a].forms.len() implies form_source(
                                entries@,
                                bl,
                                forms@[a].norm@,
                                #[trigger] forms@[a].forms@[f],
                            ) by {
                            if a < old_forms.len() {
                                assert(forms@[a] == old_forms[a]);
                                assert(form_source(entries@, bl, old_forms[a].norm@, old_forms[a].forms@[f]));
                            } else {
                                assert(entries@[j as int].full@ == forms@[a].forms@[f].full@);
                                assert(entries@[j as int].normalized@ == forms@[a].norm@);
                            }
                        }
                    }
                }
            }
            proof {
                assert forall|x: Seq<char>| has_forms(forms@, x) <==> kept_upto(entries@, bl, j + 1, x) by {
                    assert(has_forms(forms@, x) <==> (has_forms(old_forms, x) || x == nv));
                    assert(has_forms(old_forms, x) <==> kept_upto(entries@, bl, j as int, x));
                    assert(kept_upto(entries@, bl, j + 1, x) <==> (kept_upto(entries@, bl, j as int, x) || x == nv));
                }
            }
            add_to_class(&mut classes, n);
            proof {
                assert forall|x: Seq<char>| class_member(classes@, x) <==> kept_upto(entries@, bl, j + 1, x) by {
                    assert(class_member(classes@, x) <==> (class_member(old_classes, x) || x == nv));
                    assert(class_member(old_classes, x) <==> kept_upto(entries@, bl, j as int, x));
                    assert(kept_upto(entries@, bl, j + 1, x) <==> (kept_upto(entries@, bl, j as int, x) || x == nv));
                }
            }
        }
        j += 1;
    }
    assert(entries@.subrange(0, entries.len() as int) =~= entries@);
    Stage1 { forms, classes, used_blacklist: used }
}

} // verus!
