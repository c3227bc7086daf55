use vstd::prelude::*;
use crate::engine::Family;
use crate::order::words_of;
use crate::snapshot::{contains_word, has_forms, Form, WordForms};
use crate::text::string_of;

verus! {

/// A normalized word and its id.
pub struct FormIdRow {
    pub norm: String,
    pub id: usize,
}

/// A display form of the word with id `id`.
pub struct FormRow {
    pub oid: usize,
    pub id: usize,
    pub blank: String,
    pub full: String,
}

/// A target key and its id.
pub struct SetIdRow {
    pub key: String,
    pub id: usize,
}

/// A member of the family of the key with id `id`.
pub struct SetRow {
    pub oid: usize,
    pub id: usize,
    pub norm: String,
}

/// A target key under the length of its word.
pub struct SetKeyRow {
    pub oid: usize,
    pub len: usize,
    pub key: String,
}

/// The five tables that are stored.
pub struct Tables {
    pub form_ids: Vec<FormIdRow>,
    pub forms: Vec<FormRow>,
    pub set_ids: Vec<SetIdRow>,
    pub sets: Vec<SetRow>,
    pub set_keys: Vec<SetKeyRow>,
}

/// Whether `n` is a member of some family.
pub open spec fn used_word(fams: Seq<Family>, n: Seq<char>) -> bool {
    exists|i: int, w: int|
        0 <= i < fams.len() && 0 <= w < fams[i].words.len() && #[trigger] fams[i].words@[w]@ == n
}

/// Whether `norm` has the display form (`blank`, `full`).
pub open spec fn has_form(forms: Seq<WordForms>, norm: Seq<char>, blank: Seq<char>, full: Seq<char>) -> bool {
    exists|a: int, f: int|
        0 <= a < forms.len() && 0 <= f < forms[a].forms.len() && forms[a].norm@ == norm
            && #[trigger] forms[a].forms@[f].blanked@ == blank && forms[a].forms@[f].full@ == full
}

/// The normalized words that some family uses, in the order of the display
/// forms.
pub open spec fn used_norms(forms: Seq<WordForms>, fams: Seq<Family>) -> Seq<Seq<char>>
    decreases forms.len(),
{
    if forms.len() == 0 {
        Seq::empty()
    } else {
        let r = used_norms(forms.drop_last(), fams);
        if used_word(fams, forms.last().norm@) {
            r.push(forms.last().norm@)
        } else {
            r
        }
    }
}

/// The display-form rows: every form of every used word, in order, each once,
/// under the id of its word.
pub open spec fn form_rows_of(forms: Seq<WordForms>, fams: Seq<Family>) -> Seq<(int, Seq<char>, Seq<char>)>
    decreases forms.len(),
{
    if forms.len() == 0 {
        Seq::empty()
    } else {
        let pre = forms.drop_last();
        let l = forms.last();
        if used_word(fams, l.norm@) {
            form_rows_of(pre, fams) + Seq::new(
                l.forms.len() as nat,
                |f: int| (used_norms(pre, fams).len() as int, l.forms@[f].blanked@, l.forms@[f].full@),
            )
        } else {
            form_rows_of(pre, fams)
        }
    }
}

/// The word-id and display-form tables: the words that some family uses, and
/// all of their display forms.
pub open spec fn word_tables(forms: Seq<WordForms>, fams: Seq<Family>, ids: Seq<FormIdRow>, rows: Seq<FormRow>) -> bool {
    &&& ids.len() == used_norms(forms, fams).len()
    &&& forall|i: int| 0 <= i < ids.len() ==> (#[trigger] ids[i]).norm@ == used_norms(forms, fams)[i]
    &&& rows.len() == form_rows_of(forms, fams).len()
    &&& forall|r: int|
        0 <= r < rows.len() ==> ((#[trigger] rows[r]).id as int, rows[r].blank@, rows[r].full@)
            == form_rows_of(forms, fams)[r]
    &&& forall|i: int|
        0 <= i < ids.len() ==> {
            let row = #[trigger] ids[i];
            &&& row.id == i
            &&& used_word(fams, row.norm@)
            &&& has_forms(forms, row.norm@)
        }
    &&& forall|i: int, j: int|
        0 <= i < j < ids.len() ==> (#[trigger] ids[i]).norm@ != (
        #[trigger] ids[j]).norm@
    &&& forall|n: Seq<char>|
        used_word(fams, n) && has_forms(forms, n) ==> exists|i: int|
            0 <= i < ids.len() && (#[trigger] ids[i]).norm@ == n
    &&& forall|r: int|
        0 <= r < rows.len() ==> {
            let row = #[trigger] rows[r];
            &&& row.oid == r
            &&& row.id < ids.len()
            &&& has_form(forms, ids[row.id as int].norm@, row.blank@, row.full@)
        }
    &&& forall|a: int, f: int|
        0 <= a < forms.len() && 0 <= f < forms[a].forms.len() && used_word(fams, forms[a].norm@)
            ==> form_stored(ids, rows, forms[a].norm@, #[trigger] forms[a].forms@[f])
}

/// Whether the display-form table holds `form` under the id of `norm`.
pub open spec fn form_stored(ids: Seq<FormIdRow>, rows: Seq<FormRow>, norm: Seq<char>, form: Form) -> bool {
    exists|r: int|
        0 <= r < rows.len() && (#[trigger] rows[r]).blank@ == form.blanked@ && rows[r].full@
            == form.full@ && rows[r].id < ids.len() && ids[rows[r].id as int].norm@ == norm
}

/// The member rows that the families give, in order: the words of each
/// family, in the family's own order, under the family's index.
pub open spec fn member_rows(fams: Seq<Family>) -> Seq<(int, Seq<char>)>
    decreases fams.len(),
{
    if fams.len() == 0 {
        Seq::empty()
    } else {
        let i = fams.len() - 1;
        member_rows(fams.drop_last()) + Seq::new(
            fams[i].words.len() as nat,
            |w: int| (i, fams[i].words@[w]@),
        )
    }
}

/// The family tables: one id per family, one row per member, and the keys
/// by the length of their words.
pub open spec fn family_tables(fams: Seq<Family>, set_ids: Seq<SetIdRow>, sets: Seq<SetRow>, set_keys: Seq<SetKeyRow>) -> bool {
    &&& set_ids.len() == fams.len()
    &&& forall|i: int|
        0 <= i < fams.len() ==> (#[trigger] set_ids[i]).id == i && set_ids[i].key@
            == fams[i].key@
    &&& forall|r: int|
        0 <= r < sets.len() ==> {
            let row = #[trigger] sets[r];
            &&& row.oid == r
            &&& row.id < fams.len()
            &&& words_of(fams[row.id as int].words@).contains(row.norm@)
        }
    &&& forall|i: int, w: int|
        0 <= i < fams.len() && 0 <= w < fams[i].words.len() ==> member_stored(
            sets,
            i,
            #[trigger] fams[i].words@[w]@,
        )
    &&& sets.len() == member_rows(fams).len()
    &&& forall|r: int| 0 <= r < sets.len() ==> ((#[trigger] sets[r]).id as int, sets[r].norm@) == member_rows(fams)[r]
    &&& set_keys.len() == fams.len()
    &&& forall|i: int|
        0 <= i < fams.len() ==> (#[trigger] set_keys[i]).oid == i && set_keys[i].len
            == fams[i].key@.len() && set_keys[i].key@ == fams[i].key@
}

/// Whether the family table holds `n` under the id `i`.
pub open spec fn member_stored(sets: Seq<SetRow>, i: int, n: Seq<char>) -> bool {
    exists|r: int| 0 <= r < sets.len() && (#[trigger] sets[r]).id == i && sets[r].norm@ == n
}

/// Whether the word-id table holds `n`.
pub open spec fn stored_word(t: Tables, n: Seq<char>) -> bool {
    exists|i: int| 0 <= i < t.form_ids.len() && #[trigger] t.form_ids@[i].norm@ == n
}

/// Whether the length index holds `key`.
pub open spec fn indexed_key(t: Tables, key: Seq<char>) -> bool {
    exists|i: int| 0 <= i < t.set_keys.len() && #[trigger] t.set_keys@[i].key@ == key
}

/// The tables that the families and the display forms give.
#[verifier::opaque]
pub open spec fn tables_of(forms: Seq<WordForms>, fams: Seq<Family>, t: Tables) -> bool {
    &&& word_tables(forms, fams, t.form_ids@, t.forms@)
    &&& family_tables(fams, t.set_ids@, t.sets@, t.set_keys@)
}

/// Whether some family has `n` as a member.
pub fn is_used(fams: &Vec<Family>, n: &Vec<char>) -> (r: bool)
    ensures
        r == used_word(fams@, n@),
{
    let mut i: usize = 0;
    while i < fams.len()
        invariant
            i <= fams.len(),
            forall|i2: int, w: int|
                0 <= i2 < i && 0 <= w < fams@[i2].words.len() ==> #[trigger] fams@[i2].words@[w]@
                    != n@,
        decreases fams.len() - i,
    {
        if contains_word(&fams[i].words, n) {
            proof {
                let w = choose|w: int| 0 <= w < fams@[i as int].words.len() && words_of(fams@[i as int].words@)[w] == n@;
                assert(fams@[i as int].words@[w]@ == n@);
            }
            return true;
        }
        proof {
            assert forall|w: int| 0 <= w < fams@[i as int].words.len() implies #[trigger] fams@[i as int].words@[w]@ != n@ by {
                assert(words_of(fams@[i as int].words@)[w] == fams@[i as int].words@[w]@);
            }
        }
        i += 1;
    }
    false
}

/// The rows of the word-id and display-form tables.
pub fn word_rows(forms: &Vec<WordForms>, fams: &Vec<Family>) -> (r: (Vec<FormIdRow>, Vec<FormRow>))
    requires
        forall|i: int, j: int|
            0 <= i < j < forms.len() ==> (#[trigger] forms@[i]).norm@ != (#[trigger] forms@[j]).norm@,
    ensures
        word_tables(forms@, fams@, r.0@, r.1@),
{
    let mut ids: Vec<FormIdRow> = Vec::new();
    let mut rows: Vec<FormRow> = Vec::new();
    let mut a: usize = 0;
    assert(forms@.subrange(0, 0) =~= Seq::<WordForms>::empty());
    while a < forms.len()
        invariant
            a <= forms.len(),
            ids.len() == used_norms(forms@.subrange(0, a as int), fams@).len(),
            forall|i: int| 0 <= i < ids.len() ==> (#[trigger] ids@[i]).norm@ == used_norms(forms@.subrange(0, a as int), fams@)[i],
            rows.len() == form_rows_of(forms@.subrange(0, a as int), fams@).len(),
            forall|r: int|
                0 <= r < rows.len() ==> ((#[trigger] rows@[r]).id as int, rows@[r].blank@, rows@[r].full@)
                    == form_rows_of(forms@.subrange(0, a as int), fams@)[r],
            forall|i: int, j: int|
                0 <= i < j < forms.len() ==> (#[trigger] forms@[i]).norm@ != (#[trigger] forms@[j]).norm@,
            forall|i: int|
                0 <= i < ids.len() ==> {
                    let row = #[trigger] ids@[i];
                    &&& row.id == i
                    &&& used_word(fams@, row.norm@)
                    &&& has_forms(forms@, row.norm@)
                },
            forall|i: int, a2: int|
                0 <= i < ids.len() && a <= a2 < forms.len() ==> (#[trigger] ids@[i]).norm@ != (
                #[trigger] forms@[a2]).norm@,
            forall|i: int, j: int|
                0 <= i < j < ids.len() ==> (#[trigger] ids@[i]).norm@ != (#[trigger] ids@[j]).norm@,
            forall|a2: int|
                0 <= a2 < a && used_word(fams@, forms@[a2].norm@) ==> exists|i: int|
                    0 <= i < ids.len() && (#[trigger] ids@[i]).norm@ == (#[trigger] forms@[a2]).norm@,
            forall|r: int|
                0 <= r < rows.len() ==> {
                    let row = #[trigger] rows@[r];
                    &&& row.oid == r
                    &&& row.id < ids.len()
                    &&& has_form(forms@, ids@[row.id as int].norm@, row.blank@, row.full@)
                },
            forall|a2: int, f: int|
                0 <= a2 < a && 0 <= f < forms@[a2].forms.len() && used_word(fams@, forms@[a2].norm@)
                    ==> form_stored(ids@, rows@, forms@[a2].norm@, #[trigger] forms@[a2].forms@[f]),
        decreases forms.len() - a,
    {
        let wf = &forms[a];
        let ghost pre = forms@.subrange(0, a as int);
        let ghost sub = forms@.subrange(0, a + 1);
        proof {
            assert(sub.drop_last() =~= pre);
            assert(sub.last() == forms@[a as int]);
        }
        let ghost base = form_rows_of(pre, fams@);
        if is_used(fams, &wf.norm) {
            let id = ids.len();
            let ghost old_ids = ids@;
            ids.push(FormIdRow { norm: string_of(&wf.norm), id });
            proof {
                assert(has_forms(forms@, wf.norm@)) by {
                    assert(forms@[a as int].norm@ == wf.norm@);
                }
                assert forall|i: int, j: int| 0 <= i < j < ids.len() implies (#[trigger] ids@[i]).norm@ != (#[trigger] ids@[j]).norm@ by {
                    if j < id {
                        assert(old_ids[i].norm@ != old_ids[j].norm@);
                    } else {
                        assert(old_ids[i].norm@ != forms@[a as int].norm@);
                    }
                }
                assert forall|i: int, a2: int|
                    0 <= i < ids.len() && a + 1 <= a2 < forms.len() implies (#[trigger] ids@[i]).norm@ != (
                    #[trigger] forms@[a2]).norm@ by {
                    if i == id {
                        assert(forms@[a as int].norm@ != forms@[a2].norm@);
                    } else {
                        assert(old_ids[i].norm@ != forms@[a2].norm@);
                    }
                }
                assert forall|a2: int|
                    0 <= a2 < a + 1 && used_word(fams@, forms@[a2].norm@) implies exists|i: int|
                        0 <= i < ids.len() && (#[trigger] ids@[i]).norm@ == (#[trigger] forms@[a2]).norm@ by {
                    if a2 < a {
                        let i = choose|i: int| 0 <= i < old_ids.len() && (#[trigger] old_ids[i]).norm@ == (#[trigger] forms@[a2]).norm@;
                        assert(ids@[i] == old_ids[i]);
                    } else {
                        assert(ids@[id as int].norm@ == forms@[a2].norm@);
                    }
                }
                assert forall|a2: int, f: int|
                    0 <= a2 < a && 0 <= f < forms@[a2].forms.len() && used_word(fams@, forms@[a2].norm@)
                        implies form_stored(ids@, rows@, forms@[a2].norm@, #[trigger] forms@[a2].forms@[f]) by {
                    let form = forms@[a2].forms@[f];
                    let r = choose|r: int|
                        0 <= r < rows.len() && (#[trigger] rows@[r]).blank@ == form.blanked@ && rows@[r].full@
                            == form.full@ && rows@[r].id < old_ids.len() && old_ids[rows@[r].id as int].norm@ == forms@[a2].norm@;
                    assert(ids@[rows@[r].id as int] == old_ids[rows@[r].id as int]);
                }
                assert forall|r: int| 0 <= r < rows.len() implies {
                    let row = #[trigger] rows@[r];
                    &&& row.oid == r
                    &&& row.id < ids.len()
                    &&& has_form(forms@, ids@[row.id as int].norm@, row.blank@, row.full@)
                } by {
                    assert(ids@[rows@[r].id as int] == old_ids[rows@[r].id as int]);
                }
            }
            let mut f: usize = 0;
            while f < wf.forms.len()
                invariant
                    wf == forms@[a as int],
                    a < forms.len(),
                    id < ids.len(),
                    ids@[id as int].norm@ == wf.norm@,
                    f <= wf.forms.len(),
                    forall|r: int|
                        0 <= r < rows.len() ==> {
                            let row = #[trigger] rows@[r];
                            &&& row.oid == r
                            &&& row.id < ids.len()
                            &&& has_form(forms@, ids@[row.id as int].norm@, row.blank@, row.full@)
                        },
                    forall|a2: int, f2: int|
                        0 <= a2 < a && 0 <= f2 < forms@[a2].forms.len() && used_word(fams@, forms@[a2].norm@)
                            ==> form_stored(ids@, rows@, forms@[a2].norm@, #[trigger] forms@[a2].forms@[f2]),
                    forall|f2: int|
                        0 <= f2 < f ==> form_stored(ids@, rows@, wf.norm@, #[trigger] wf.forms@[f2]),
                    id == used_norms(pre, fams@).len(),
                    rows.len() == base.len() + f,
                    forall|r: int|
                        0 <= r < base.len() ==> ((#[trigger] rows@[r]).id as int, rows@[r].blank@, rows@[r].full@) == base[r],
                    forall|r: int|
                        base.len() <= r < rows.len() ==> (#[trigger] rows@[r]).id == id && rows@[r].blank@
                            == wf.forms@[r - base.len()].blanked@ && rows@[r].full@ == wf.forms@[r - base.len()].full@,
                decreases wf.forms.len() - f,
            {
                let form = &wf.forms[f];
                let oid = rows.len();
                let ghost old_rows = rows@;
                rows.push(FormRow { oid, id, blank: form.blanked.clone(), full: form.full.clone() });
                proof {
                    assert(has_form(forms@, ids@[id as int].norm@, form.blanked@, form.full@)) by {
                        assert(forms@[a as int].forms@[f as int].blanked@ == form.blanked@);
                    }
                    assert forall|a2: int, f2: int|
                        0 <= a2 < a && 0 <= f2 < forms@[a2].forms.len() && used_word(fams@, forms@[a2].norm@)
                            implies form_stored(ids@, rows@, forms@[a2].norm@, #[trigger] forms@[a2].forms@[f2]) by {
                        let fm = forms@[a2].forms@[f2];
                        let r = choose|r: int|
                            0 <= r < old_rows.len() && (#[trigger] old_rows[r]).blank@ == fm.blanked@ && old_rows[r].full@
                                == fm.full@ && old_rows[r].id < ids.len() && ids@[old_rows[r].id as int].norm@ == forms@[a2].norm@;
                        assert(rows@[r] == old_rows[r]);
                    }
                    assert forall|f2: int| 0 <= f2 < f + 1 implies form_stored(ids@, rows@, wf.norm@, #[trigger] wf.forms@[f2]) by {
                        if f2 < f {
                            let fm = wf.forms@[f2];
                            let r = choose|r: int|
                                0 <= r < old_rows.len() && (#[trigger] old_rows[r]).blank@ == fm.blanked@ && old_rows[r].full@
                                    == fm.full@ && old_rows[r].id < ids.len() && ids@[old_rows[r].id as int].norm@ == wf.norm@;
                            assert(rows@[r] == old_rows[r]);
                        } else {
                            assert(rows@[oid as int].blank@ == wf.forms@[f2].blanked@);
                        }
                    }
                }
                f += 1;
            }
            proof {
                let next = form_rows_of(sub, fams@);
                assert(next == base + Seq::new(
                    wf.forms.len() as nat,
                    |f2: int| (used_norms(pre, fams@).len() as int, wf.forms@[f2].blanked@, wf.forms@[f2].full@),
                ));
                assert forall|r: int|
                    0 <= r < rows.len() implies ((#[trigger] rows@[r]).id as int, rows@[r].blank@, rows@[r].full@)
                        == next[r] by {
                    if r >= base.len() {
                        assert(rows@[r].id == id);
                    }
                }
                assert(used_norms(sub, fams@) == used_norms(pre, fams@).push(wf.norm@));
            }
        } else {
            proof {
                assert forall|i: int, a2: int|
                    0 <= i < ids.len() && a + 1 <= a2 < forms.len() implies (#[trigger] ids@[i]).norm@ != (
                    #[trigger] forms@[a2]).norm@ by {
                    assert(ids@[i].norm@ != forms@[a2].norm@);
                }
            }
        }
        a += 1;
    }
    assert(forms@.subrange(0, forms.len() as int) =~= forms@);
    (ids, rows)
}

/// The rows of the family-id, family-member and length-index tables.
pub fn family_rows(fams: &Vec<Family>) -> (r: (Vec<SetIdRow>, Vec<SetRow>, Vec<SetKeyRow>))
    ensures
        family_tables(fams@, r.0@, r.1@, r.2@),
{
    let mut set_ids: Vec<SetIdRow> = Vec::new();
    let mut sets: Vec<SetRow> = Vec::new();
    let mut set_keys: Vec<SetKeyRow> = Vec::new();
    let mut i: usize = 0;
    assert(fams@.subrange(0, 0) =~= Seq::<Family>::empty());
    while i < fams.len()
        invariant
            i <= fams.len(),
            set_ids.len() == i,
            set_keys.len() == i,
            forall|i2: int|
                0 <= i2 < i ==> (#[trigger] set_ids@[i2]).id == i2 && set_ids@[i2].key@ == fams@[i2].key@,
            forall|r: int|
                0 <= r < sets.len() ==> {
                    let row = #[trigger] sets@[r];
                    &&& row.oid == r
                    &&& row.id < i
                    &&& words_of(fams@[row.id as int].words@).contains(row.norm@)
                },
            forall|i2: int, w: int|
                0 <= i2 < i && 0 <= w < fams@[i2].words.len() ==> member_stored(
                    sets@,
                    i2,
                    #[trigger] fams@[i2].words@[w]@,
                ),
            forall|i2: int|
                0 <= i2 < i ==> (#[trigger] set_keys@[i2]).oid == i2 && set_keys@[i2].len
                    == fams@[i2].key@.len() && set_keys@[i2].key@ == fams@[i2].key@,
            sets.len() == member_rows(fams@.subrange(0, i as int)).len(),
            forall|r: int|
                0 <= r < sets.len() ==> ((#[trigger] sets@[r]).id as int, sets@[r].norm@)
                    == member_rows(fams@.subrange(0, i as int))[r],
        decreases fams.len() - i,
    {
        let fam = &fams[i];
        let ghost base = member_rows(fams@.subrange(0, i as int));
        set_ids.push(SetIdRow { key: string_of(&fam.key), id: i });
        set_keys.push(SetKeyRow { oid: i, len: fam.key.len(), key: string_of(&fam.key) });
        let mut w: usize = 0;
        while w < fam.words.len()
            invariant
                i < fams.len(),
                fam == fams@[i as int],
                w <= fam.words.len(),
                forall|r: int|
                    0 <= r < sets.len() ==> {
                        let row = #[trigger] sets@[r];
                        &&& row.oid == r
                        &&& row.id <= i
                        &&& words_of(fams@[row.id as int].words@).contains(row.norm@)
                    },
                forall|i2: int, w2: int|
                    0 <= i2 < i && 0 <= w2 < fams@[i2].words.len() ==> member_stored(
                        sets@,
                        i2,
                        #[trigger] fams@[i2].words@[w2]@,
                    ),
                forall|w2: int| 0 <= w2 < w ==> member_stored(sets@, i as int, #[trigger] fam.words@[w2]@),
                base == member_rows(fams@.subrange(0, i as int)),
                sets.len() == base.len() + w,
                forall|r: int|
                    0 <= r < base.len() ==> ((#[trigger] sets@[r]).id as int, sets@[r].norm@) == base[r],
                forall|r: int|
                    base.len() <= r < sets.len() ==> (#[trigger] sets@[r]).id == i && sets@[r].norm@
                        == fam.words@[r - base.len()]@,
            decreases fam.words.len() - w,
        {
            let oid = sets.len();
            let ghost old_sets = sets@;
            sets.push(SetRow { oid, id: i, norm: string_of(&fam.words[w]) });
            proof {
                assert(words_of(fam.words@)[w as int] == fam.words@[w as int]@);
                assert forall|i2: int, w2: int|
                    0 <= i2 < i && 0 <= w2 < fams@[i2].words.len() implies member_stored(
                        sets@,
                        i2,
                        #[trigger] fams@[i2].words@[w2]@,
                    ) by {
                    let r = choose|r: int| 0 <= r < old_sets.len() && (#[trigger] old_sets[r]).id == i2 && old_sets[r].norm@ == fams@[i2].words@[w2]@;
                    assert(sets@[r] == old_sets[r]);
                }
                assert forall|w2: int| 0 <= w2 < w + 1 implies member_stored(sets@, i as int, #[trigger] fam.words@[w2]@) by {
                    if w2 < w {
                        let r = choose|r: int| 0 <= r < old_sets.len() && (#[trigger] old_sets[r]).id == i && old_sets[r].norm@ == fam.words@[w2]@;
                        assert(sets@[r] == old_sets[r]);
                    } else {
                        assert(sets@[oid as int].id == i);
                    }
                }
            }
            w += 1;
        }
        proof {
            let sub = fams@.subrange(0, i + 1);
            assert(sub.drop_last() =~= fams@.subrange(0, i as int));
            assert(sub[i as int] == fams@[i as int]);
            let next = member_rows(sub);
            assert(next == base + Seq::new(fam.words.len() as nat, |w2: int| (i as int, fam.words@[w2]@)));
            assert forall|r: int|
                0 <= r < sets.len() implies ((#[trigger] sets@[r]).id as int, sets@[r].norm@) == next[r] by {
                if r >= base.len() {
                    assert(sets@[r].id == i);
                }
            }
        }
        i += 1;
    }
    assert(fams@.subrange(0, fams.len() as int) =~= fams@);
    (set_ids, sets, set_keys)
}

/// Builds the five tables from the display forms and the families: only the
/// words that some family uses keep their display forms.
pub fn assemble(forms: &Vec<WordForms>, fams: &Vec<Family>) -> (t: Tables)
    requires
        forall|i: int, j: int|
            0 <= i < j < forms.len() ==> (#[trigger] forms@[i]).norm@ != (#[trigger] forms@[j]).norm@,
    ensures
        tables_of(forms@, fams@, t),
{
    let (form_ids, form_rows) = word_rows(forms, fams);
    let (set_ids, sets, set_keys) = family_rows(fams);
    let t = Tables { form_ids, forms: form_rows, set_ids, sets, set_keys };
    proof {
        reveal(tables_of);
    }
    t
}

} // verus!
