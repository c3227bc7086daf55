use vstd::prelude::*;
use crate::canon::{canonical, is_subseq};
use crate::order::{sort_words, words_of, words_sorted};
use crate::snapshot::{classes_wf, copy_word, Class, MIN_VALID_LEN};

verus! {

/// The shortest target word.
pub const MIN_LEN: usize = 4;

/// The longest target word.
pub const MAX_LEN: usize = 10;

/// How many characters shorter than its target a family member may be,
/// for targets at least this long.
pub const MAX_LEN_DIFFERENCE: usize = 5;

/// Whether a class with a key of length `cand` may join the family of a
/// target of length `target`.
pub open spec fn lengths_fit(target: nat, cand: nat) -> bool {
    &&& cand >= MIN_VALID_LEN
    &&& cand <= target
    &&& (target < MAX_LEN_DIFFERENCE || cand >= target - MAX_LEN_DIFFERENCE)
}

/// Whether the class with key `cand` joins the family of the target key.
pub open spec fn accepts(target: Seq<char>, cand: Seq<char>) -> bool {
    &&& lengths_fit(target.len(), cand.len())
    &&& cand.to_multiset().subset_of(target.to_multiset())
}

/// Whether `w` is a member of a class that joins the family of `target`.
pub open spec fn in_family(classes: Seq<Class>, target: Seq<char>, w: Seq<char>) -> bool {
    exists|k: int, m: int|
        0 <= k < classes.len() && 0 <= m < classes[k].members.len() && accepts(
            target,
            classes[k].key@,
        ) && #[trigger] classes[k].members@[m]@ == w
}

/// The family of `target`: exactly its words, in the family order.
pub open spec fn is_family(classes: Seq<Class>, target: Seq<char>, r: Seq<Seq<char>>) -> bool {
    &&& words_sorted(r)
    &&& forall|w: Seq<char>| r.contains(w) <==> in_family(classes, target, w)
}

/// Whether the class `cand` joins the family of the class `target`.
pub fn class_accepts(target: &Class, cand: &Class) -> (r: bool)
    requires
        target.wf(),
        cand.wf(),
    ensures
        r == accepts(target.key@, cand.key@),
{
    let tl = target.key.len();
    let cl = cand.key.len();
    let fits = cl >= MIN_VALID_LEN && cl <= tl && (tl < MAX_LEN_DIFFERENCE || cl >= tl
        - MAX_LEN_DIFFERENCE);
    if !fits {
        return false;
    }
    let r = is_subseq(&cand.counts, &target.counts);
    proof {
        if r {
            assert forall|c: char|
                cand.key@.to_multiset().count(c) <= target.key@.to_multiset().count(c) by {
                assert(cand.counts.count(c) <= target.counts.count(c));
            }
        } else {
            let c = choose|c: char| !(cand.counts.count(c) <= target.counts.count(c));
            assert(!(cand.key@.to_multiset().count(c) <= target.key@.to_multiset().count(c)));
        }
    }
    r
}

/// The family of the class at `target`: every member of every class that
/// it accepts, in the family order.
pub fn family_of(classes: &Vec<Class>, target: usize) -> (r: Vec<Vec<char>>)
    requires
        classes_wf(classes@),
        target < classes.len(),
    ensures
        is_family(classes@, classes@[target as int].key@, words_of(r@)),
{
    let t = &classes[target];
    let ghost tk = t.key@;
    let mut list: Vec<Vec<char>> = Vec::new();
    let mut k: usize = 0;
    while k < classes.len()
        invariant
            classes_wf(classes@),
            target < classes.len(),
            t == classes@[target as int],
            tk == t.key@,
            k <= classes.len(),
            words_of(list@).no_duplicates(),
            forall|i: int, k2: int|
                0 <= i < list.len() && k <= k2 < classes.len() ==> canonical(
                    #[trigger] list@[i]@,
                ) != #[trigger] classes@[k2].key@,
            forall|w: Seq<char>|
                words_of(list@).contains(w) <==> exists|k2: int, m: int|
                    0 <= k2 < k && 0 <= m < classes@[k2].members.len() && accepts(
                        tk,
                        classes@[k2].key@,
                    ) && #[trigger] classes@[k2].members@[m]@ == w,
        decreases classes.len() - k,
    {
        let c = &classes[k];
        assert(c.wf());
        if class_accepts(t, c) {
            let ghost base = list@;
            let mut m: usize = 0;
            while m < c.members.len()
                invariant
                    classes_wf(classes@),
                    c == classes@[k as int],
                    k < classes.len(),
                    m <= c.members.len(),
                    list.len() == base.len() + m,
                    forall|i: int| 0 <= i < base.len() ==> list@[i] == base[i],
                    forall|i: int| 0 <= i < m ==> list@[base.len() + i]@ == c.members@[i]@,
                    words_of(list@).no_duplicates(),
                    accepts(tk, c.key@),
                    target < classes.len(),
                    tk == classes@[target as int].key@,
                    forall|w: Seq<char>|
                        words_of(base).contains(w) <==> exists|k2: int, m: int|
                            0 <= k2 < k && 0 <= m < classes@[k2].members.len() && accepts(
                                tk,
                                classes@[k2].key@,
                            ) && #[trigger] classes@[k2].members@[m]@ == w,
                    forall|i: int, k2: int|
                        0 <= i < base.len() && k <= k2 < classes.len() ==> canonical(
                            #[trigger] base[i]@,
                        ) != #[trigger] classes@[k2].key@,
                decreases c.members.len() - m,
            {
                let w = copy_word(&c.members[m]);
                proof {
                    assert forall|i: int| 0 <= i < list.len() implies list@[i]@ != w@ by {
                        if i < base.len() {
                            assert(canonical(w@) == c.key@);
                            assert(canonical(base[i]@) != classes@[k as int].key@);
                        } else {
                            let j = i - base.len();
                            assert(words_of(c.members@)[j] != words_of(c.members@)[m as int]);
                        }
                    }
                }
                let ghost old_list = list@;
                list.push(w);
                proof {
                    assert forall|i: int, j: int|
                        0 <= i < j < list.len() implies words_of(list@)[i] != words_of(
                            list@,
                        )[j] by {
                        if j < old_list.len() {
                            assert(words_of(old_list)[i] != words_of(old_list)[j]);
                        } else {
                            assert(old_list[i]@ != w@);
                        }
                    }
                }
                m += 1;
            }
            proof {
                assert forall|i: int, k2: int|
                    0 <= i < list.len() && k + 1 <= k2 < classes.len() implies canonical(
                        #[trigger] list@[i]@,
                    ) != #[trigger] classes@[k2].key@ by {
                    if i < base.len() {
                        assert(list@[i] == base[i]);
                    } else {
                        assert(list@[i]@ == c.members@[i - base.len()]@);
                        assert(classes@[k as int].key@ != classes@[k2].key@);
                    }
                }
                assert forall|w: Seq<char>|
                    words_of(list@).contains(w) <==> exists|k2: int, mm: int|
                        0 <= k2 < k + 1 && 0 <= mm < classes@[k2].members.len() && accepts(
                            tk,
                            classes@[k2].key@,
                        ) && #[trigger] classes@[k2].members@[mm]@ == w by {
                    if words_of(list@).contains(w) {
                        let i = choose|i: int| 0 <= i < list.len() && words_of(list@)[i] == w;
                        if i < base.len() {
                            assert(list@[i] == base[i]);
                            assert(words_of(base)[i] == w);
                            assert(words_of(base).contains(w));
                            let (k2, mm) = choose|k2: int, mm: int|
                                0 <= k2 < k && 0 <= mm < classes@[k2].members.len() && accepts(
                                    tk,
                                    classes@[k2].key@,
                                ) && #[trigger] classes@[k2].members@[mm]@ == w;
                            assert(classes@[k2].members@[mm]@ == w);
                        } else {
                            assert(classes@[k as int].members@[i - base.len()]@ == w);
                        }
                    }
                    if exists|k2: int, mm: int|
                        0 <= k2 < k + 1 && 0 <= mm < classes@[k2].members.len() && accepts(
                            tk,
                            classes@[k2].key@,
                        ) && #[trigger] classes@[k2].members@[mm]@ == w {
                        let (k2, mm) = choose|k2: int, mm: int|
                            0 <= k2 < k + 1 && 0 <= mm < classes@[k2].members.len() && accepts(
                                tk,
                                classes@[k2].key@,
                            ) && #[trigger] classes@[k2].members@[mm]@ == w;
                        if k2 < k {
                            assert(words_of(base).contains(w));
                            let i = choose|i: int| 0 <= i < base.len() && words_of(base)[i] == w;
                            assert(list@[i] == base[i]);
                            assert(words_of(list@)[i] == w);
                        } else {
                            assert(list@[base.len() + mm]@ == c.members@[mm]@);
                            assert(words_of(list@)[base.len() + mm] == w);
                        }
                    }
                }
            }
        } else {
            proof {
                assert forall|w: Seq<char>|
                    words_of(list@).contains(w) <==> exists|k2: int, mm: int|
                        0 <= k2 < k + 1 && 0 <= mm < classes@[k2].members.len() && accepts(
                            tk,
                            classes@[k2].key@,
                        ) && #[trigger] classes@[k2].members@[mm]@ == w by {
                    if exists|k2: int, mm: int|
                        0 <= k2 < k + 1 && 0 <= mm < classes@[k2].members.len() && accepts(
                            tk,
                            classes@[k2].key@,
                        ) && #[trigger] classes@[k2].members@[mm]@ == w {
                        let (k2, mm) = choose|k2: int, mm: int|
                            0 <= k2 < k + 1 && 0 <= mm < classes@[k2].members.len() && accepts(
                                tk,
                                classes@[k2].key@,
                            ) && #[trigger] classes@[k2].members@[mm]@ == w;
                        assert(k2 < k);
                    }
                }
            }
        }
        k += 1;
    }
    let ghost before = words_of(list@);
    let r = sort_words(list);
    proof {
        words_of(r@).to_multiset_ensures();
        before.to_multiset_ensures();
        assert forall|w: Seq<char>| words_of(r@).contains(w) <==> before.contains(w) by {
            assert(words_of(r@).to_multiset().count(w) == before.to_multiset().count(w));
        }
        assert forall|w: Seq<char>| words_of(r@).contains(w) <==> in_family(classes@, tk, w) by {
            assert(before.contains(w) <==> in_family(classes@, tk, w));
        }
    }
    r
}

/// The family of one target class.
pub struct Family {
    pub class: usize,
    pub key: Vec<char>,
    pub words: Vec<Vec<char>>,
}

/// Whether the class at `k` is a target: its key has a length in
/// `MIN_LEN..=MAX_LEN`.
pub open spec fn is_target(classes: Seq<Class>, k: int) -> bool {
    MIN_LEN <= classes[k].key@.len() <= MAX_LEN
}

/// Families in order of key length, one for each target class, each exact.
pub open spec fn families_of(classes: Seq<Class>, fams: Seq<Family>) -> bool {
    &&& forall|i: int|
        0 <= i < fams.len() ==> {
            let f = #[trigger] fams[i];
            &&& f.class < classes.len()
            &&& is_target(classes, f.class as int)
            &&& f.key@ == classes[f.class as int].key@
            &&& is_family(classes, f.key@, words_of(f.words@))
        }
    &&& forall|i: int, j: int|
        0 <= i < j < fams.len() ==> (#[trigger] fams[i]).key@.len() <= (#[trigger] fams[j]).key@.len()
            && fams[i].class != fams[j].class
    &&& forall|k: int|
        0 <= k < classes.len() && is_target(classes, k) ==> exists|i: int|
            0 <= i < fams.len() && (#[trigger] fams[i]).class == k
}

/// The indices of the target classes, shorter keys first, each once.
pub fn target_classes(classes: &Vec<Class>) -> (r: Vec<usize>)
    ensures
        forall|i: int| 0 <= i < r.len() ==> r@[i] < classes.len() && is_target(classes@, #[trigger] r@[i] as int),
        forall|i: int, j: int|
            0 <= i < j < r.len() ==> classes@[#[trigger] r@[i] as int].key@.len() <= classes@[#[trigger] r@[j] as int].key@.len()
                && r@[i] != r@[j],
        forall|k: int| 0 <= k < classes.len() && is_target(classes@, k) ==> r@.contains(k as usize),
{
    let mut r: Vec<usize> = Vec::new();
    let mut len: usize = MIN_LEN;
    while len <= MAX_LEN
        invariant
            MIN_LEN <= len <= MAX_LEN + 1,
            forall|i: int| 0 <= i < r.len() ==> r@[i] < classes.len() && is_target(classes@, #[trigger] r@[i] as int)
                && classes@[r@[i] as int].key@.len() < len,
            forall|i: int, j: int|
                0 <= i < j < r.len() ==> classes@[#[trigger] r@[i] as int].key@.len() <= classes@[#[trigger] r@[j] as int].key@.len()
                    && r@[i] != r@[j],
            forall|k: int| 0 <= k < classes.len() && is_target(classes@, k) && classes@[k].key@.len() < len ==> r@.contains(k as usize),
        decreases MAX_LEN + 1 - len,
    {
        let ghost start = r.len();
        let mut k: usize = 0;
        while k < classes.len()
            invariant
                MIN_LEN <= len <= MAX_LEN,
                k <= classes.len(),
                start <= r.len(),
                forall|i: int| 0 <= i < r.len() ==> r@[i] < classes.len() && is_target(classes@, #[trigger] r@[i] as int)
                    && classes@[r@[i] as int].key@.len() <= len
                    && (i >= start ==> classes@[r@[i] as int].key@.len() == len && r@[i] < k)
                    && (i < start ==> classes@[r@[i] as int].key@.len() < len),
                forall|i: int, j: int|
                    0 <= i < j < r.len() ==> classes@[#[trigger] r@[i] as int].key@.len() <= classes@[#[trigger] r@[j] as int].key@.len()
                        && r@[i] != r@[j],
                forall|k2: int| 0 <= k2 < classes.len() && is_target(classes@, k2) && (classes@[k2].key@.len() < len
                    || (classes@[k2].key@.len() == len && k2 < k)) ==> r@.contains(k2 as usize),
            decreases classes.len() - k,
        {
            if classes[k].key.len() == len {
                let ghost old_r = r@;
                r.push(k);
                proof {
                    assert(r@[old_r.len() as int] == k);
                    assert forall|k2: int| 0 <= k2 < classes.len() && is_target(classes@, k2) && (classes@[k2].key@.len() < len
                        || (classes@[k2].key@.len() == len && k2 < k + 1)) implies r@.contains(k2 as usize) by {
                        if k2 != k {
                            let i = choose|i: int| 0 <= i < old_r.len() && old_r[i] == k2 as usize;
                            assert(r@[i] == k2 as usize);
                        }
                    }
                }
            }
            k += 1;
        }
        len += 1;
    }
    r
}

/// Computes the family of every target class, shorter keys first.
pub fn stage_2(classes: &Vec<Class>) -> (r: Vec<Family>)
    requires
        classes_wf(classes@),
    ensures
        families_of(classes@, r@),
{
    let mut fams: Vec<Family> = Vec::new();
    let mut len: usize = MIN_LEN;
    while len <= MAX_LEN
        invariant
            classes_wf(classes@),
            MIN_LEN <= len <= MAX_LEN + 1,
            forall|i: int|
                0 <= i < fams.len() ==> {
                    let f = #[trigger] fams@[i];
                    &&& f.class < classes.len()
                    &&& is_target(classes@, f.class as int)
                    &&& f.key@ == classes@[f.class as int].key@
                    &&& f.key@.len() < len
                    &&& is_family(classes@, f.key@, words_of(f.words@))
                },
            forall|i: int, j: int|
                0 <= i < j < fams.len() ==> (#[trigger] fams@[i]).key@.len() <= (
                #[trigger] fams@[j]).key@.len() && fams@[i].class != fams@[j].class,
            forall|k: int|
                0 <= k < classes.len() && is_target(classes@, k) && classes@[k].key@.len() < len
                    ==> exists|i: int| 0 <= i < fams.len() && (#[trigger] fams@[i]).class == k,
        decreases MAX_LEN + 1 - len,
    {
        let ghost start = fams.len();
        let mut k: usize = 0;
        while k < classes.len()
            invariant
                classes_wf(classes@),
                MIN_LEN <= len <= MAX_LEN,
                k <= classes.len(),
                start <= fams.len(),
                forall|i: int|
                    0 <= i < fams.len() ==> {
                        let f = #[trigger] fams@[i];
                        &&& f.class < classes.len()
                        &&& is_target(classes@, f.class as int)
                        &&& f.key@ == classes@[f.class as int].key@
                        &&& f.key@.len() <= len
                        &&& (i >= start ==> f.key@.len() == len && f.class < k)
                        &&& (i < start ==> f.key@.len() < len)
                        &&& is_family(classes@, f.key@, words_of(f.words@))
                    },
                forall|i: int, j: int|
                    0 <= i < j < fams.len() ==> (#[trigger] fams@[i]).key@.len() <= (
                    #[trigger] fams@[j]).key@.len() && fams@[i].class != fams@[j].class,
                forall|k2: int|
                    0 <= k2 < classes.len() && is_target(classes@, k2) && (classes@[k2].key@.len()
                        < len || (classes@[k2].key@.len() == len && k2 < k)) ==> exists|i: int|
                        0 <= i < fams.len() && (#[trigger] fams@[i]).class == k2,
            decreases classes.len() - k,
        {
            if classes[k].key.len() == len {
                let words = family_of(classes, k);
                let key = copy_word(&classes[k].key);
                let ghost old_fams = fams@;
                fams.push(Family { class: k, key, words });
                proof {
                    assert(fams@[old_fams.len() as int].class == k);
                    assert forall|k2: int|
                        0 <= k2 < classes.len() && is_target(classes@, k2) && (classes@[k2].key@.len()
                            < len || (classes@[k2].key@.len() == len && k2 < k + 1)) implies exists|i: int|
                            0 <= i < fams.len() && (#[trigger] fams@[i]).class == k2 by {
                        if k2 != k {
                            let i = choose|i: int| 0 <= i < old_fams.len() && (#[trigger] old_fams[i]).class == k2;
                            assert(fams@[i].class == k2);
                        }
                    }
                }
            }
            k += 1;
        }
        len += 1;
    }
    fams
}

} // verus!
