use vstd::prelude::*;
use crate::order::words_of;
use crate::snapshot::{contains_word, copy_word};

verus! {

/// Whether `p` occurs in `n` at position `i`.
pub open spec fn occurs_at(p: Seq<char>, n: Seq<char>, i: int) -> bool {
    0 <= i && i + p.len() <= n.len() && n.subrange(i, i + p.len()) == p
}

/// Whether `p` occurs somewhere in `n`.
pub open spec fn occurs_in(p: Seq<char>, n: Seq<char>) -> bool {
    exists|i: int| occurs_at(p, n, i)
}

/// The blacklisted words that the word list did not hold.
pub fn unused_blacklist(blacklist: &Vec<Vec<char>>, used: &Vec<Vec<char>>) -> (r: Vec<Vec<char>>)
    ensures
        forall|x: Seq<char>|
            words_of(r@).contains(x) <==> (words_of(blacklist@).contains(x) && !words_of(used@).contains(x)),
{
    let mut r: Vec<Vec<char>> = Vec::new();
    let mut i: usize = 0;
    while i < blacklist.len()
        invariant
            i <= blacklist.len(),
            forall|x: Seq<char>|
                words_of(r@).contains(x) <==> (words_of(blacklist@.subrange(0, i as int)).contains(x)
                    && !words_of(used@).contains(x)),
        decreases blacklist.len() - i,
    {
        let ghost old_r = r@;
        proof {
            assert(words_of(blacklist@.subrange(0, i + 1)) =~= words_of(blacklist@.subrange(0, i as int)).push(blacklist@[i as int]@));
        }
        let ghost pre = words_of(blacklist@.subrange(0, i as int));
        let ghost cur = blacklist@[i as int]@;
        proof {
            assert forall|x: Seq<char>| words_of(blacklist@.subrange(0, i + 1)).contains(x) <==> (pre.contains(x) || x == cur) by {
                let post = words_of(blacklist@.subrange(0, i + 1));
                if post.contains(x) {
                    let k = choose|k: int| 0 <= k < post.len() && post[k] == x;
                    if k < pre.len() {
                        assert(pre[k] == x);
                    }
                }
                if pre.contains(x) {
                    let k = choose|k: int| 0 <= k < pre.len() && pre[k] == x;
                    assert(post[k] == x);
                }
                if x == cur {
                    assert(post[i as int] == x);
                }
            }
        }
        if !contains_word(used, &blacklist[i]) {
            let b = copy_word(&blacklist[i]);
            r.push(b);
            proof {
                assert(words_of(r@) =~= words_of(old_r).push(b@));
                assert forall|x: Seq<char>| words_of(r@).contains(x) <==> (words_of(old_r).contains(x) || x == b@) by {
                    let post = words_of(r@);
                    if post.contains(x) {
                        let k = choose|k: int| 0 <= k < post.len() && post[k] == x;
                        if k < old_r.len() {
                            assert(words_of(old_r)[k] == x);
                        }
                    }
                    if words_of(old_r).contains(x) {
                        let k = choose|k: int| 0 <= k < old_r.len() && words_of(old_r)[k] == x;
                        assert(post[k] == x);
                    }
                    if x == b@ {
                        assert(post[old_r.len() as int] == x);
                    }
                }
            }
        }
        proof {
            assert forall|x: Seq<char>| words_of(r@).contains(x) <==> (words_of(blacklist@.subrange(0, i + 1)).contains(x)
                && !words_of(used@).contains(x)) by {
                assert(words_of(old_r).contains(x) <==> (pre.contains(x) && !words_of(used@).contains(x)));
            }
        }
        i += 1;
    }
    assert(blacklist@.subrange(0, blacklist.len() as int) =~= blacklist@);
    r
}

/// Whether `p` occurs in `n` at position `i`.
fn matches_at(p: &Vec<char>, n: &Vec<char>, i: usize) -> (r: bool)
    requires
        i + p.len() <= n.len(),
    ensures
        r == occurs_at(p@, n@, i as int),
{
    let mut j: usize = 0;
    while j < p.len()
        invariant
            i + p.len() <= n.len(),
            j <= p.len(),
            forall|k: int| 0 <= k < j ==> n@[i + k] == p@[k],
        decreases p.len() - j,
    {
        if n[i + j] != p[j] {
            assert(n@.subrange(i as int, i + p.len())[j as int] != p@[j as int]);
            return false;
        }
        j += 1;
    }
    assert(n@.subrange(i as int, i + p.len()) =~= p@);
    true
}

/// Whether `p` occurs somewhere in `n`.
pub fn is_substring(p: &Vec<char>, n: &Vec<char>) -> (r: bool)
    ensures
        r == occurs_in(p@, n@),
{
    if p.len() > n.len() {
        return false;
    }
    if p.len() == 0 {
        assert(n@.subrange(0, 0) =~= p@);
        assert(occurs_at(p@, n@, 0));
        return true;
    }
    let last = n.len() - p.len();
    let mut i: usize = 0;
    while i <= last
        invariant
            last == n.len() - p.len(),
            last < n.len(),
            i <= last + 1,
            forall|k: int| 0 <= k < i ==> !occurs_at(p@, n@, k),
        decreases last + 1 - i,
    {
        if matches_at(p, n, i) {
            return true;
        }
        i += 1;
    }
    false
}

/// The first blacklisted word that occurs in `n`, if any.
pub fn first_contained(blacklist: &Vec<Vec<char>>, n: &Vec<char>) -> (r: Option<usize>)
    ensures
        match r {
            Some(p) => p < blacklist.len() && occurs_in(blacklist@[p as int]@, n@) && forall|q: int|
                0 <= q < p ==> !occurs_in(#[trigger] blacklist@[q]@, n@),
            None => forall|q: int| 0 <= q < blacklist.len() ==> !occurs_in(#[trigger] blacklist@[q]@, n@),
        },
{
    let mut q: usize = 0;
    while q < blacklist.len()
        invariant
            q <= blacklist.len(),
            forall|q2: int| 0 <= q2 < q ==> !occurs_in(#[trigger] blacklist@[q2]@, n@),
        decreases blacklist.len() - q,
    {
        if is_substring(&blacklist[q], n) {
            return Some(q);
        }
        q += 1;
    }
    None
}

} // verus!
