use vstd::prelude::*;
use crate::engine::{families_of, stage_2, Family};
use crate::order::words_of;
use crate::snapshot::{contains_word, group_words, grouped, RawWord, Stage1};
use crate::tables::{assemble, tables_of, Tables};
use crate::text::{
    blank, blank_form, chars_of, comment_line, trim, trim_of, is_comment, is_rejected, normal_form, normalize, rejected,
};

verus! {

/// The character sequences that a sequence of strings holds.
pub open spec fn lines_of(v: Seq<String>) -> Seq<Seq<char>> {
    Seq::new(v.len(), |i: int| v[i]@)
}

/// Whether a line read from the word list is described by `e`.
pub open spec fn entry_matches(e: RawWord, line: Seq<char>) -> bool {
    &&& e.full@ == line
    &&& e.rejected == rejected(line)
    &&& !e.rejected ==> e.normalized@ == normal_form(line) && e.blanked@ == blank_form(line)
}

/// The normalized blacklist: every line that is not a comment, normalized.
pub open spec fn blacklist_of(lines: Seq<Seq<char>>) -> Seq<Seq<char>>
    decreases lines.len(),
{
    if lines.len() == 0 {
        Seq::empty()
    } else {
        let rest = blacklist_of(lines.drop_last());
        if comment_line(lines.last()) {
            rest
        } else {
            rest.push(normal_form(lines.last()))
        }
    }
}

/// Whether `s` is what grouping the lines of a word list gives.
pub open spec fn lines_grouped(lines: Seq<Seq<char>>, blacklist: Seq<Seq<char>>, s: Stage1) -> bool {
    exists|es: Seq<RawWord>|
        es.len() == lines.len() && (forall|i: int| 0 <= i < es.len() ==> entry_matches(#[trigger] es[i], lines[i]))
            && grouped(es, blacklist, s)
}

/// Reads one line of the word list.
pub fn read_entry(line: &String) -> (e: RawWord)
    ensures
        entry_matches(e, line@),
{
    if is_rejected(line.as_str()) {
        return RawWord { full: line.clone(), rejected: true, normalized: Vec::new(), blanked: String::new() };
    }
    let normalized = normalize(line.as_str());
    let blanked = blank(line.as_str());
    RawWord { full: line.clone(), rejected: false, normalized, blanked }
}

/// Normalizes the lines of the blacklist that are not comments.
pub fn read_blacklist(lines: &Vec<String>) -> (b: Vec<Vec<char>>)
    ensures
        words_of(b@) == blacklist_of(lines_of(lines@)),
{
    let mut out: Vec<Vec<char>> = Vec::new();
    let mut i: usize = 0;
    assert(words_of(out@) =~= blacklist_of(lines_of(lines@).subrange(0, 0)));
    while i < lines.len()
        invariant
            i <= lines.len(),
            words_of(out@) == blacklist_of(lines_of(lines@).subrange(0, i as int)),
        decreases lines.len() - i,
    {
        let ghost pre = lines_of(lines@).subrange(0, i as int);
        let ghost next = lines_of(lines@).subrange(0, i + 1);
        assert(next.drop_last() =~= pre);
        assert(next.last() == lines@[i as int]@);
        if !is_comment(lines[i].as_str()) {
            let n = normalize(lines[i].as_str());
            let ghost old_out = out@;
            out.push(n);
            assert(words_of(out@) =~= words_of(old_out).push(n@));
        }
        i += 1;
    }
    assert(lines_of(lines@).subrange(0, lines.len() as int) =~= lines_of(lines@));
    out
}

/// The lines with every repeat of an earlier line left out.
pub open spec fn distinct_lines(lines: Seq<Seq<char>>) -> Seq<Seq<char>>
    decreases lines.len(),
{
    if lines.len() == 0 {
        Seq::empty()
    } else {
        let r = distinct_lines(lines.drop_last());
        if r.contains(lines.last()) {
            r
        } else {
            r.push(lines.last())
        }
    }
}

/// Each line without leading and trailing white space.
pub open spec fn trimmed_lines(lines: Seq<Seq<char>>) -> Seq<Seq<char>> {
    Seq::new(lines.len(), |i: int| trim_of(lines[i]))
}

/// Trims each line.
pub fn trim_lines(words: &Vec<String>) -> (r: Vec<String>)
    ensures
        lines_of(r@) == trimmed_lines(lines_of(words@)),
{
    let mut out: Vec<String> = Vec::new();
    let mut i: usize = 0;
    while i < words.len()
        invariant
            i <= words.len(),
            out.len() == i,
            forall|j: int| 0 <= j < i ==> (#[trigger] out@[j])@ == trim_of(words@[j]@),
        decreases words.len() - i,
    {
        out.push(trim(words[i].as_str()));
        i += 1;
    }
    assert(lines_of(out@) =~= trimmed_lines(lines_of(words@)));
    out
}

/// Leaves out every line that repeats an earlier one.
pub fn distinct(words: &Vec<String>) -> (r: Vec<String>)
    ensures
        lines_of(r@) == distinct_lines(lines_of(words@)),
{
    let mut out: Vec<String> = Vec::new();
    let mut seen: Vec<Vec<char>> = Vec::new();
    let mut i: usize = 0;
    assert(lines_of(words@).subrange(0, 0) =~= Seq::<Seq<char>>::empty());
    assert(lines_of(out@) =~= Seq::<Seq<char>>::empty());
    assert(words_of(seen@) =~= Seq::<Seq<char>>::empty());
    while i < words.len()
        invariant
            i <= words.len(),
            lines_of(out@) == distinct_lines(lines_of(words@).subrange(0, i as int)),
            words_of(seen@) == lines_of(out@),
        decreases words.len() - i,
    {
        let ghost pre = lines_of(words@).subrange(0, i as int);
        let ghost sub = lines_of(words@).subrange(0, i + 1);
        proof {
            assert(sub.drop_last() =~= pre);
            assert(sub.last() == words@[i as int]@);
        }
        let cs = chars_of(words[i].as_str());
        if !contains_word(&seen, &cs) {
            let ghost old_out = out@;
            let ghost old_seen = seen@;
            out.push(words[i].clone());
            seen.push(cs);
            proof {
                assert(lines_of(out@) =~= lines_of(old_out).push(words@[i as int]@));
                assert(words_of(seen@) =~= words_of(old_seen).push(cs@));
            }
        }
        i += 1;
    }
    assert(lines_of(words@).subrange(0, words.len() as int) =~= lines_of(words@));
    out
}

/// Reads and groups the word list against the blacklist; lines are trimmed,
/// and repeated lines count once.
pub fn stage_1(words: &Vec<String>, blacklist_lines: &Vec<String>) -> (s: Stage1)
    ensures
        lines_grouped(distinct_lines(trimmed_lines(lines_of(words@))), blacklist_of(lines_of(blacklist_lines@)), s),
{
    let blacklist = read_blacklist(blacklist_lines);
    let trimmed = trim_lines(words);
    let words = &distinct(&trimmed);
    let mut entries: Vec<RawWord> = Vec::new();
    let mut i: usize = 0;
    while i < words.len()
        invariant
            i <= words.len(),
            entries.len() == i,
            forall|j: int| 0 <= j < i ==> entry_matches(#[trigger] entries@[j], words@[j]@),
        decreases words.len() - i,
    {
        let e = read_entry(&words[i]);
        entries.push(e);
        i += 1;
    }
    let s = group_words(&entries, &blacklist);
    proof {
        let es = entries@;
        assert(forall|j: int| 0 <= j < es.len() ==> entry_matches(#[trigger] es[j], lines_of(words@)[j]));
    }
    s
}

/// Whether `t` is what the whole build gives for the word list `lines` and
/// the normalized blacklist.
pub open spec fn built(lines: Seq<Seq<char>>, blacklist: Seq<Seq<char>>, t: Tables) -> bool {
    exists|s: Stage1, fams: Seq<Family>|
        lines_grouped(lines, blacklist, s) && families_of(s.classes@, fams) && tables_of(
            s.forms@,
            fams,
            t,
        )
}

/// Groups the word list, computes every family and builds the tables to store.
pub fn build_tables(words: &Vec<String>, blacklist_lines: &Vec<String>) -> (t: Tables)
    ensures
        built(distinct_lines(trimmed_lines(lines_of(words@))), blacklist_of(lines_of(blacklist_lines@)), t),
{
    let s1 = stage_1(words, blacklist_lines);
    proof {
        let ls = distinct_lines(trimmed_lines(lines_of(words@)));
        let es = choose|es: Seq<RawWord>|
            es.len() == ls.len() && (forall|i: int| 0 <= i < es.len() ==> entry_matches(#[trigger] es[i], ls[i]))
                && grouped(es, blacklist_of(lines_of(blacklist_lines@)), s1);
    }
    let fams = stage_2(&s1.classes);
    assemble(&s1.forms, &fams)
}

} // verus!
