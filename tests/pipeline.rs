use gen_words::canon::{canonicalize, count_chars, is_subseq};
use gen_words::engine::{family_of, stage_2, MAX_LEN, MIN_LEN};
use gen_words::order::{lex_less, sort_words, word_less};
use gen_words::pipeline::{build_tables, read_blacklist, stage_1};
use gen_words::snapshot::{contains_word, group_words, RawWord};
use gen_words::tables::Tables;
use gen_words::text::{blank, is_comment, is_rejected, normalize};

fn w(s: &str) -> Vec<char> {
    s.chars().collect()
}

fn lines(words: &[&str]) -> Vec<String> {
    words.iter().map(|s| s.to_string()).collect()
}

fn key_str(k: &Vec<char>) -> String {
    k.iter().collect()
}

fn table_strings(t: &Tables) -> Vec<String> {
    let mut out = Vec::new();
    for r in &t.form_ids {
        out.push(format!("form_id {} {}", r.id, r.norm));
    }
    for r in &t.forms {
        out.push(format!("form {} {} {} {}", r.oid, r.id, r.blank, r.full));
    }
    for r in &t.set_ids {
        out.push(format!("set_id {} {}", r.id, r.key));
    }
    for r in &t.sets {
        out.push(format!("set {} {} {}", r.oid, r.id, r.norm));
    }
    for r in &t.set_keys {
        out.push(format!("set_key {} {} {}", r.oid, r.len, r.key));
    }
    out
}

#[test]
fn canonical_key_sorts_characters() {
    assert_eq!(canonicalize(&w("silent")), w("eilnst"));
    assert_eq!(canonicalize(&w("")), w(""));
    assert_eq!(canonicalize(&w("banana")), w("aaabnn"));
}

#[test]
fn anagrams_share_a_key() {
    assert_eq!(canonicalize(&w("listen")), canonicalize(&w("silent")));
    assert_eq!(canonicalize(&w("act")), canonicalize(&w("tac")));
    assert_ne!(canonicalize(&w("listens")), canonicalize(&w("silent")));
    assert_ne!(canonicalize(&w("aab")), canonicalize(&w("abb")));
}

#[test]
fn anagrams_after_normalization_share_a_key() {
    let a = normalize("Dormitory!");
    let b = normalize("dirty room");
    assert_eq!(canonicalize(&a), canonicalize(&b));
}

#[test]
fn canonicalization_is_idempotent() {
    for s in ["silent", "zebra", "aaa", "", "cab"] {
        let k = canonicalize(&w(s));
        assert_eq!(canonicalize(&k), k);
    }
}

#[test]
fn counts_characters() {
    let c = count_chars(&w("banana"));
    assert_eq!(c.get('a'), 3);
    assert_eq!(c.get('n'), 2);
    assert_eq!(c.get('b'), 1);
    assert_eq!(c.get('z'), 0);
}

#[test]
fn sub_multiset_test() {
    let silent = count_chars(&w("silent"));
    assert!(is_subseq(&count_chars(&w("lens")), &silent));
    assert!(is_subseq(&count_chars(&w("tin")), &silent));
    assert!(!is_subseq(&count_chars(&w("sells")), &silent));
    assert!(is_subseq(&count_chars(&w("")), &silent));
}

#[test]
fn orders_words_by_length_then_letters() {
    assert!(lex_less(&w("abc"), &w("abd")));
    assert!(lex_less(&w("ab"), &w("abc")));
    assert!(!lex_less(&w("abc"), &w("abc")));
    assert!(word_less(&w("zz"), &w("aaa")));
    assert!(word_less(&w("abc"), &w("abd")));
    let sorted = sort_words(vec![w("tins"), w("lens"), w("tin"), w("silent"), w("let")]);
    assert_eq!(sorted, vec![w("let"), w("tin"), w("lens"), w("tins"), w("silent")]);
}

#[test]
fn normalizes_words() {
    assert_eq!(normalize("Hello, World!"), w("helloworld"));
    assert_eq!(normalize("Rose!"), w("rose"));
    assert_eq!(normalize("O'Brien"), w("obrien"));
}

#[test]
fn rejects_digits_and_space() {
    assert_eq!(is_rejected("abc1"), true);
    assert_eq!(is_rejected("two words"), true);
    assert_eq!(is_rejected("word"), false);
}

#[test]
fn blanks_word_characters() {
    assert_eq!(blank("Rose!"), "____!");
    assert_eq!(blank("o'clock"), "_'_____");
}

#[test]
fn recognizes_comment_lines() {
    assert_eq!(is_comment("# note"), true);
    assert_eq!(is_comment("   #x"), true);
    assert_eq!(is_comment("word # not"), false);
}

#[test]
fn finds_words_in_lists() {
    assert_eq!(normalize("Héllo"), vec!['h', 'é', 'l', 'l', 'o']);
    assert!(contains_word(&vec![w("ab"), w("cd")], &w("cd")));
    assert!(!contains_word(&vec![w("ab")], &w("a")));
}

#[test]
fn blacklist_skips_comments_and_normalizes() {
    let bl = read_blacklist(&lines(&["# comment", "Rose", "  bad-word "]));
    assert_eq!(bl, vec![w("rose"), w("badword")]);
}

#[test]
fn silent_family_holds_lens_and_tin() {
    let s1 = stage_1(&lines(&["silent", "listen", "lens", "tin", "sells", "it"]), &vec![]);
    let target = s1.classes.iter().position(|c| c.key == w("eilnst")).unwrap();
    let fam = family_of(&s1.classes, target);
    assert!(fam.contains(&w("lens")));
    assert!(fam.contains(&w("tin")));
    assert!(!fam.contains(&w("sells")));
    assert!(!fam.contains(&w("it")));
    assert_eq!(fam, vec![w("tin"), w("lens"), w("listen"), w("silent")]);
}

#[test]
fn lens_family_does_not_hold_silent() {
    let s1 = stage_1(&lines(&["silent", "lens", "sel"]), &vec![]);
    let target = s1.classes.iter().position(|c| c.key == w("elns")).unwrap();
    let fam = family_of(&s1.classes, target);
    assert_eq!(fam, vec![w("sel"), w("lens")]);
}

#[test]
fn long_targets_limit_the_length_gap() {
    let s1 = stage_1(&lines(&["abcdefghij", "abc", "abcde", "abcdef"]), &vec![]);
    let target = s1.classes.iter().position(|c| c.key == w("abcdefghij")).unwrap();
    let fam = family_of(&s1.classes, target);
    assert_eq!(fam, vec![w("abcde"), w("abcdef"), w("abcdefghij")]);
}

#[test]
fn blacklisted_spellings_are_never_stored() {
    let words = lines(&["Rose!", "rose", "eros", "sore", "roses"]);
    let t = build_tables(&words, &lines(&["rose"]));
    for r in &t.form_ids {
        assert_ne!(r.norm, "rose");
    }
    for r in &t.forms {
        assert_ne!(t.form_ids[r.id].norm, "rose");
        assert!(r.full != "Rose!" && r.full != "rose");
    }
    for r in &t.sets {
        assert_ne!(r.norm, "rose");
    }
    assert!(t.form_ids.iter().any(|r| r.norm == "eros"));
}

#[test]
fn grouping_records_used_blacklist() {
    let entries = vec![
        RawWord { full: "Rose!".to_string(), rejected: false, normalized: w("rose"), blanked: "____!".to_string() },
        RawWord { full: "eros".to_string(), rejected: false, normalized: w("eros"), blanked: "____".to_string() },
        RawWord { full: "r2d2".to_string(), rejected: true, normalized: vec![], blanked: String::new() },
    ];
    let s1 = group_words(&entries, &vec![w("rose")]);
    assert_eq!(s1.used_blacklist, vec![w("rose")]);
    assert_eq!(s1.forms.len(), 1);
    assert_eq!(s1.forms[0].norm, w("eros"));
    assert_eq!(s1.classes.len(), 1);
    assert_eq!(s1.classes[0].key, w("eors"));
}

#[test]
fn homographs_share_one_word_id() {
    let t = build_tables(&lines(&["Mark", "mark", "arm"]), &vec![]);
    assert_eq!(t.form_ids.len(), 2);
    let id = t.form_ids.iter().find(|r| r.norm == "mark").unwrap().id;
    let fulls: Vec<&str> = t.forms.iter().filter(|r| r.id == id).map(|r| r.full.as_str()).collect();
    assert_eq!(fulls, vec!["Mark", "mark"]);
    let blanks: Vec<&str> = t.forms.iter().filter(|r| r.id == id).map(|r| r.blank.as_str()).collect();
    assert_eq!(blanks, vec!["____", "____"]);
}

#[test]
fn length_index_keys_have_their_length() {
    let t = build_tables(&lines(&["act", "cat", "scat", "cats", "actors", "costar", "abcdefghijk"]), &vec![]);
    assert!(!t.set_keys.is_empty());
    for r in &t.set_keys {
        assert_eq!(r.key.chars().count(), r.len);
        assert!(MIN_LEN <= r.len && r.len <= MAX_LEN);
    }
    assert!(!t.set_keys.iter().any(|r| r.key == "abcdefghijk" || r.key == "act"));
}

#[test]
fn members_are_within_their_target() {
    let t = build_tables(&lines(&["silent", "listen", "lens", "tin", "inlet", "tile", "stile"]), &vec![]);
    assert!(!t.sets.is_empty());
    for r in &t.sets {
        let key = &t.set_ids[r.id].key;
        let target = count_chars(&w(key));
        assert!(is_subseq(&count_chars(&w(&r.norm)), &target));
    }
}

#[test]
fn building_twice_gives_the_same_tables() {
    let words = lines(&["act", "cat", "tac", "scat", "cats"]);
    let a = build_tables(&words, &vec![]);
    let b = build_tables(&words, &vec![]);
    assert_eq!(table_strings(&a), table_strings(&b));
    assert_eq!(a.set_ids.len(), 1);
    assert_eq!(a.set_ids[0].key, "acst");
    let members: Vec<&str> = a.sets.iter().map(|r| r.norm.as_str()).collect();
    assert_eq!(members, vec!["act", "cat", "tac", "cats", "scat"]);
    assert_eq!(a.form_ids.len(), 5);
}

#[test]
fn isolated_short_word_is_pruned() {
    let t = build_tables(&lines(&["ox", "act", "cats"]), &vec![]);
    assert!(!t.form_ids.iter().any(|r| r.norm == "ox"));
    assert!(!t.forms.iter().any(|r| r.full == "ox"));
    assert!(t.form_ids.iter().any(|r| r.norm == "act"));
}

#[test]
fn families_are_listed_by_key_length() {
    let s1 = stage_1(&lines(&["abcdef", "abcd", "abcde", "bcda"]), &vec![]);
    let fams = stage_2(&s1.classes);
    let lens: Vec<usize> = fams.iter().map(|f| f.key.len()).collect();
    assert_eq!(lens, vec![4, 5, 6]);
    assert_eq!(fams[0].words, vec![w("abcd"), w("bcda")]);
    assert_eq!(key_str(&fams[2].key), "abcdef");
}

#[test]
fn blacklisted_corpus_gives_exact_tables() {
    let t = build_tables(&lines(&["Rose!", "rose", "sore"]), &lines(&["rose"]));
    assert_eq!(
        table_strings(&t),
        vec![
            "form_id 0 sore".to_string(),
            "form 0 0 ____ sore".to_string(),
            "set_id 0 eors".to_string(),
            "set 0 0 sore".to_string(),
            "set_key 0 4 eors".to_string(),
        ]
    );
}

#[test]
fn family_members_are_stored_in_family_order() {
    let t = build_tables(&lines(&["scat", "cats", "zoo"]), &vec![]);
    assert!(!t.form_ids.iter().any(|r| r.norm == "zoo"));
    assert_eq!(t.set_ids.len(), 1);
    let members: Vec<&str> = t.sets.iter().map(|r| r.norm.as_str()).collect();
    assert_eq!(members, vec!["cats", "scat"]);
    assert_eq!(t.forms.len(), 2);
}

#[test]
fn repeated_lines_count_once() {
    let s1 = stage_1(&lines(&["cats", "Cats", "cats", "scat"]), &vec![]);
    assert_eq!(s1.forms.len(), 2);
    let fulls: Vec<&str> = s1.forms[0].forms.iter().map(|f| f.full.as_str()).collect();
    assert_eq!(fulls, vec!["cats", "Cats"]);
    let t = build_tables(&lines(&["cats", "cats", "scat"]), &vec![]);
    assert_eq!(t.forms.len(), 2);
}

#[test]
fn anagram_lines_group_into_classes() {
    let s1 = stage_1(&lines(&["Listen", "silent", "enlist", "tinsel!", "listens"]), &vec![]);
    assert_eq!(s1.classes.len(), 2);
    assert_eq!(s1.classes[0].key, w("eilnst"));
    assert_eq!(s1.classes[0].members, vec![w("listen"), w("silent"), w("enlist"), w("tinsel")]);
    assert_eq!(s1.classes[1].members, vec![w("listens")]);
}

#[test]
fn lines_are_trimmed_before_grouping() {
    let s1 = stage_1(&lines(&["  cats ", "cats", "scat\t"]), &vec![]);
    assert_eq!(s1.forms.len(), 2);
    assert_eq!(s1.forms[0].forms.len(), 1);
    assert_eq!(s1.forms[0].forms[0].full, "cats");
    assert_eq!(s1.forms[1].forms[0].full, "scat");
}
