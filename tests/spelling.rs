use spellfix::{
    build, check_for_correct_spellings, rank, resolve, subsequences_from_n_deletions,
};
use std::collections::BTreeSet;

fn owned(words: &[&str]) -> Vec<String> {
    words.iter().map(|w| w.to_string()).collect()
}

fn as_set(words: &[String]) -> BTreeSet<String> {
    words.iter().cloned().collect()
}

#[test]
fn generator_identity_returns_the_string() {
    assert_eq!(subsequences_from_n_deletions("tube", 0), owned(&["tube"]));
    assert_eq!(subsequences_from_n_deletions("", 0), owned(&[""]));
}

#[test]
fn generator_one_deletion() {
    let got = subsequences_from_n_deletions("abc", 1);
    assert_eq!(got.len(), 3);
    assert_eq!(as_set(&got), as_set(&owned(&["bc", "ac", "ab"])));
}

#[test]
fn generator_two_deletions() {
    let got = subsequences_from_n_deletions("abcd", 2);
    assert_eq!(
        as_set(&got),
        as_set(&owned(&["cd", "bd", "bc", "ad", "ac", "ab"]))
    );
    assert_eq!(got.len(), 6);
}

#[test]
fn generator_removes_repeats() {
    let got = subsequences_from_n_deletions("aab", 1);
    assert_eq!(got.len(), 2);
    assert_eq!(as_set(&got), as_set(&owned(&["ab", "aa"])));
    let got = subsequences_from_n_deletions("aaaa", 2);
    assert_eq!(got, owned(&["aa"]));
}

#[test]
fn generator_length_invariant() {
    let s = "spelling";
    for n in 0..s.len() {
        let got = subsequences_from_n_deletions(s, n);
        assert!(!got.is_empty());
        for t in &got {
            assert_eq!(t.chars().count(), s.len() - n);
        }
        assert_eq!(got.len(), as_set(&got).len());
    }
}

#[test]
fn index_keeps_every_distance() {
    let idx = build(&owned(&["tub", "tube"]), 2);
    assert_eq!(idx.max_distance(), 2);
    let entry = idx.lookup("tub").unwrap();
    assert_eq!(entry.len(), 3);
    assert_eq!(entry[0], owned(&["tub"]));
    assert_eq!(entry[1], owned(&["tube"]));
    assert!(entry[2].is_empty());
    let entry = idx.lookup("tb").unwrap();
    assert_eq!(entry[1], owned(&["tub"]));
    assert_eq!(entry[2], owned(&["tube"]));
    assert!(idx.lookup("xyz").is_none());
}

#[test]
fn index_keeps_duplicate_words() {
    let idx = build(&owned(&["cat", "dog", "cat"]), 1);
    let entry = idx.lookup("cat").unwrap();
    assert_eq!(entry[0], owned(&["cat", "cat"]));
    let entry = idx.lookup("ca").unwrap();
    assert_eq!(entry[1], owned(&["cat", "cat"]));
}

#[test]
fn single_character_word_has_no_deletion_entries() {
    let idx = build(&owned(&["a"]), 2);
    let entry = idx.lookup("a").unwrap();
    assert_eq!(entry[0], owned(&["a"]));
    assert!(entry[1].is_empty());
    assert!(entry[2].is_empty());
    assert!(idx.lookup("").is_none());
}

#[test]
fn build_is_independent_of_order() {
    let a = build(&owned(&["tub", "tube", "cub"]), 2);
    let b = build(&owned(&["cub", "tube", "tub"]), 2);
    let mut probes = Vec::new();
    for w in ["tub", "tube", "cub"] {
        for n in 0..3 {
            probes.extend(subsequences_from_n_deletions(w, n));
        }
    }
    for p in &probes {
        let ea = a.lookup(p).unwrap();
        let eb = b.lookup(p).unwrap();
        for d in 0..3 {
            assert_eq!(as_set(&ea[d]), as_set(&eb[d]));
        }
    }
}

#[test]
fn max_vs_sum_scenario() {
    let idx = build(&owned(&["tub", "tube"]), 2);
    let got = resolve("tubr", &idx).unwrap();
    assert_eq!(got.distance, 1);
    assert_eq!(rank(&got.words), owned(&["tub", "tube"]));
}

#[test]
fn ranking_scenario() {
    assert_eq!(
        rank(&owned(&["tub", "tube", "cub"])),
        owned(&["cub", "tub", "tube"])
    );
    assert_eq!(
        rank(&owned(&["zebra", "b", "ab", "aa", "b"])),
        owned(&["b", "b", "aa", "ab", "zebra"])
    );
    assert!(rank(&Vec::new()).is_empty());
}

#[test]
fn no_match_scenario() {
    let idx = build(&owned(&["cat", "dog"]), 2);
    assert!(resolve("xyz", &idx).is_none());
}

#[test]
fn empty_query_finds_nothing() {
    let idx = build(&owned(&["cat", "dog"]), 2);
    assert!(resolve("", &idx).is_none());
}

#[test]
fn every_word_corrects_to_itself() {
    let dict = owned(&["tub", "tube", "cub", "a", "spelling", "aab"]);
    let idx = build(&dict, 2);
    for w in &dict {
        let got = resolve(w, &idx).unwrap();
        assert_eq!(got.distance, 0);
        assert!(got.words.contains(w));
    }
}

#[test]
fn resolve_returns_each_word_once() {
    let idx = build(&owned(&["tube", "tube", "tuba"]), 2);
    let got = resolve("tubx", &idx).unwrap();
    assert_eq!(got.distance, 1);
    assert_eq!(rank(&got.words), owned(&["tuba", "tube"]));
}

#[test]
fn resolve_transposition_costs_one() {
    let idx = build(&owned(&["spelling", "spilling"]), 2);
    let got = resolve("speling", &idx).unwrap();
    assert_eq!(got.distance, 1);
    assert_eq!(got.words, owned(&["spelling"]));
}

#[test]
fn resolve_distance_two() {
    let idx = build(&owned(&["house"]), 2);
    let got = resolve("hou", &idx).unwrap();
    assert_eq!(got.distance, 2);
    assert_eq!(got.words, owned(&["house"]));
    let idx = build(&owned(&["house"]), 1);
    assert!(resolve("hou", &idx).is_none());
}

#[test]
fn bucket_update_uses_larger_distance() {
    let idx = build(&owned(&["tub", "tube"]), 2);
    let mut results: Vec<Vec<String>> = vec![Vec::new(), Vec::new(), Vec::new()];
    check_for_correct_spellings(&mut results, &idx, "tub", 1);
    assert!(results[0].is_empty());
    assert_eq!(as_set(&results[1]), as_set(&owned(&["tub", "tube"])));
    assert!(results[2].is_empty());
    check_for_correct_spellings(&mut results, &idx, "tb", 0);
    assert_eq!(results[1].len(), 2);
    assert_eq!(as_set(&results[1]), as_set(&owned(&["tub", "tube"])));
    assert_eq!(results[2], owned(&["tube"]));
}

#[test]
fn ranking_ignores_input_order() {
    let a = rank(&owned(&["tube", "cub", "tub", "ab", "cub"]));
    let b = rank(&owned(&["cub", "ab", "tube", "cub", "tub"]));
    assert_eq!(a, b);
    assert_eq!(a, owned(&["ab", "cub", "cub", "tub", "tube"]));
}
