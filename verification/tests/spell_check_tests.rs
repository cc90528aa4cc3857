use search_engine::block_merge::{TermEntry, TermIndex};
use search_engine::spell_check::{edit_distance, jaccard_counts, spell_corrector};
use search_engine::term_map::TermMap;
use search_engine::three_gram_index::{three_gram_set, GramIndex};

fn dummy_entry(freq: u32) -> TermEntry {
    TermEntry { offset: 0, length: 0, doc_freq: freq }
}

/// Each trigram of each term lists the term, in the order the terms come.
fn gram_index_of(terms: &[&str]) -> GramIndex {
    let mut gram_index: GramIndex = TermMap::new();
    for t in terms {
        for w in three_gram_set(t) {
            let mut list = match gram_index.get(&w) {
                Some(v) => v.clone(),
                None => Vec::new(),
            };
            list.push(t.to_string());
            gram_index.insert(w, list);
        }
    }
    gram_index
}

/// Trigram Jaccard similarity as a fraction, 0 where both sets are empty.
fn jaccard(a: &str, b: &str) -> f64 {
    let (common, only1, only2) = jaccard_counts(a, b);
    let union = common + only1 + only2;
    if union == 0 {
        return 0.0;
    }
    common as f64 / union as f64
}

#[test]
fn frequency_breaks_ties_in_edit_distance() {
    let mut term_index: TermIndex = TermMap::new();
    term_index.insert("instance".to_string(), dummy_entry(5000));
    term_index.insert("instace".to_string(), dummy_entry(1));
    let gram_index = gram_index_of(&["instance", "instace"]);

    let suggestions = spell_corrector("instnace", &gram_index, &term_index);
    assert!(!suggestions.is_empty(), "expected at least one suggestion");
    assert_eq!(
        suggestions[0], "instance",
        "expected 'instance' to outrank 'instace' on frequency, got: {:?}",
        suggestions
    );
}

#[test]
fn rare_candidates_below_threshold_are_dropped() {
    let mut term_index: TermIndex = TermMap::new();
    term_index.insert("instace".to_string(), dummy_entry(1));
    let gram_index = gram_index_of(&["instace"]);

    let suggestions = spell_corrector("instnace", &gram_index, &term_index);
    assert!(
        suggestions.is_empty(),
        "expected no suggestions when only candidate is below freq threshold, got: {:?}",
        suggestions
    );
}

#[test]
fn higher_edit_distance_loses_even_if_more_frequent() {
    let mut term_index: TermIndex = TermMap::new();
    term_index.insert("instance".to_string(), dummy_entry(10));
    term_index.insert("invoice".to_string(), dummy_entry(5000));
    let gram_index = gram_index_of(&["instance", "invoice"]);

    let suggestions = spell_corrector("instnace", &gram_index, &term_index);
    assert_eq!(suggestions.first().map(String::as_str), Some("instance"));
}

#[test]
fn trigram_set_handles_unicode_without_panic() {
    let grams = three_gram_set("numberofmessagesdeleted\u{00B9}");
    assert!(!grams.is_empty());
}

#[test]
fn trigram_set_handles_empty() {
    assert_eq!(three_gram_set(""), Vec::<String>::new());
}

#[test]
fn jaccard_identical_is_one() {
    assert_eq!(jaccard("cat", "cat"), 1.0);
}

#[test]
fn jaccard_disjoint_is_zero() {
    assert_eq!(jaccard("cat", "xyz"), 0.0);
}

#[test]
fn edit_distance_identical_is_zero() {
    assert_eq!(edit_distance("kubernetes", "kubernetes"), 0);
}

#[test]
fn edit_distance_one_substitution() {
    assert_eq!(edit_distance("kubernetes", "kubernetis"), 1);
}

#[test]
fn edit_distance_known_values() {
    assert_eq!(edit_distance("", ""), 0);
    assert_eq!(edit_distance("", "abc"), 3);
    assert_eq!(edit_distance("abc", ""), 3);
    assert_eq!(edit_distance("kitten", "sitting"), 3);
    assert_eq!(edit_distance("instnace", "instance"), 2);
    assert_eq!(edit_distance("instnace", "instace"), 1);
    assert_eq!(edit_distance("héllo", "hello"), 1);
}

#[test]
fn edit_distance_is_symmetric_on_samples() {
    let words = ["flaw", "lawn", "instance", "invoice", "", "a"];
    for a in words {
        for b in words {
            assert_eq!(edit_distance(a, b), edit_distance(b, a));
        }
    }
}

#[test]
fn trigram_set_is_distinct_in_first_occurrence_order() {
    assert_eq!(three_gram_set("cat"), vec!["$ca", "cat", "at$"]);
    assert_eq!(three_gram_set("a"), vec!["$a$"]);
    // "aaaa" pads to "$aaaa$": windows $aa, aaa, aaa, aa$
    assert_eq!(three_gram_set("aaaa"), vec!["$aa", "aaa", "aa$"]);
}

#[test]
fn jaccard_counts_known_values() {
    // cat: $ca cat at$ ; cot: $co cot ot$ -> nothing shared
    assert_eq!(jaccard_counts("cat", "cot"), (0, 3, 3));
    // cats: $ca cat ats ts$ ; cat: $ca cat at$
    assert_eq!(jaccard_counts("cats", "cat"), (2, 2, 1));
    assert_eq!(jaccard_counts("", ""), (0, 0, 0));
}

#[test]
fn far_candidates_fail_the_edit_distance_limit() {
    // "cat" allows distance below 1: only an exact match would pass, and
    // exact matches are not misspellings to correct.
    let mut term_index: TermIndex = TermMap::new();
    term_index.insert("cart".to_string(), dummy_entry(100));
    let gram_index = gram_index_of(&["cart"]);
    assert!(spell_corrector("cat", &gram_index, &term_index).is_empty());
}

#[test]
fn suggestions_are_sorted_by_distance_then_frequency() {
    let mut term_index: TermIndex = TermMap::new();
    term_index.insert("permission".to_string(), dummy_entry(1734));
    term_index.insert("permissions".to_string(), dummy_entry(900));
    term_index.insert("permision".to_string(), dummy_entry(4));
    let gram_index = gram_index_of(&["permission", "permissions", "permision"]);
    let s = spell_corrector("permssion", &gram_index, &term_index);
    assert_eq!(s[0], "permission");
    for w in s.windows(2) {
        let d0 = edit_distance("permssion", &w[0]);
        let d1 = edit_distance("permssion", &w[1]);
        assert!(d0 <= d1);
    }
}
