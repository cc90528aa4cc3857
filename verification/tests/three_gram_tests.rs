use search_engine::term_map::TermMap;
use search_engine::three_gram_index::{three_gram_index, GramIndex};

#[test]
fn ascii_term_produces_expected_trigrams() {
    let mut idx: GramIndex = TermMap::new();
    three_gram_index("cat", &mut idx);
    assert!(idx.contains_key("$ca"));
    assert!(idx.contains_key("cat"));
    assert!(idx.contains_key("at$"));
    assert_eq!(idx.len(), 3);
}

#[test]
fn unicode_term_does_not_panic() {
    let mut idx: GramIndex = TermMap::new();
    three_gram_index("signiﬁcant", &mut idx);
    assert!(idx.len() > 0);
}

#[test]
fn short_term_handled_gracefully() {
    let mut idx: GramIndex = TermMap::new();
    three_gram_index("a", &mut idx);
    assert_eq!(idx.len(), 1);
    assert!(idx.contains_key("$a$"));
}

#[test]
fn empty_term_handled_gracefully() {
    let mut idx: GramIndex = TermMap::new();
    three_gram_index("", &mut idx);
    assert_eq!(idx.len(), 0);
}

#[test]
fn dedupes_same_term_added_twice() {
    let mut idx: GramIndex = TermMap::new();
    three_gram_index("cat", &mut idx);
    three_gram_index("cat", &mut idx);
    for i in 0..idx.len() {
        let terms = idx.value_at(i);
        assert_eq!(terms.iter().filter(|t| *t == "cat").count(), 1);
    }
}

#[test]
fn every_trigram_lists_the_term_in_insertion_order() {
    let mut idx: GramIndex = TermMap::new();
    three_gram_index("cat", &mut idx);
    three_gram_index("scat", &mut idx);
    assert_eq!(idx.get("cat"), Some(&vec!["cat".to_string(), "scat".to_string()]));
    assert_eq!(idx.get("$ca"), Some(&vec!["cat".to_string()]));
    assert_eq!(idx.get("$sc"), Some(&vec!["scat".to_string()]));
    // trigrams are kept in sorted order
    for i in 1..idx.len() {
        assert!(idx.key_at(i - 1) < idx.key_at(i));
    }
}
