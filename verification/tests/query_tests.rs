use search_engine::block_merge::{TermEntry, TermIndex};
use search_engine::query::{correct_query, parse_query, query_words};
use search_engine::term_map::TermMap;
use search_engine::three_gram_index::{three_gram_index, GramIndex};

fn dictionary(terms: &[(&str, u32)]) -> (GramIndex, TermIndex) {
    let mut grams: GramIndex = TermMap::new();
    let mut ti: TermIndex = TermMap::new();
    for (t, f) in terms {
        three_gram_index(t, &mut grams);
        ti.insert(t.to_string(), TermEntry { offset: 0, length: 0, doc_freq: *f });
    }
    (grams, ti)
}

fn q(words: &[&str]) -> Vec<String> {
    words.iter().map(|w| w.to_string()).collect()
}

#[test]
fn known_terms_stay_and_typos_are_corrected() {
    let (g, ti) = dictionary(&[("instance", 5000), ("instace", 1), ("bucket", 40)]);
    let out = correct_query(q(&["bucket", "instnace"]), &g, &ti);
    assert_eq!(out, q(&["bucket", "instance"]));
}

#[test]
fn hopeless_terms_are_dropped() {
    let (g, ti) = dictionary(&[("bucket", 40)]);
    let out = correct_query(q(&["zzzzzz", "bucket", "qqqq"]), &g, &ti);
    assert_eq!(out, q(&["bucket"]));
}

#[test]
fn empty_query_stays_empty() {
    let (g, ti) = dictionary(&[("bucket", 40)]);
    assert!(correct_query(Vec::new(), &g, &ti).is_empty());
}

#[test]
fn query_line_is_trimmed_lowercased_and_split() {
    assert_eq!(parse_query("  RunInstances  S3:GetObject\t"), Some(q(&["runinstances", "s3:getobject"])));
    assert_eq!(parse_query("ÉTÉ"), Some(q(&["été"])));
}

#[test]
fn stop_lines_end_the_session() {
    assert_eq!(parse_query("quit"), None);
    assert_eq!(parse_query("  EXIT \n"), None);
    assert_eq!(parse_query("   "), None);
    assert_eq!(parse_query(""), None);
    assert_eq!(parse_query("quit now"), Some(q(&["quit", "now"])));
}

#[test]
fn words_of_a_lowered_line() {
    assert_eq!(query_words("a  b\u{3000}c"), Some(q(&["a", "b", "c"])));
    assert_eq!(query_words("exit"), None);
    assert_eq!(query_words(""), None);
    assert_eq!(query_words("Exit"), Some(q(&["Exit"])));
}
