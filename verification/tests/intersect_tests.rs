use search_engine::block_merge::{TermEntry, TermIndex};
use search_engine::intersect::{intersect_all, intersect_two, terms_by_doc_freq};
use search_engine::term_map::TermMap;

#[test]
fn intersect_two_keeps_common_ids_in_order() {
    assert_eq!(intersect_two(&vec![1, 3, 5, 7, 9], &vec![2, 3, 4, 7, 10]), vec![3, 7]);
    assert_eq!(intersect_two(&vec![1, 2, 3], &vec![]), Vec::<u32>::new());
    assert_eq!(intersect_two(&vec![], &vec![4]), Vec::<u32>::new());
    assert_eq!(intersect_two(&vec![4, 8], &vec![4, 8]), vec![4, 8]);
}

#[test]
fn intersect_two_is_commutative_on_samples() {
    let a = vec![1, 4, 6, 9, 12, 30];
    let b = vec![2, 4, 9, 10, 30, 31];
    assert_eq!(intersect_two(&a, &b), intersect_two(&b, &a));
}

#[test]
fn intersect_all_of_several_lists() {
    let lists = vec![vec![1, 2, 3, 4, 5], vec![2, 4, 5, 8], vec![0, 4, 5]];
    assert_eq!(intersect_all(lists), vec![4, 5]);
}

#[test]
fn intersect_all_of_nothing_is_empty() {
    assert_eq!(intersect_all(Vec::new()), Vec::<u32>::new());
}

#[test]
fn intersect_all_of_one_list_is_that_list() {
    assert_eq!(intersect_all(vec![vec![3, 6, 9]]), vec![3, 6, 9]);
}

fn entry(offset: u64, doc_freq: u32) -> TermEntry {
    TermEntry { offset, length: 1, doc_freq }
}

#[test]
fn query_terms_ordered_by_doc_freq_stably() {
    let mut ti: TermIndex = TermMap::new();
    ti.insert("common".to_string(), entry(0, 500));
    ti.insert("rare".to_string(), entry(1, 2));
    ti.insert("mid".to_string(), entry(2, 40));
    ti.insert("alsomid".to_string(), entry(3, 40));
    let query = vec![
        "common".to_string(),
        "missing".to_string(),
        "mid".to_string(),
        "rare".to_string(),
        "alsomid".to_string(),
    ];
    let ordered = terms_by_doc_freq(&query, &ti);
    let names: Vec<&str> = ordered.iter().map(|(t, _)| t.as_str()).collect();
    assert_eq!(names, vec!["rare", "mid", "alsomid", "common"]);
    assert_eq!(ordered[0].1, entry(1, 2));
    assert_eq!(ordered[3].1, entry(0, 500));
}

#[test]
fn query_terms_none_found() {
    let ti: TermIndex = TermMap::new();
    assert!(terms_by_doc_freq(&vec!["a".to_string()], &ti).is_empty());
}
