use search_engine::encode_decode::Field;
use search_engine::phrase_check::{field_positions, has_phrase, phrase_filter, DocPositions};
use search_engine::postings::{FieldMap, Postings};

fn positions(docs: &[(u32, Vec<u32>)]) -> DocPositions {
    let mut d = DocPositions::new();
    for (id, ps) in docs {
        d.push(*id, ps.clone());
    }
    d
}

fn terms(n: usize) -> Vec<String> {
    (0..n).map(|i| format!("t{}", i)).collect()
}

#[test]
fn phrase_found_at_consecutive_positions() {
    let all = vec![
        positions(&[(1, vec![3, 10]), (2, vec![0])]),
        positions(&[(1, vec![11]), (2, vec![5])]),
        positions(&[(1, vec![4, 12]), (2, vec![6])]),
    ];
    assert!(has_phrase(1, &terms(3), &all));
    assert!(!has_phrase(2, &terms(3), &all));
}

#[test]
fn single_term_phrase_needs_an_occurrence() {
    let all = vec![positions(&[(1, vec![2]), (2, vec![])])];
    assert!(has_phrase(1, &terms(1), &all));
    assert!(!has_phrase(2, &terms(1), &all));
}

#[test]
fn phrase_filter_keeps_order_and_matches() {
    let all = vec![
        positions(&[(1, vec![0]), (4, vec![7]), (6, vec![1])]),
        positions(&[(1, vec![1]), (4, vec![9]), (6, vec![2])]),
    ];
    assert_eq!(phrase_filter(vec![1, 4, 6], &terms(2), &all), vec![1, 6]);
    assert_eq!(phrase_filter(vec![], &terms(2), &all), Vec::<u32>::new());
}

#[test]
fn doc_positions_lookup() {
    let d = positions(&[(2, vec![1, 2]), (5, vec![]), (9, vec![4])]);
    assert_eq!(d.get(5), Some(&vec![]));
    assert_eq!(d.get(9), Some(&vec![4]));
    assert_eq!(d.get(3), None);
    assert_eq!(d.last_doc(), Some(9));
}

#[test]
fn field_positions_of_postings() {
    let mut p = Postings::new();
    let mut a = FieldMap::new();
    a.insert(Field::Body, vec![3, 8]);
    a.insert(Field::Title, vec![0]);
    p.add_last(2, a);
    let mut b = FieldMap::new();
    b.insert(Field::Code, vec![1]);
    p.add_last(7, b);
    let body = field_positions(&p, Field::Body);
    assert_eq!(body.get(2), Some(&vec![3, 8]));
    assert_eq!(body.get(7), Some(&vec![]));
    assert_eq!(body.get(3), None);
}

#[test]
fn lists_past_the_query_terms_are_not_read() {
    // the third list does not hold document 1; only two terms are checked
    let all = vec![
        positions(&[(1, vec![4])]),
        positions(&[(1, vec![5])]),
        positions(&[(2, vec![0])]),
    ];
    assert!(has_phrase(1, &terms(2), &all));
}

#[test]
fn position_past_32_bits_never_matches() {
    let all = vec![positions(&[(1, vec![u32::MAX])]), positions(&[(1, vec![0, 1])])];
    assert!(!has_phrase(1, &terms(2), &all));
}

#[test]
fn first_list_need_not_be_sorted() {
    let all = vec![positions(&[(1, vec![9, 2])]), positions(&[(1, vec![3])])];
    assert!(has_phrase(1, &terms(2), &all));
}
