use search_engine::block_merge::merge_index_map;
use search_engine::encode_decode::{deserialize_postings, serialize_block, BlockIndex, BlockReader, Field};
use search_engine::postings::{merge_postings, FieldMap, Postings};
use search_engine::term_map::TermMap;

fn fm(entries: &[(Field, Vec<u32>)]) -> FieldMap {
    let mut m = FieldMap::new();
    for (f, ps) in entries {
        m.insert(*f, ps.clone());
    }
    m
}

fn postings(docs: Vec<(u32, FieldMap)>) -> Postings {
    let mut p = Postings::new();
    for (d, m) in docs {
        p.add_last(d, m);
    }
    p
}

fn block(entries: Vec<(&str, Postings)>) -> Vec<u8> {
    let mut b: BlockIndex = TermMap::new();
    for (t, p) in entries {
        b.insert(t.to_string(), p);
    }
    serialize_block(&b)
}

#[test]
fn merge_postings_keeps_later_fields_for_shared_docs() {
    let a = postings(vec![
        (1, fm(&[(Field::Body, vec![1])])),
        (4, fm(&[(Field::Title, vec![0])])),
    ]);
    let b = postings(vec![
        (2, fm(&[(Field::Code, vec![3])])),
        (4, fm(&[(Field::Body, vec![7])])),
        (9, fm(&[(Field::Body, vec![2])])),
    ]);
    let m = merge_postings(a, b);
    assert_eq!(m.doc_ids(), vec![1, 2, 4, 9]);
    let (id, fields) = m.entry(2);
    assert_eq!(id, 4);
    assert_eq!(fields.get(Field::Body), Some(&vec![7]));
    assert_eq!(fields.get(Field::Title), None);
}

#[test]
fn merge_of_two_blocks() {
    let b1 = block(vec![
        ("apple", postings(vec![(1, fm(&[(Field::Body, vec![0, 5])]))])),
        ("cherry", postings(vec![(2, fm(&[(Field::Title, vec![1])]))])),
    ]);
    let b2 = block(vec![
        ("apple", postings(vec![(3, fm(&[(Field::Body, vec![2])]))])),
        ("banana", postings(vec![(4, fm(&[(Field::Code, vec![9])]))])),
    ]);
    let readers = vec![BlockReader::try_new(b1).unwrap(), BlockReader::try_new(b2).unwrap()];
    let (file, index) = merge_index_map(readers);

    assert_eq!(index.len(), 3);
    assert_eq!(index.key_at(0), "apple");
    assert_eq!(index.key_at(1), "banana");
    assert_eq!(index.key_at(2), "cherry");

    // entries follow one another through the file
    let mut end: u64 = 0;
    for i in 0..index.len() {
        let e = index.value_at(i);
        assert_eq!(e.offset, end);
        end = e.offset + e.length;
    }
    assert_eq!(end, file.len() as u64);

    // reading a term's range gives back its merged postings
    let apple = index.get("apple").unwrap();
    assert_eq!(apple.doc_freq, 2);
    let bytes = &file[apple.offset as usize..(apple.offset + apple.length) as usize];
    let p = deserialize_postings(bytes);
    assert_eq!(p.doc_ids(), vec![1, 3]);
    let expected = postings(vec![
        (1, fm(&[(Field::Body, vec![0, 5])])),
        (3, fm(&[(Field::Body, vec![2])])),
    ]);
    assert_eq!(p, expected);

    let banana = index.get("banana").unwrap();
    assert_eq!(banana.doc_freq, 1);
    let bytes = &file[banana.offset as usize..(banana.offset + banana.length) as usize];
    assert_eq!(deserialize_postings(bytes).doc_ids(), vec![4]);
}

#[test]
fn merge_of_no_blocks_is_empty() {
    let (file, index) = merge_index_map(Vec::new());
    assert!(file.is_empty());
    assert_eq!(index.len(), 0);
}

#[test]
fn merge_of_empty_block() {
    let b = block(vec![]);
    let (file, index) = merge_index_map(vec![BlockReader::try_new(b).unwrap()]);
    assert!(file.is_empty());
    assert_eq!(index.len(), 0);
}

#[test]
fn later_block_wins_for_a_repeated_document() {
    let b1 = block(vec![("x", postings(vec![(7, fm(&[(Field::Title, vec![0])]))]))]);
    let b2 = block(vec![("x", postings(vec![(7, fm(&[(Field::Body, vec![3])]))]))]);
    let readers = vec![BlockReader::try_new(b1).unwrap(), BlockReader::try_new(b2).unwrap()];
    let (file, index) = merge_index_map(readers);
    let e = index.get("x").unwrap();
    assert_eq!(e.doc_freq, 1);
    let p = deserialize_postings(&file[e.offset as usize..(e.offset + e.length) as usize]);
    assert_eq!(p, postings(vec![(7, fm(&[(Field::Body, vec![3])]))]));
}
