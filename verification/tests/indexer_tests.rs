use search_engine::encode_decode::{deserialize_block, Field};
use search_engine::field_extract::{extract_fields, FieldPatterns};
use search_engine::ranking::{field_term_counts, length_totals};
use search_engine::traverse::{tokenize_fields, DocStats, FieldTokens, Indexer, BLOCK_DOCS};

fn tokens(body: &str) -> FieldTokens {
    let p = FieldPatterns::new().unwrap();
    let fields = extract_fields(body, &p);
    tokenize_fields(&fields)
}

#[test]
fn documents_get_consecutive_ids_and_stats() {
    let mut ix = Indexer::new();
    let t = tokens("# Run Instances\n\n## Usage\n\nCall `RunInstances` to start an instance.");
    let (doc, stats, flushed) = ix.add_document(&t);
    assert_eq!(doc, 1);
    assert!(flushed.is_none());
    assert_eq!(stats.len_title, 2);
    assert_eq!(stats.len_headers, 1);
    assert_eq!(stats.len_code, 3);
    let (doc2, _, _) = ix.add_document(&tokens("second"));
    assert_eq!(doc2, 2);
    assert_eq!(ix.doc_id(), 2);
}

#[test]
fn block_is_flushed_before_the_document_after_a_multiple() {
    let mut ix = Indexer::new();
    let mut flushes = Vec::new();
    let t = tokens("word");
    for _ in 0..(BLOCK_DOCS + 2) {
        let (doc, _, flushed) = ix.add_document(&t);
        if let Some((n, bytes)) = flushed {
            flushes.push((doc, n, bytes));
        }
    }
    assert_eq!(flushes.len(), 1);
    let (doc, n, bytes) = &flushes[0];
    assert_eq!(*doc, BLOCK_DOCS + 1);
    assert_eq!(*n, 1);
    let b = deserialize_block(bytes);
    assert_eq!(b.len(), 1);
    assert_eq!(b.key_at(0), "word");
    assert_eq!(b.value_at(0).len(), BLOCK_DOCS as usize);
    let (last, grams) = ix.finish();
    let (n, bytes) = last.unwrap();
    assert_eq!(n, 2);
    let b = deserialize_block(&bytes);
    assert_eq!(b.value_at(0).doc_ids(), vec![BLOCK_DOCS + 1, BLOCK_DOCS + 2]);
    assert!(grams.contains_key("wor"));
}

#[test]
fn compound_pieces_share_a_position() {
    let mut ix = Indexer::new();
    ix.add_document(&tokens("go RunInstances now"));
    let (last, _) = ix.finish();
    let b = deserialize_block(&last.unwrap().1);
    let body_pos = |term: &str| {
        let p = b.get(term).unwrap();
        let (_, fields) = p.entry(0);
        fields.get(Field::Body).unwrap().clone()
    };
    assert_eq!(body_pos("go"), vec![0]);
    assert_eq!(body_pos("runinstances"), vec![1]);
    assert_eq!(body_pos("run"), vec![1]);
    assert_eq!(body_pos("instances"), vec![1]);
    assert_eq!(body_pos("now"), vec![2]);
}

#[test]
fn finish_without_documents_has_no_block() {
    let ix = Indexer::new();
    let (last, grams) = ix.finish();
    assert!(last.is_none());
    assert_eq!(grams.len(), 0);
}

#[test]
fn term_counts_per_field() {
    let mut ix = Indexer::new();
    ix.add_document(&tokens("# cat\n\ncat cat dog"));
    let (last, _) = ix.finish();
    let b = deserialize_block(&last.unwrap().1);
    let p = b.get("cat").unwrap();
    let (_, fields) = p.entry(0);
    assert_eq!(field_term_counts(fields), (1, 0, 0, 2));
}

#[test]
fn totals_of_field_lengths() {
    let stats = vec![
        DocStats { len_title: 2, len_headers: 0, len_code: 5, len_body: 100 },
        DocStats { len_title: 1, len_headers: 3, len_code: 0, len_body: u32::MAX },
    ];
    assert_eq!(length_totals(&stats), (3, 3, 5, 100 + u32::MAX as u128));
    assert_eq!(length_totals(&Vec::new()), (0, 0, 0, 0));
}
