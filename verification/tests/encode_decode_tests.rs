use search_engine::encode_decode::{
    deserialize_block, deserialize_postings, serialize_block, serialize_postings, try_deserialize_block,
    try_deserialize_postings, try_vbyte_decode, vbyte_decode, vbyte_decode_at, vbyte_encode, BlockIndex,
    BlockReader, Field,
};
use search_engine::postings::{FieldMap, Postings};
use search_engine::term_map::TermMap;

fn field_map(entries: &[(Field, Vec<u32>)]) -> FieldMap {
    let mut fm = FieldMap::new();
    for (f, ps) in entries {
        fm.insert(*f, ps.clone());
    }
    fm
}

fn postings(docs: Vec<(u32, FieldMap)>) -> Postings {
    let mut p = Postings::new();
    for (d, fm) in docs {
        p.add_last(d, fm);
    }
    p
}

#[test]
fn roundtrip_postings() {
    // doc 5: Title at position 0, Body at positions 12 and 47
    // doc 9: Body only, single position
    let doc5 = field_map(&[(Field::Title, vec![0]), (Field::Body, vec![12, 47])]);
    let doc9 = field_map(&[(Field::Body, vec![88])]);
    let p = postings(vec![(5, doc5), (9, doc9)]);

    let bytes = serialize_postings(&p);
    let decoded = deserialize_postings(&bytes);

    assert_eq!(p, decoded);
}

#[test]
fn vbyte_known_encodings() {
    let cases: Vec<(u32, Vec<u8>)> = vec![
        (0, vec![0x80]),
        (5, vec![0x85]),
        (127, vec![0xff]),
        (128, vec![0x01, 0x80]),
        (300, vec![0x02, 0xac]),
        (u32::MAX, vec![0x0f, 0x7f, 0x7f, 0x7f, 0xff]),
    ];
    for (n, want) in cases {
        let mut out = Vec::new();
        vbyte_encode(n, &mut out);
        assert_eq!(out, want);
    }
}

#[test]
fn vbyte_roundtrip_values() {
    for n in [0u32, 1, 63, 127, 128, 129, 16383, 16384, 1_000_000, u32::MAX - 1, u32::MAX] {
        let mut out = vec![7u8, 9u8];
        vbyte_encode(n, &mut out);
        assert_eq!(vbyte_decode_at(&out, 2), Some((n, out.len())));
        assert_eq!(vbyte_decode(&out[2..]), (n, out.len() - 2));
    }
}

#[test]
fn vbyte_encode_appends() {
    let mut out = vec![1u8, 2, 3];
    vbyte_encode(300, &mut out);
    assert_eq!(out, vec![1, 2, 3, 0x02, 0xac]);
}

#[test]
fn vbyte_unterminated_is_none() {
    assert_eq!(try_vbyte_decode(&[0x01, 0x02]), None);
    assert_eq!(try_vbyte_decode(&[]), None);
    assert_eq!(vbyte_decode_at(&[0x80], 1), None);
}

#[test]
fn vbyte_decode_stops_at_first_terminator() {
    assert_eq!(try_vbyte_decode(&[0x01, 0x80, 0x85]), Some((128, 2)));
}

#[test]
fn field_codes_roundtrip() {
    for f in [Field::Title, Field::Headers, Field::Code, Field::Body] {
        assert_eq!(Field::from_u8(f.code()), Some(f));
    }
    assert_eq!(Field::from_u8(0), Some(Field::Title));
    assert_eq!(Field::from_u8(3), Some(Field::Body));
    assert_eq!(Field::from_u8(4), None);
    assert_eq!(Field::from_u8(255), None);
}

#[test]
fn postings_bytes_are_gap_encoded() {
    // 2 docs; doc 5 with Title [0] and Body [12, 47]; doc 9 with Body [88]
    let doc5 = field_map(&[(Field::Title, vec![0]), (Field::Body, vec![12, 47])]);
    let doc9 = field_map(&[(Field::Body, vec![88])]);
    let p = postings(vec![(5, doc5), (9, doc9)]);
    let bytes = serialize_postings(&p);
    assert_eq!(
        bytes,
        vec![
            0x82, // two documents
            0x85, 0x82, // doc 5, two fields
            0x00, 0x81, 0x80, // title: one position, 0
            0x03, 0x82, 0x8c, 0xa3, // body: two positions, 12, gap 35
            0x84, 0x81, // doc gap 4, one field
            0x03, 0x81, 0xd8, // body: one position, 88
        ]
    );
}

#[test]
fn empty_postings_roundtrip() {
    let p = Postings::new();
    let bytes = serialize_postings(&p);
    assert_eq!(bytes, vec![0x80]);
    assert_eq!(deserialize_postings(&bytes), p);
}

#[test]
fn malformed_postings_are_rejected() {
    // announces three documents but holds none
    assert!(try_deserialize_postings(&[0x83]).is_none());
    // a field byte that names no field
    assert!(try_deserialize_postings(&[0x81, 0x81, 0x81, 0x07, 0x81, 0x80]).is_none());
    // no bytes at all
    assert!(try_deserialize_postings(&[]).is_none());
}

fn sample_block() -> BlockIndex {
    let mut b: BlockIndex = TermMap::new();
    b.insert(
        "zebra".to_string(),
        postings(vec![(2, field_map(&[(Field::Body, vec![4, 9])]))]),
    );
    b.insert(
        "apple".to_string(),
        postings(vec![
            (1, field_map(&[(Field::Title, vec![0])])),
            (3, field_map(&[(Field::Code, vec![1]), (Field::Body, vec![2])])),
        ]),
    );
    b
}

#[test]
fn block_roundtrip() {
    let b = sample_block();
    let bytes = serialize_block(&b);
    let back = deserialize_block(&bytes);
    assert_eq!(back.len(), 2);
    for i in 0..2 {
        assert_eq!(back.key_at(i), b.key_at(i));
        assert_eq!(back.value_at(i), b.value_at(i));
    }
    assert_eq!(back.key_at(0), "apple");
    assert_eq!(back.key_at(1), "zebra");
}

#[test]
fn block_reader_gives_entries_in_term_order() {
    let bytes = serialize_block(&sample_block());
    let mut r = BlockReader::try_new(bytes).unwrap();
    let (t1, p1) = r.next_entry().unwrap();
    assert_eq!(t1, "apple");
    assert_eq!(p1.doc_ids(), vec![1, 3]);
    let (t2, p2) = r.next_entry().unwrap();
    assert_eq!(t2, "zebra");
    assert_eq!(p2.doc_ids(), vec![2]);
    assert!(r.next_entry().is_none());
    assert!(r.next_entry().is_none());
}

#[test]
fn malformed_block_is_rejected() {
    // announces one entry but holds none
    assert!(try_deserialize_block(&[0x81]).is_none());
    assert!(BlockReader::try_new(vec![0x81]).is_none());
    // an empty block is fine
    let empty = try_deserialize_block(&[0x80]).unwrap();
    assert_eq!(empty.len(), 0);
}

#[test]
fn bytes_after_postings_are_ignored() {
    let doc5 = field_map(&[(Field::Title, vec![0]), (Field::Body, vec![12, 47])]);
    let p = postings(vec![(5, doc5)]);
    let mut bytes = serialize_postings(&p);
    bytes.extend_from_slice(&[0x81, 0x99, 0x00]);
    assert_eq!(try_deserialize_postings(&bytes), Some(p));
}

#[test]
fn reader_gives_every_entry_of_a_block_then_none() {
    let mut b: BlockIndex = TermMap::new();
    let terms = ["delta", "alpha", "charlie", "bravo", "echo"];
    for (i, t) in terms.iter().enumerate() {
        b.insert(t.to_string(), postings(vec![(i as u32 + 1, field_map(&[(Field::Body, vec![i as u32])]))]));
    }
    let mut r = BlockReader::new(serialize_block(&b));
    for i in 0..b.len() {
        let (t, p) = r.next_entry().unwrap();
        assert_eq!(&t, b.key_at(i));
        assert_eq!(&p, b.value_at(i));
    }
    assert!(r.next_entry().is_none());
    assert!(r.next_entry().is_none());
}
