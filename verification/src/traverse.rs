//! Indexing one document into the in-memory block index. Walking the
//! directory tree, reading files and flushing blocks to disk are the
//! program's part.

use vstd::prelude::*;
use crate::cleanup::{flatten_groups, groups_view, split_string_groups, strs, tokenize};
use crate::encode_decode::{
    block_bytes, block_counts_fit, block_map, block_view, block_wf, entries_to_map, lemma_block_index_roundtrip,
    parse_block, positions_sorted, serialize_block, sorted_from, BlockEntries, BlockIndex, Field,
};
use crate::field_extract::ExtractedFields;
use crate::postings::{add_position, field_push, ids_increasing, DocList, Postings};
use crate::term_map::{entries_map, has_term, lemma_entries_map_at, term_index, terms_sorted, TermMap};
use crate::three_gram_index::{add_term_all, gram_map, lists_distinct, three_gram_index, trigrams, GramIndex};

verus! {

/// Per-field token counts of a document, for length normalization.
#[derive(Debug, Clone, Copy, PartialEq, Eq)]
pub struct DocStats {
    pub len_title: u32,
    pub len_headers: u32,
    pub len_code: u32,
    pub len_body: u32,
}

/// A block index as a map from term to its documents.
pub type IndexView = Map<Seq<char>, DocList>;

/// A trigram index as a map from trigram to its terms.
pub type GramView = Map<Seq<char>, Seq<Seq<char>>>;

/// One occurrence of term `t`: recorded in its postings, and, if the term is
/// new to the block, its trigrams added to the trigram index.
pub open spec fn occurrence(st: (IndexView, GramView), t: Seq<char>, doc: u32, f: Field, pos: u32) -> (
    IndexView,
    GramView,
) {
    let m = st.0;
    let prev = if m.contains_key(t) {
        m[t]
    } else {
        seq![]
    };
    (
        m.insert(t, add_position(prev, doc, f, pos)),
        if m.contains_key(t) {
            st.1
        } else {
            add_term_all(st.1, trigrams(t), t)
        },
    )
}

/// The tokens of one group, each recorded at position `pos`, in order.
pub open spec fn index_group(st: (IndexView, GramView), g: Seq<Seq<char>>, doc: u32, f: Field, pos: u32) -> (
    IndexView,
    GramView,
)
    decreases g.len(),
{
    if g.len() == 0 {
        st
    } else {
        index_group(occurrence(st, g[0], doc, f, pos), g.drop_first(), doc, f, pos)
    }
}

/// The groups of a field, group `k` recorded at position `start + k`.
pub open spec fn index_groups(
    st: (IndexView, GramView),
    gs: Seq<Seq<Seq<char>>>,
    doc: u32,
    f: Field,
    start: nat,
) -> (IndexView, GramView)
    decreases gs.len(),
{
    if gs.len() == 0 {
        st
    } else {
        index_groups(index_group(st, gs[0], doc, f, start as u32), gs.drop_first(), doc, f, start + 1)
    }
}

/// Every postings list ends at or before document `doc`, and where it ends at
/// `doc` it holds no position of field `f`.
pub open spec fn ready_fresh(m: IndexView, doc: u32, f: Field) -> bool {
    forall|t: Seq<char>| #[trigger] m.contains_key(t) ==> {
        let p = m[t];
        p.len() > 0 ==> {
            &&& p.last().0 <= doc
            &&& p.last().0 == doc ==> !p.last().1.contains_key(f)
        }
    }
}

/// Every postings list ends before document `doc`.
pub open spec fn ready_new(m: IndexView, doc: u32) -> bool {
    forall|t: Seq<char>| #[trigger] m.contains_key(t) ==> (m[t].len() > 0 ==> m[t].last().0 < doc)
}

/// Every postings list ends at or before document `doc`.
pub open spec fn docs_upto(m: IndexView, doc: u32) -> bool {
    forall|t: Seq<char>| #[trigger] m.contains_key(t) ==> (m[t].len() > 0 ==> m[t].last().0 <= doc)
}

/// Every postings list ends at or before document `doc`, and where it ends at
/// `doc` its field `f` holds no position above `pos`.
pub open spec fn ready_for(m: IndexView, doc: u32, f: Field, pos: u32) -> bool {
    forall|t: Seq<char>| #[trigger] m.contains_key(t) ==> {
        let p = m[t];
        p.len() > 0 ==> {
            &&& p.last().0 <= doc
            &&& (p.last().0 == doc && p.last().1.contains_key(f)) ==> forall|k: int|
                0 <= k < p.last().1[f].len() ==> #[trigger] p.last().1[f][k] <= pos
        }
    }
}

} // verus!

verus! {

proof fn lemma_add_position_sorted(p: DocList, doc: u32, f: Field, pos: u32)
    requires
        positions_sorted(p),
        ids_increasing(p),
        p.len() > 0 ==> p.last().0 <= doc,
        p.len() > 0 && p.last().0 == doc && p.last().1.contains_key(f) ==> forall|k: int|
            0 <= k < p.last().1[f].len() ==> #[trigger] p.last().1[f][k] <= pos,
    ensures
        positions_sorted(add_position(p, doc, f, pos)),
{
    let r = add_position(p, doc, f, pos);
    assert forall|i: int| 0 <= i < r.len() implies crate::encode_decode::field_map_sorted(#[trigger] r[i].1) by {
        if i < p.len() && !(p.len() > 0 && p.last().0 == doc && i == p.len() - 1) {
            assert(r[i] == p[i]);
        } else if p.len() > 0 && p.last().0 == doc && i == p.len() - 1 {
            let m = p.last().1;
            assert(crate::encode_decode::field_map_sorted(m));
            let nm = field_push(m, f, pos);
            assert(r[i].1 == nm);
            assert forall|g: Field| #[trigger] nm.contains_key(g) implies sorted_from(nm[g], 0) by {
                if g == f && m.contains_key(f) {
                    let s = m[f];
                    assert(sorted_from(s, 0));
                    let s2 = s.push(pos);
                    assert forall|a: int, b: int| 0 <= a <= b < s2.len() implies #[trigger] s2[a] <= #[trigger] s2[b] by {
                        if b == s.len() {
                            if a < s.len() {
                                assert(s[a] <= pos);
                            }
                        } else {
                            assert(s[a] <= s[b]);
                        }
                    }
                } else if g != f {
                    assert(m.contains_key(g));
                }
            }
        } else {
            let nm = Map::<Field, Seq<u32>>::empty().insert(f, seq![pos]);
            assert(r[i].1 == nm);
        }
    }
}

/// Record one occurrence of `term` at position `pos` of field `f` of
/// document `doc`; a term new to the block also gets its trigrams indexed.
fn record_occurrence(
    index_map: &mut BlockIndex,
    gram_index: &mut GramIndex,
    term: &String,
    doc: u32,
    f: Field,
    pos: u32,
)
    requires
        block_wf(old(index_map)),
        old(gram_index).wf(),
        ready_for(block_map(old(index_map)), doc, f, pos),
    ensures
        block_wf(final(index_map)),
        final(gram_index).wf(),
        (block_map(final(index_map)), gram_map(final(gram_index))) == occurrence(
            (block_map(old(index_map)), gram_map(old(gram_index))),
            term@,
            doc,
            f,
            pos,
        ),
        ready_for(block_map(final(index_map)), doc, f, pos),
        lists_distinct(gram_map(old(gram_index))) ==> lists_distinct(gram_map(final(gram_index))),
        forall|g: Field|
            g != f && #[trigger] ready_fresh(block_map(old(index_map)), doc, g) ==> ready_fresh(
                block_map(final(index_map)),
                doc,
                g,
            ),
        docs_upto(block_map(final(index_map)), doc),
{
    let ghost m0 = block_map(index_map);
    let ghost e0 = index_map@;
    let ghost old_index = *index_map;
    let tc = crate::text::str_chars(term.as_str());
    proof {
        index_map.lemma_sorted();
    }
    match index_map.search(&tc) {
        Ok(i) => {
            proof {
                lemma_entries_map_at(e0, i as int);
            }
            let mut p = index_map.replace_value(i, Postings::new());
            assert(p.wf() && positions_sorted(p@));
            assert(m0.contains_key(term@) && m0[term@] == p@);
            let ghost pv = p@;
            proof {
                assert(ready_for(m0, doc, f, pos));
                lemma_add_position_sorted(pv, doc, f, pos);
            }
            p.add_position(doc, f, pos);
            let ghost np = p;
            let _ = index_map.replace_value(i, p);
            proof {
                index_map.lemma_sorted();
                assert(index_map@ == e0.update(i as int, (e0[i as int].0, np)));
                crate::term_map::lemma_entries_map_update(e0, index_map@, i as int);
                crate::encode_decode::lemma_insert_keeps_wf(e0, index_map@, term@, np);
                crate::encode_decode::lemma_block_map_insert(&old_index, index_map, term@, np);
            }
        },
        Err(i) => {
            proof {
                assert(!m0.contains_key(term@)) by {
                    if has_term(e0, term@) {
                        let j = choose|j: int| 0 <= j < e0.len() && #[trigger] e0[j].0 == term@;
                        crate::text::lemma_chars_lt_irreflexive(term@);
                    }
                }
            }
            three_gram_index(term.as_str(), gram_index);
            let mut p = Postings::new();
            proof {
                lemma_add_position_sorted(p@, doc, f, pos);
            }
            p.add_position(doc, f, pos);
            let ghost np = p;
            index_map.insert_at(i, term.clone(), p);
            proof {
                index_map.lemma_sorted();
                crate::term_map::lemma_entries_map_insert(e0, index_map@, i as int);
                crate::encode_decode::lemma_insert_keeps_wf(e0, index_map@, term@, np);
                crate::encode_decode::lemma_block_map_insert(&old_index, index_map, term@, np);
            }
        },
    }
    proof {
        let m1 = block_map(index_map);
        assert forall|t: Seq<char>| #[trigger] m1.contains_key(t) implies {
            let p = m1[t];
            p.len() > 0 ==> {
                &&& p.last().0 <= doc
                &&& (p.last().0 == doc && p.last().1.contains_key(f)) ==> forall|k: int|
                    0 <= k < p.last().1[f].len() ==> #[trigger] p.last().1[f][k] <= pos
            }
        } by {
            if t != term@ {
                assert(m0.contains_key(t));
            } else {
                let prev = if m0.contains_key(t) {
                    m0[t]
                } else {
                    seq![]
                };
                let p = m1[t];
                assert(p == add_position(prev, doc, f, pos));
                if prev.len() > 0 && prev.last().0 == doc {
                    let lm = prev.last().1;
                    assert(p.last().1 == field_push(lm, f, pos));
                    assert forall|g: Field| g != f && lm.contains_key(g) implies p.last().1.contains_key(g) by {}
                    if lm.contains_key(f) {
                        assert forall|k: int| 0 <= k < p.last().1[f].len() implies #[trigger] p.last().1[f][k] <= pos by {
                            if k < lm[f].len() {
                                assert(p.last().1[f][k] == lm[f][k]);
                            }
                        }
                    }
                }
            }
        }
        assert forall|g: Field|
            g != f && #[trigger] ready_fresh(m0, doc, g) implies ready_fresh(m1, doc, g) by {
            assert forall|t: Seq<char>| #[trigger] m1.contains_key(t) implies {
                let p = m1[t];
                p.len() > 0 ==> {
                    &&& p.last().0 <= doc
                    &&& p.last().0 == doc ==> !p.last().1.contains_key(g)
                }
            } by {
                if t != term@ {
                    assert(m0.contains_key(t));
                } else {
                    let prev = if m0.contains_key(t) {
                        m0[t]
                    } else {
                        seq![]
                    };
                    if prev.len() > 0 && prev.last().0 == doc {
                        assert(m0.contains_key(t));
                        assert(!prev.last().1.contains_key(g));
                    }
                }
            }
        }
    }
}

} // verus!

verus! {

proof fn lemma_ready_fresh_to_for(m: IndexView, doc: u32, f: Field, pos: u32)
    requires
        ready_fresh(m, doc, f),
    ensures
        ready_for(m, doc, f, pos),
{
    assert forall|t: Seq<char>| #[trigger] m.contains_key(t) implies {
        let p = m[t];
        p.len() > 0 ==> {
            &&& p.last().0 <= doc
            &&& (p.last().0 == doc && p.last().1.contains_key(f)) ==> forall|k: int|
                0 <= k < p.last().1[f].len() ==> #[trigger] p.last().1[f][k] <= pos
        }
    } by {}
}

proof fn lemma_ready_for_mono(m: IndexView, doc: u32, f: Field, pos: u32, pos2: u32)
    requires
        ready_for(m, doc, f, pos),
        pos <= pos2,
    ensures
        ready_for(m, doc, f, pos2),
{
    assert forall|t: Seq<char>| #[trigger] m.contains_key(t) implies {
        let p = m[t];
        p.len() > 0 ==> {
            &&& p.last().0 <= doc
            &&& (p.last().0 == doc && p.last().1.contains_key(f)) ==> forall|k: int|
                0 <= k < p.last().1[f].len() ==> #[trigger] p.last().1[f][k] <= pos2
        }
    } by {
        let p = m[t];
        if p.len() > 0 && p.last().0 == doc && p.last().1.contains_key(f) {
            assert forall|k: int| 0 <= k < p.last().1[f].len() implies #[trigger] p.last().1[f][k] <= pos2 by {
                assert(p.last().1[f][k] <= pos);
            }
        }
    }
}

/// Index the token groups of one field of document `doc`: every token of
/// group `k` is recorded at position `k`, so a compound token and its pieces
/// share a position.
pub fn index_field(
    index_map: &mut BlockIndex,
    gram_index: &mut GramIndex,
    doc: u32,
    f: Field,
    groups: &Vec<Vec<String>>,
)
    requires
        block_wf(old(index_map)),
        old(gram_index).wf(),
        groups@.len() <= u32::MAX,
        ready_fresh(block_map(old(index_map)), doc, f),
    ensures
        block_wf(final(index_map)),
        final(gram_index).wf(),
        (block_map(final(index_map)), gram_map(final(gram_index))) == index_groups(
            (block_map(old(index_map)), gram_map(old(gram_index))),
            groups_view(groups@),
            doc,
            f,
            0,
        ),
        lists_distinct(gram_map(old(gram_index))) ==> lists_distinct(gram_map(final(gram_index))),
        forall|g: Field|
            g != f && #[trigger] ready_fresh(block_map(old(index_map)), doc, g) ==> ready_fresh(
                block_map(final(index_map)),
                doc,
                g,
            ),
        docs_upto(block_map(final(index_map)), doc),
{
    let ghost gs = groups_view(groups@);
    let ghost st0 = (block_map(index_map), gram_map(gram_index));
    let ghost m0 = block_map(index_map);
    let ghost d0 = lists_distinct(gram_map(gram_index));
    proof {
        lemma_ready_fresh_to_for(m0, doc, f, 0);
    }
    let mut k: usize = 0;
    assert(gs.skip(0) =~= gs);
    while k < groups.len()
        invariant
            gs == groups_view(groups@),
            groups@.len() <= u32::MAX,
            k <= groups@.len(),
            block_wf(index_map),
            gram_index.wf(),
            ready_for(block_map(index_map), doc, f, k as u32),
            index_groups(st0, gs, doc, f, 0) == index_groups(
                (block_map(index_map), gram_map(gram_index)),
                gs.skip(k as int),
                doc,
                f,
                k as nat,
            ),
            d0 ==> lists_distinct(gram_map(gram_index)),
            forall|g: Field|
                g != f && #[trigger] ready_fresh(m0, doc, g) ==> ready_fresh(block_map(index_map), doc, g),
        decreases groups@.len() - k,
    {
        let group = &groups[k];
        let pos = k as u32;
        let ghost gv = strs(group@);
        assert(gs[k as int] == gv);
        assert(gs.skip(k as int).drop_first() =~= gs.skip(k + 1));
        assert(gs.skip(k as int)[0] == gv);
        let ghost st_start = (block_map(index_map), gram_map(gram_index));
        let mut m: usize = 0;
        assert(gv.skip(0) =~= gv);
        while m < group.len()
            invariant
                gv == strs(group@),
                m <= group@.len(),
                block_wf(index_map),
                gram_index.wf(),
                ready_for(block_map(index_map), doc, f, pos),
                index_group(st_start, gv, doc, f, pos) == index_group(
                    (block_map(index_map), gram_map(gram_index)),
                    gv.skip(m as int),
                    doc,
                    f,
                    pos,
                ),
                d0 ==> lists_distinct(gram_map(gram_index)),
                forall|g: Field|
                    g != f && #[trigger] ready_fresh(m0, doc, g) ==> ready_fresh(block_map(index_map), doc, g),
            decreases group@.len() - m,
        {
            assert(gv.skip(m as int).drop_first() =~= gv.skip(m + 1));
            assert(gv.skip(m as int)[0] == group@[m as int]@);
            record_occurrence(index_map, gram_index, &group[m], doc, f, pos);
            m = m + 1;
        }
        assert(gv.skip(m as int) =~= Seq::<Seq<char>>::empty());
        proof {
            if k + 1 <= u32::MAX {
                lemma_ready_for_mono(block_map(index_map), doc, f, pos, (k + 1) as u32);
            }
        }
        k = k + 1;
    }
    assert(gs.skip(k as int) =~= Seq::<Seq<Seq<char>>>::empty());
    assert forall|t: Seq<char>| #[trigger] block_map(index_map).contains_key(t) && block_map(
        index_map,
    )[t].len() > 0 implies block_map(index_map)[t].last().0 <= doc by {}
}

} // verus!

verus! {

/// The token groups of each field of a document.
pub struct FieldTokens {
    pub title: Vec<Vec<String>>,
    pub headers: Vec<Vec<String>>,
    pub code: Vec<Vec<String>>,
    pub body: Vec<Vec<String>>,
}

/// Tokenize each field of a document into token groups.
pub fn tokenize_fields(fields: &ExtractedFields) -> (res: FieldTokens)
    ensures
        groups_view(res.title@) == crate::cleanup::tokenize_groups(fields.title@),
        groups_view(res.headers@) == crate::cleanup::tokenize_groups(fields.headers@),
        groups_view(res.code@) == crate::cleanup::tokenize_groups(fields.code@),
        groups_view(res.body@) == crate::cleanup::tokenize_groups(fields.body@),
{
    FieldTokens {
        title: split_string_groups(fields.title.clone()),
        headers: split_string_groups(fields.headers.clone()),
        code: split_string_groups(fields.code.clone()),
        body: split_string_groups(fields.body.clone()),
    }
}

/// Number of tokens in the groups (all tokens, not groups), truncated to 32
/// bits as the stored lengths are.
fn token_count(groups: &Vec<Vec<String>>) -> (res: u32)
    ensures
        res == (flatten_groups(groups_view(groups@)).len() as u32),
{
    let ghost gs = groups_view(groups@);
    let mut total: u128 = 0;
    let mut k: usize = 0;
    while k < groups.len()
        invariant
            gs == groups_view(groups@),
            k <= groups@.len(),
            total == flatten_groups(gs.take(k as int)).len(),
            total <= k * 0x1_0000_0000_0000_0000,
        decreases groups@.len() - k,
    {
        let n = groups[k].len();
        proof {
            lemma_flatten_take(gs, k as int);
            assert(gs[k as int].len() == n);
        }
        total = total + n as u128;
        k = k + 1;
    }
    assert(gs.take(k as int) =~= gs);
    total as u32
}

proof fn lemma_flatten_take(gs: Seq<Seq<Seq<char>>>, k: int)
    requires
        0 <= k < gs.len(),
    ensures
        flatten_groups(gs.take(k + 1)).len() == flatten_groups(gs.take(k)).len() + gs[k].len(),
    decreases k,
{
    if k == 0 {
        let t = gs.take(1);
        assert(t.drop_first() =~= Seq::<Seq<Seq<char>>>::empty());
        assert(gs.take(0) =~= Seq::<Seq<Seq<char>>>::empty());
    } else {
        let a = gs.drop_first();
        assert(gs.take(k + 1).drop_first() =~= a.take(k));
        assert(gs.take(k).drop_first() =~= a.take(k - 1));
        lemma_flatten_take(a, k - 1);
    }
}

/// The index after one document: its four fields indexed in order title,
/// headers, code, body.
pub open spec fn index_doc(
    st: (IndexView, GramView),
    doc: u32,
    title: Seq<Seq<Seq<char>>>,
    headers: Seq<Seq<Seq<char>>>,
    code: Seq<Seq<Seq<char>>>,
    body: Seq<Seq<Seq<char>>>,
) -> (IndexView, GramView) {
    let s1 = index_groups(st, title, doc, Field::Title, 0);
    let s2 = index_groups(s1, headers, doc, Field::Headers, 0);
    let s3 = index_groups(s2, code, doc, Field::Code, 0);
    index_groups(s3, body, doc, Field::Body, 0)
}

proof fn lemma_new_is_fresh(m: IndexView, doc: u32, f: Field)
    requires
        ready_new(m, doc),
    ensures
        ready_fresh(m, doc, f),
{
    assert forall|t: Seq<char>| #[trigger] m.contains_key(t) implies {
        let p = m[t];
        p.len() > 0 ==> {
            &&& p.last().0 <= doc
            &&& p.last().0 == doc ==> !p.last().1.contains_key(f)
        }
    } by {}
}

/// Index document `doc`: each field's token groups are recorded, field by
/// field, group `k` of a field at position `k`; terms new to the block get
/// their trigrams indexed. Returns the number of tokens of each field.
pub fn index_document(
    index_map: &mut BlockIndex,
    gram_index: &mut GramIndex,
    doc: u32,
    tokens: &FieldTokens,
) -> (res: DocStats)
    requires
        block_wf(old(index_map)),
        old(gram_index).wf(),
        ready_new(block_map(old(index_map)), doc),
        tokens.title@.len() <= u32::MAX,
        tokens.headers@.len() <= u32::MAX,
        tokens.code@.len() <= u32::MAX,
        tokens.body@.len() <= u32::MAX,
    ensures
        block_wf(final(index_map)),
        final(gram_index).wf(),
        (block_map(final(index_map)), gram_map(final(gram_index))) == index_doc(
            (block_map(old(index_map)), gram_map(old(gram_index))),
            doc,
            groups_view(tokens.title@),
            groups_view(tokens.headers@),
            groups_view(tokens.code@),
            groups_view(tokens.body@),
        ),
        lists_distinct(gram_map(old(gram_index))) ==> lists_distinct(gram_map(final(gram_index))),
        res.len_title == (flatten_groups(groups_view(tokens.title@)).len() as u32),
        res.len_headers == (flatten_groups(groups_view(tokens.headers@)).len() as u32),
        res.len_code == (flatten_groups(groups_view(tokens.code@)).len() as u32),
        res.len_body == (flatten_groups(groups_view(tokens.body@)).len() as u32),
        docs_upto(block_map(final(index_map)), doc),
{
    let ghost m0 = block_map(index_map);
    proof {
        lemma_new_is_fresh(m0, doc, Field::Title);
        lemma_new_is_fresh(m0, doc, Field::Headers);
        lemma_new_is_fresh(m0, doc, Field::Code);
        lemma_new_is_fresh(m0, doc, Field::Body);
    }
    index_field(index_map, gram_index, doc, Field::Title, &tokens.title);
    index_field(index_map, gram_index, doc, Field::Headers, &tokens.headers);
    index_field(index_map, gram_index, doc, Field::Code, &tokens.code);
    index_field(index_map, gram_index, doc, Field::Body, &tokens.body);
    DocStats {
        len_title: token_count(&tokens.title),
        len_headers: token_count(&tokens.headers),
        len_code: token_count(&tokens.code),
        len_body: token_count(&tokens.body),
    }
}

/// Term `u`'s postings end at document `doc`, and that document has field
/// `g`.
pub open spec fn has_field(m: IndexView, u: Seq<char>, doc: u32, g: Field) -> bool {
    &&& m.contains_key(u)
    &&& m[u].len() > 0
    &&& m[u].last().0 == doc
    &&& m[u].last().1.contains_key(g)
}

/// Term `u`'s postings end at document `doc`, whose field `g` lists
/// position `x`.
pub open spec fn has_pos(m: IndexView, u: Seq<char>, doc: u32, g: Field, x: u32) -> bool {
    has_field(m, u, doc, g) && m[u].last().1[g].contains(x)
}

proof fn lemma_occurrence_records(st: (IndexView, GramView), t: Seq<char>, doc: u32, f: Field, pos: u32)
    ensures
        has_pos(occurrence(st, t, doc, f, pos).0, t, doc, f, pos),
{
    let m = st.0;
    let prev = if m.contains_key(t) {
        m[t]
    } else {
        seq![]
    };
    let np = add_position(prev, doc, f, pos);
    let l = np.last().1[f];
    if prev.len() > 0 && prev.last().0 == doc {
        assert(np.last() == (doc, field_push(prev.last().1, f, pos)));
        assert(l[l.len() - 1] == pos);
    } else {
        assert(np.last() == (doc, Map::<Field, Seq<u32>>::empty().insert(f, seq![pos])));
        assert(l[0] == pos);
    }
}

proof fn lemma_occurrence_keeps(
    st: (IndexView, GramView),
    t: Seq<char>,
    doc: u32,
    f: Field,
    pos: u32,
    u: Seq<char>,
    g: Field,
    x: u32,
)
    ensures
        has_pos(st.0, u, doc, g, x) ==> has_pos(occurrence(st, t, doc, f, pos).0, u, doc, g, x),
        (f != g || u != t) && !has_field(st.0, u, doc, g) ==> !has_field(
            occurrence(st, t, doc, f, pos).0,
            u,
            doc,
            g,
        ),
{
    let m = st.0;
    let m2 = occurrence(st, t, doc, f, pos).0;
    if u == t {
        let prev = if m.contains_key(t) {
            m[t]
        } else {
            seq![]
        };
        if prev.len() > 0 && prev.last().0 == doc {
            let fm = prev.last().1;
            assert(m2[u].last() == (doc, field_push(fm, f, pos)));
            if has_pos(m, u, doc, g, x) {
                let i = choose|i: int| 0 <= i < fm[g].len() && fm[g][i] == x;
                if g == f {
                    assert(fm[f].push(pos)[i] == x);
                }
            }
        } else {
            assert(m2[u].last() == (doc, Map::<Field, Seq<u32>>::empty().insert(f, seq![pos])));
        }
    }
}

proof fn lemma_group_effect(
    st: (IndexView, GramView),
    gr: Seq<Seq<char>>,
    doc: u32,
    f: Field,
    pos: u32,
    u: Seq<char>,
    g: Field,
    x: u32,
)
    ensures
        has_pos(st.0, u, doc, g, x) ==> has_pos(index_group(st, gr, doc, f, pos).0, u, doc, g, x),
        (f != g || !gr.contains(u)) && !has_field(st.0, u, doc, g) ==> !has_field(
            index_group(st, gr, doc, f, pos).0,
            u,
            doc,
            g,
        ),
        gr.contains(u) && g == f && x == pos ==> has_pos(index_group(st, gr, doc, f, pos).0, u, doc, g, x),
    decreases gr.len(),
{
    if gr.len() > 0 {
        let st1 = occurrence(st, gr[0], doc, f, pos);
        let rest = gr.drop_first();
        lemma_occurrence_keeps(st, gr[0], doc, f, pos, u, g, x);
        lemma_group_effect(st1, rest, doc, f, pos, u, g, x);
        if gr.contains(u) && g == f && x == pos {
            if gr[0] == u {
                lemma_occurrence_records(st, u, doc, f, pos);
            } else {
                let k = choose|k: int| 0 <= k < gr.len() && gr[k] == u;
                assert(rest[k - 1] == u);
            }
        }
        if !gr.contains(u) {
            assert forall|k: int| 0 <= k < rest.len() implies rest[k] != u by {
                assert(rest[k] == gr[k + 1]);
            }
            assert(gr[0] != u) by {
                assert(gr.contains(gr[0]));
            }
        }
    }
}

proof fn lemma_groups_effect(
    st: (IndexView, GramView),
    gs: Seq<Seq<Seq<char>>>,
    doc: u32,
    f: Field,
    start: nat,
    u: Seq<char>,
    g: Field,
    x: u32,
)
    ensures
        has_pos(st.0, u, doc, g, x) ==> has_pos(index_groups(st, gs, doc, f, start).0, u, doc, g, x),
        (f != g || forall|k: int| 0 <= k < gs.len() ==> !(#[trigger] gs[k]).contains(u)) && !has_field(
            st.0,
            u,
            doc,
            g,
        ) ==> !has_field(index_groups(st, gs, doc, f, start).0, u, doc, g),
        forall|k: int|
            0 <= k < gs.len() && start + k <= u32::MAX && (#[trigger] gs[k]).contains(u) && g == f && x == (
            start + k) as u32 ==> has_pos(index_groups(st, gs, doc, f, start).0, u, doc, g, x),
    decreases gs.len(),
{
    if gs.len() > 0 {
        let st1 = index_group(st, gs[0], doc, f, start as u32);
        let rest = gs.drop_first();
        lemma_group_effect(st, gs[0], doc, f, start as u32, u, g, x);
        lemma_groups_effect(st1, rest, doc, f, start + 1, u, g, x);
        assert forall|k: int|
            0 <= k < gs.len() && start + k <= u32::MAX && (#[trigger] gs[k]).contains(u) && g == f && x == (
            start + k) as u32 implies has_pos(index_groups(st, gs, doc, f, start).0, u, doc, g, x) by {
            if k > 0 {
                assert(rest[k - 1] == gs[k]);
            }
        }
        if forall|k: int| 0 <= k < gs.len() ==> !(#[trigger] gs[k]).contains(u) {
            assert forall|k: int| 0 <= k < rest.len() implies !(#[trigger] rest[k]).contains(u) by {
                assert(rest[k] == gs[k + 1]);
            }
            assert(!gs[0].contains(u));
        }
    }
}

/// Indexing a new document records each token of each field under that
/// field, at the number of its token group within the field, and gives a
/// term no field of the document in which it has no token: the tokens of
/// the headers are listed under `Headers` only, those of the code under
/// `Code` only, and so on.
pub proof fn lemma_index_doc_fields(
    st: (IndexView, GramView),
    doc: u32,
    title: Seq<Seq<Seq<char>>>,
    headers: Seq<Seq<Seq<char>>>,
    code: Seq<Seq<Seq<char>>>,
    body: Seq<Seq<Seq<char>>>,
    u: Seq<char>,
)
    requires
        ready_new(st.0, doc),
        title.len() <= u32::MAX,
        headers.len() <= u32::MAX,
        code.len() <= u32::MAX,
        body.len() <= u32::MAX,
    ensures
        forall|k: int|
            0 <= k < title.len() && (#[trigger] title[k]).contains(u) ==> has_pos(
                index_doc(st, doc, title, headers, code, body).0,
                u,
                doc,
                Field::Title,
                k as u32,
            ),
        forall|k: int|
            0 <= k < headers.len() && (#[trigger] headers[k]).contains(u) ==> has_pos(
                index_doc(st, doc, title, headers, code, body).0,
                u,
                doc,
                Field::Headers,
                k as u32,
            ),
        forall|k: int|
            0 <= k < code.len() && (#[trigger] code[k]).contains(u) ==> has_pos(
                index_doc(st, doc, title, headers, code, body).0,
                u,
                doc,
                Field::Code,
                k as u32,
            ),
        forall|k: int|
            0 <= k < body.len() && (#[trigger] body[k]).contains(u) ==> has_pos(
                index_doc(st, doc, title, headers, code, body).0,
                u,
                doc,
                Field::Body,
                k as u32,
            ),
        has_field(index_doc(st, doc, title, headers, code, body).0, u, doc, Field::Title) ==> exists|k: int|
            0 <= k < title.len() && (#[trigger] title[k]).contains(u),
        has_field(index_doc(st, doc, title, headers, code, body).0, u, doc, Field::Headers) ==> exists|k: int|
            0 <= k < headers.len() && (#[trigger] headers[k]).contains(u),
        has_field(index_doc(st, doc, title, headers, code, body).0, u, doc, Field::Code) ==> exists|k: int|
            0 <= k < code.len() && (#[trigger] code[k]).contains(u),
        has_field(index_doc(st, doc, title, headers, code, body).0, u, doc, Field::Body) ==> exists|k: int|
            0 <= k < body.len() && (#[trigger] body[k]).contains(u),
{
    let s1 = index_groups(st, title, doc, Field::Title, 0);
    let s2 = index_groups(s1, headers, doc, Field::Headers, 0);
    let s3 = index_groups(s2, code, doc, Field::Code, 0);
    let s4 = index_groups(s3, body, doc, Field::Body, 0);
    lemma_field_recorded(st, s1, s2, s3, s4, doc, title, headers, code, body, u);
    lemma_field_absent(st, s1, s2, s3, s4, doc, title, headers, code, body, u, Field::Title);
    lemma_field_absent(st, s1, s2, s3, s4, doc, title, headers, code, body, u, Field::Headers);
    lemma_field_absent(st, s1, s2, s3, s4, doc, title, headers, code, body, u, Field::Code);
    lemma_field_absent(st, s1, s2, s3, s4, doc, title, headers, code, body, u, Field::Body);
}

proof fn lemma_field_recorded(
    st: (IndexView, GramView),
    s1: (IndexView, GramView),
    s2: (IndexView, GramView),
    s3: (IndexView, GramView),
    s4: (IndexView, GramView),
    doc: u32,
    title: Seq<Seq<Seq<char>>>,
    headers: Seq<Seq<Seq<char>>>,
    code: Seq<Seq<Seq<char>>>,
    body: Seq<Seq<Seq<char>>>,
    u: Seq<char>,
)
    requires
        s1 == index_groups(st, title, doc, Field::Title, 0),
        s2 == index_groups(s1, headers, doc, Field::Headers, 0),
        s3 == index_groups(s2, code, doc, Field::Code, 0),
        s4 == index_groups(s3, body, doc, Field::Body, 0),
        title.len() <= u32::MAX,
        headers.len() <= u32::MAX,
        code.len() <= u32::MAX,
        body.len() <= u32::MAX,
    ensures
        forall|k: int| 0 <= k < title.len() && (#[trigger] title[k]).contains(u) ==> has_pos(s4.0, u, doc, Field::Title, k as u32),
        forall|k: int| 0 <= k < headers.len() && (#[trigger] headers[k]).contains(u) ==> has_pos(s4.0, u, doc, Field::Headers, k as u32),
        forall|k: int| 0 <= k < code.len() && (#[trigger] code[k]).contains(u) ==> has_pos(s4.0, u, doc, Field::Code, k as u32),
        forall|k: int| 0 <= k < body.len() && (#[trigger] body[k]).contains(u) ==> has_pos(s4.0, u, doc, Field::Body, k as u32),
{
    assert forall|k: int| 0 <= k < title.len() && (#[trigger] title[k]).contains(u) implies has_pos(s4.0, u, doc, Field::Title, k as u32) by {
        let x = k as u32;
        lemma_groups_effect(st, title, doc, Field::Title, 0, u, Field::Title, x);
        lemma_groups_effect(s1, headers, doc, Field::Headers, 0, u, Field::Title, x);
        lemma_groups_effect(s2, code, doc, Field::Code, 0, u, Field::Title, x);
        lemma_groups_effect(s3, body, doc, Field::Body, 0, u, Field::Title, x);
    }
    assert forall|k: int| 0 <= k < headers.len() && (#[trigger] headers[k]).contains(u) implies has_pos(s4.0, u, doc, Field::Headers, k as u32) by {
        let x = k as u32;
        lemma_groups_effect(s1, headers, doc, Field::Headers, 0, u, Field::Headers, x);
        lemma_groups_effect(s2, code, doc, Field::Code, 0, u, Field::Headers, x);
        lemma_groups_effect(s3, body, doc, Field::Body, 0, u, Field::Headers, x);
    }
    assert forall|k: int| 0 <= k < code.len() && (#[trigger] code[k]).contains(u) implies has_pos(s4.0, u, doc, Field::Code, k as u32) by {
        let x = k as u32;
        lemma_groups_effect(s2, code, doc, Field::Code, 0, u, Field::Code, x);
        lemma_groups_effect(s3, body, doc, Field::Body, 0, u, Field::Code, x);
    }
    assert forall|k: int| 0 <= k < body.len() && (#[trigger] body[k]).contains(u) implies has_pos(s4.0, u, doc, Field::Body, k as u32) by {
        let x = k as u32;
        lemma_groups_effect(s3, body, doc, Field::Body, 0, u, Field::Body, x);
    }
}

proof fn lemma_field_absent(
    st: (IndexView, GramView),
    s1: (IndexView, GramView),
    s2: (IndexView, GramView),
    s3: (IndexView, GramView),
    s4: (IndexView, GramView),
    doc: u32,
    title: Seq<Seq<Seq<char>>>,
    headers: Seq<Seq<Seq<char>>>,
    code: Seq<Seq<Seq<char>>>,
    body: Seq<Seq<Seq<char>>>,
    u: Seq<char>,
    g: Field,
)
    requires
        ready_new(st.0, doc),
        s1 == index_groups(st, title, doc, Field::Title, 0),
        s2 == index_groups(s1, headers, doc, Field::Headers, 0),
        s3 == index_groups(s2, code, doc, Field::Code, 0),
        s4 == index_groups(s3, body, doc, Field::Body, 0),
    ensures
        g == Field::Title && has_field(s4.0, u, doc, g) ==> exists|k: int| 0 <= k < title.len() && (#[trigger] title[k]).contains(u),
        g == Field::Headers && has_field(s4.0, u, doc, g) ==> exists|k: int| 0 <= k < headers.len() && (#[trigger] headers[k]).contains(u),
        g == Field::Code && has_field(s4.0, u, doc, g) ==> exists|k: int| 0 <= k < code.len() && (#[trigger] code[k]).contains(u),
        g == Field::Body && has_field(s4.0, u, doc, g) ==> exists|k: int| 0 <= k < body.len() && (#[trigger] body[k]).contains(u),
{
    assert(!has_field(st.0, u, doc, g)) by {
        if st.0.contains_key(u) && st.0[u].len() > 0 {
            assert(st.0[u].last().0 < doc);
        }
    }
    lemma_groups_effect(st, title, doc, Field::Title, 0, u, g, 0);
    lemma_groups_effect(s1, headers, doc, Field::Headers, 0, u, g, 0);
    lemma_groups_effect(s2, code, doc, Field::Code, 0, u, g, 0);
    lemma_groups_effect(s3, body, doc, Field::Body, 0, u, g, 0);
}

/// Documents per block: the in-memory index is written out as a block
/// before every document whose predecessor's id is a multiple of this.
pub const BLOCK_DOCS: u32 = 4000;

/// The number of the block to write before the document that follows
/// document `doc_id`, where one is due.
pub open spec fn block_due(doc_id: u32) -> Option<u32> {
    if doc_id > 0 && doc_id % BLOCK_DOCS == 0 {
        Some((doc_id / BLOCK_DOCS) as u32)
    } else {
        None
    }
}

/// Blocks fall due at every positive multiple of `BLOCK_DOCS` and nowhere
/// else: with `n` full blocks' worth of documents and `r` more, a block is
/// due exactly when `r` is 0 and `n` is positive, and it is block `n`.
pub proof fn lemma_block_due_every_multiple(n: u32, r: u32)
    requires
        r < BLOCK_DOCS,
        n * BLOCK_DOCS + r <= u32::MAX,
    ensures
        block_due((n * BLOCK_DOCS + r) as u32) == if n > 0 && r == 0 {
            Some(n)
        } else {
            None::<u32>
        },
{
    let d = n * BLOCK_DOCS + r;
    assert(d % 4000 == r && d / 4000 == n) by (nonlinear_arith)
        requires
            d == n * 4000 + r,
            0 <= r < 4000,
            0 <= n,
    {
        vstd::arithmetic::div_mod::lemma_fundamental_div_mod_converse(d, 4000, n as int, r as int);
    }
}

/// Builds the index document by document, in blocks: the in-memory block
/// index, the trigram index of the terms seen, and the last document id
/// given out.
pub struct Indexer {
    index_map: BlockIndex,
    gram_index: GramIndex,
    doc_id: u32,
}

impl Indexer {
    /// The block index is well-formed and lists no document after the last
    /// one given out; the trigram lists have no repeats.
    pub closed spec fn wf(&self) -> bool {
        &&& block_wf(&self.index_map)
        &&& self.gram_index.wf()
        &&& docs_upto(block_map(&self.index_map), self.doc_id)
        &&& lists_distinct(gram_map(&self.gram_index))
    }

    /// The in-memory block as a map from term to its documents.
    pub closed spec fn blocks(&self) -> IndexView {
        block_map(&self.index_map)
    }

    /// The in-memory block's entries, in term order.
    pub closed spec fn block_entries(&self) -> BlockEntries {
        block_view(self.index_map@)
    }

    /// The trigram index as a map from trigram to its terms.
    pub closed spec fn grams(&self) -> GramView {
        gram_map(&self.gram_index)
    }

    /// The last document id given out (0 before the first document).
    pub closed spec fn last_doc(&self) -> u32 {
        self.doc_id
    }

    /// No document yet, empty indexes.
    pub fn new() -> (res: Indexer)
        ensures
            res.wf(),
            res.blocks() == Map::<Seq<char>, DocList>::empty(),
            res.block_entries() == Seq::<(Seq<char>, DocList)>::empty(),
            res.grams() == Map::<Seq<char>, Seq<Seq<char>>>::empty(),
            res.last_doc() == 0,
    {
        let res = Indexer { index_map: TermMap::new(), gram_index: TermMap::new(), doc_id: 0 };
        proof {
            Self::lemma_empty_maps(&res);
        }
        res
    }

    proof fn lemma_empty_maps(r: &Indexer)
        requires
            r.index_map@ == Seq::<(Seq<char>, Postings)>::empty(),
            r.gram_index@ == Seq::<(Seq<char>, Vec<String>)>::empty(),
        ensures
            block_map(&r.index_map) == Map::<Seq<char>, DocList>::empty(),
            block_view(r.index_map@) == Seq::<(Seq<char>, DocList)>::empty(),
            gram_map(&r.gram_index) == Map::<Seq<char>, Seq<Seq<char>>>::empty(),
            docs_upto(block_map(&r.index_map), r.doc_id),
            lists_distinct(gram_map(&r.gram_index)),
    {
        assert(entries_map(r.index_map@).dom() =~= Set::<Seq<char>>::empty());
        assert(block_map(&r.index_map) =~= Map::<Seq<char>, DocList>::empty());
        assert(block_view(r.index_map@) =~= Seq::<(Seq<char>, DocList)>::empty());
        assert(entries_map(r.gram_index@).dom() =~= Set::<Seq<char>>::empty());
        assert(gram_map(&r.gram_index) =~= Map::<Seq<char>, Seq<Seq<char>>>::empty());
    }

    /// A block that the indexer hands back decodes to the in-memory index
    /// it was encoded from, where its counts fit the format.
    pub proof fn lemma_block_decodes(&self)
        requires
            self.wf(),
            block_counts_fit(self.block_entries()),
        ensures
            parse_block(block_bytes(self.block_entries())) is Some,
            entries_to_map(parse_block(block_bytes(self.block_entries())).unwrap()) == self.blocks(),
    {
        lemma_block_index_roundtrip(&self.index_map);
    }

    /// The last document id given out.
    pub fn doc_id(&self) -> (res: u32)
        ensures
            res == self.last_doc(),
    {
        self.doc_id
    }

    /// Index the next document, whose fields hold the token groups `tokens`.
    /// When the previous document's id is a positive multiple of
    /// `BLOCK_DOCS`, the in-memory block is first encoded, handed back with
    /// its number to be written, and cleared. Returns the new document's id,
    /// its per-field token counts and the block to write, if any.
    pub fn add_document(&mut self, tokens: &FieldTokens) -> (res: (u32, DocStats, Option<(u32, Vec<u8>)>))
        requires
            old(self).wf(),
            old(self).last_doc() < u32::MAX,
            tokens.title@.len() <= u32::MAX,
            tokens.headers@.len() <= u32::MAX,
            tokens.code@.len() <= u32::MAX,
            tokens.body@.len() <= u32::MAX,
        ensures
            final(self).wf(),
            res.0 == old(self).last_doc() + 1,
            final(self).last_doc() == res.0,
            res.2 is Some <==> block_due(old(self).last_doc()) is Some,
            res.2 matches Some(b) ==> b.0 == block_due(old(self).last_doc()).unwrap() && b.1@ == block_bytes(
                old(self).block_entries(),
            ),
            (final(self).blocks(), final(self).grams()) == index_doc(
                (
                    if res.2 is Some {
                        Map::<Seq<char>, DocList>::empty()
                    } else {
                        old(self).blocks()
                    },
                    old(self).grams(),
                ),
                res.0,
                groups_view(tokens.title@),
                groups_view(tokens.headers@),
                groups_view(tokens.code@),
                groups_view(tokens.body@),
            ),
            res.1.len_title == (flatten_groups(groups_view(tokens.title@)).len() as u32),
            res.1.len_headers == (flatten_groups(groups_view(tokens.headers@)).len() as u32),
            res.1.len_code == (flatten_groups(groups_view(tokens.code@)).len() as u32),
            res.1.len_body == (flatten_groups(groups_view(tokens.body@)).len() as u32),
    {
        let mut flushed: Option<(u32, Vec<u8>)> = None;
        if self.doc_id > 0 && self.doc_id % BLOCK_DOCS == 0 {
            let bytes = serialize_block(&self.index_map);
            flushed = Some((self.doc_id / BLOCK_DOCS, bytes));
            self.index_map = TermMap::new();
            proof {
                assert(entries_map(self.index_map@).dom() =~= Set::<Seq<char>>::empty());
                assert(block_map(&self.index_map) =~= Map::<Seq<char>, DocList>::empty());
            }
        }
        self.doc_id = self.doc_id + 1;
        let doc = self.doc_id;
        proof {
            let m = block_map(&self.index_map);
            assert forall|t: Seq<char>| #[trigger] m.contains_key(t) && m[t].len() > 0 implies m[t].last().0
                < doc by {}
        }
        let stats = index_document(&mut self.index_map, &mut self.gram_index, doc, tokens);
        (doc, stats, flushed)
    }

    /// End indexing: the in-memory block, if it holds any term, encoded with
    /// its number (one past the last full block); and the trigram index.
    pub fn finish(self) -> (res: (Option<(u32, Vec<u8>)>, GramIndex))
        requires
            self.wf(),
        ensures
            res.0 is Some <==> self.block_entries().len() > 0,
            res.0 matches Some(b) ==> b.0 == ((self.last_doc() / BLOCK_DOCS) + 1) as u32 && b.1@
                == block_bytes(self.block_entries()),
            res.1.wf(),
            gram_map(&res.1) == self.grams(),
            lists_distinct(gram_map(&res.1)),
    {
        let last = if self.index_map.len() > 0 {
            Some((self.doc_id / BLOCK_DOCS + 1, serialize_block(&self.index_map)))
        } else {
            None
        };
        (last, self.gram_index)
    }
}

} // verus!
