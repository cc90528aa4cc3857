//! The term dictionary and the k-way merge of sorted blocks into one
//! contiguous postings file.

use vstd::prelude::*;
use crate::encode_decode::{
    entries_to_map, field_counts_fit, lemma_entries_to_map, lemma_postings_roundtrip, parse_postings,
    positions_sorted, postings_bytes, serialize_postings, BlockEntries, BlockReader, Field,
};
use crate::postings::{doc_map, ids_increasing, lemma_doc_map_entries, merge_postings, DocList, Postings};
use crate::term_map::{entries_map, has_term, terms_sorted, TermMap};
use crate::text::{
    chars_less, chars_lt, lemma_chars_lt_irreflexive, lemma_chars_lt_total, lemma_chars_lt_transitive,
    str_chars,
};

verus! {

/// Where a term's postings lie in the merged postings file, and in how many
/// documents the term occurs.
#[derive(Debug, Clone, Copy, PartialEq, Eq)]
pub struct TermEntry {
    pub offset: u64,
    pub length: u64,
    pub doc_freq: u32,
}

/// The term dictionary: term -> where its postings lie.
pub type TermIndex = TermMap<TermEntry>;

/// The entries that each reader has still to give.
pub open spec fn reader_views(rs: Seq<BlockReader>) -> Seq<BlockEntries> {
    rs.map_values(|r: BlockReader| r@)
}

/// Every block lists its terms in strictly increasing order, as blocks are
/// written.
pub open spec fn blocks_sorted(bs: Seq<BlockEntries>) -> bool {
    forall|i: int| 0 <= i < bs.len() ==> terms_sorted(#[trigger] bs[i])
}

/// The terms that some block lists.
pub open spec fn block_terms(bs: Seq<BlockEntries>) -> Set<Seq<char>> {
    Set::new(|t: Seq<char>| exists|i: int| 0 <= i < bs.len() && has_term(#[trigger] bs[i], t))
}

/// All documents that the blocks list under term `t`, block after block;
/// where two blocks list the same document, the later block's fields are
/// kept.
pub open spec fn merged_docs(bs: Seq<BlockEntries>, t: Seq<char>) -> Map<u32, Map<Field, Seq<u32>>>
    decreases bs.len(),
{
    if bs.len() == 0 {
        Map::empty()
    } else {
        let prev = merged_docs(bs.drop_last(), t);
        let m = entries_to_map(bs.last());
        if m.contains_key(t) {
            prev.union_prefer_right(doc_map(m[t]))
        } else {
            prev
        }
    }
}

/// `d` lists exactly the documents of `m`, in increasing id order.
pub open spec fn lists_docs(d: DocList, m: Map<u32, Map<Field, Seq<u32>>>) -> bool {
    ids_increasing(d) && doc_map(d) == m
}

/// The range of `e` lies in `postings` and holds the encoding of the
/// documents `m` in increasing id order, and `e` counts them.
pub open spec fn entry_holds(postings: Seq<u8>, e: TermEntry, m: Map<u32, Map<Field, Seq<u32>>>) -> bool {
    &&& e.offset + e.length <= postings.len()
    &&& exists|d: DocList|
        #[trigger] lists_docs(d, m) && positions_sorted(d) && postings_bytes(d) == postings.subrange(
            e.offset as int,
            e.offset + e.length,
        ) && e.doc_freq == d.len() as u32
}

/// The ranges of the entries follow one another, in term order, from the
/// start of a file of `len` bytes to its end.
pub open spec fn ranges_contiguous(e: Seq<(Seq<char>, TermEntry)>, len: int) -> bool {
    &&& forall|i: int|
        0 <= i < e.len() ==> (#[trigger] e[i]).1.offset == if i == 0 {
            0
        } else {
            e[i - 1].1.offset + e[i - 1].1.length
        }
    &&& len == if e.len() == 0 {
        0
    } else {
        e.last().1.offset + e.last().1.length
    }
}

/// The entry that a reader's current head holds.
spec fn head_view(h: Option<(String, Postings)>) -> Option<(Seq<char>, DocList)> {
    match h {
        Some(x) => Some((x.0@, x.1@)),
        None => None,
    }
}

/// Reader `i` has given the first `pos[i]` entries of block `i` and holds
/// the next one, if any, as its head.
spec fn sources_ok(
    bs: Seq<BlockEntries>,
    readers: Seq<BlockReader>,
    heads: Seq<Option<(String, Postings)>>,
    pos: Seq<int>,
) -> bool {
    &&& readers.len() == bs.len()
    &&& heads.len() == bs.len()
    &&& pos.len() == bs.len()
    &&& forall|i: int| 0 <= i < bs.len() ==> 0 <= #[trigger] pos[i] <= bs[i].len()
    &&& forall|i: int| 0 <= i < bs.len() ==> (#[trigger] readers[i]).wf()
    &&& forall|i: int| 0 <= i < bs.len() ==> ((#[trigger] heads[i]) is Some <==> pos[i] < bs[i].len())
    &&& forall|i: int|
        0 <= i < bs.len() && pos[i] < bs[i].len() ==> head_view(#[trigger] heads[i]) == Some(
            bs[i][pos[i]],
        ) && readers[i]@ == bs[i].skip(pos[i] + 1)
    &&& forall|i: int|
        0 <= i < bs.len() ==> (#[trigger] heads[i] matches Some(h) ==> h.1.wf() && positions_sorted(
            h.1@,
        ))
}

/// Some reader has already given an entry with term `t`.
spec fn consumed(bs: Seq<BlockEntries>, pos: Seq<int>, t: Seq<char>) -> bool {
    exists|i: int, j: int| 0 <= i < bs.len() && 0 <= j < pos[i] && #[trigger] bs[i][j].0 == t
}

/// `t` comes before every head.
spec fn below_heads(bs: Seq<BlockEntries>, pos: Seq<int>, t: Seq<char>) -> bool {
    forall|i: int| 0 <= i < bs.len() && pos[i] < bs[i].len() ==> chars_lt(t, #[trigger] bs[i][pos[i]].0)
}

/// The dictionary holds exactly the terms given so far, each with its
/// complete merged postings, laid out one after another.
spec fn merge_state_ok(bs: Seq<BlockEntries>, pos: Seq<int>, ti: Seq<(Seq<char>, TermEntry)>, out: Seq<u8>) -> bool {
    &&& forall|k: Seq<char>| #[trigger] has_term(ti, k) <==> consumed(bs, pos, k)
    &&& forall|k: Seq<char>| #[trigger] consumed(bs, pos, k) ==> below_heads(bs, pos, k)
    &&& forall|n: int| 0 <= n < ti.len() ==> entry_holds(out, (#[trigger] ti[n]).1, merged_docs(bs, ti[n].0))
    &&& ranges_contiguous(ti, out.len() as int)
}

/// Entries that the readers have still to give, all blocks together.
spec fn left(bs: Seq<BlockEntries>, pos: Seq<int>, n: nat) -> int
    decreases n,
{
    if n == 0 {
        0
    } else {
        left(bs, pos, (n - 1) as nat) + (bs[n - 1].len() - pos[n - 1])
    }
}

proof fn lemma_left_decreases(bs: Seq<BlockEntries>, p1: Seq<int>, p2: Seq<int>, b: int, n: nat)
    requires
        n <= bs.len(),
        p1.len() == bs.len(),
        p2.len() == bs.len(),
        forall|i: int| 0 <= i < bs.len() ==> #[trigger] p1[i] <= #[trigger] p2[i] <= bs[i].len(),
    ensures
        0 <= left(bs, p2, n) <= left(bs, p1, n),
        0 <= b < n && p1[b] < p2[b] ==> left(bs, p2, n) < left(bs, p1, n),
    decreases n,
{
    if n > 0 {
        assert(p1[n - 1] <= p2[n - 1] <= bs[n - 1].len());
        lemma_left_decreases(bs, p1, p2, b, (n - 1) as nat);
    }
}

/// The index of a head with the smallest term (the first such), or `None`
/// when every reader is exhausted.
fn find_smallest(heads: &Vec<Option<(String, Postings)>>) -> (res: Option<usize>)
    ensures
        res is None ==> forall|j: int| 0 <= j < heads@.len() ==> (#[trigger] heads@[j]) is None,
        res matches Some(b) ==> {
            &&& b < heads@.len()
            &&& heads@[b as int] is Some
            &&& forall|j: int|
                0 <= j < heads@.len() && (#[trigger] heads@[j]) is Some ==> !chars_lt(
                    heads@[j].unwrap().0@,
                    heads@[b as int].unwrap().0@,
                )
        },
{
    let mut best: Option<usize> = None;
    let mut best_chars: Vec<char> = Vec::new();
    let mut i: usize = 0;
    while i < heads.len()
        invariant
            i <= heads@.len(),
            best is None ==> forall|j: int| 0 <= j < i ==> (#[trigger] heads@[j]) is None,
            best matches Some(b) ==> {
                &&& b < i
                &&& heads@[b as int] is Some
                &&& best_chars@ == heads@[b as int].unwrap().0@
                &&& forall|j: int|
                    0 <= j < i && (#[trigger] heads@[j]) is Some ==> !chars_lt(heads@[j].unwrap().0@, best_chars@)
            },
        decreases heads@.len() - i,
    {
        match &heads[i] {
            Some(h) => {
                let c = str_chars(h.0.as_str());
                if best.is_none() || chars_less(&c, &best_chars) {
                    proof {
                        if best is Some {
                            assert forall|j: int|
                                0 <= j < i && (#[trigger] heads@[j]) is Some implies !chars_lt(
                                heads@[j].unwrap().0@,
                                c@,
                            ) by {
                                if chars_lt(heads@[j].unwrap().0@, c@) {
                                    lemma_chars_lt_transitive(heads@[j].unwrap().0@, c@, best_chars@);
                                }
                            }
                        }
                        lemma_chars_lt_irreflexive(c@);
                    }
                    best = Some(i);
                    best_chars = c;
                }
            },
            None => {},
        }
        i = i + 1;
    }
    best
}

/// Take from every reader whose head has term `s` its postings, merged in
/// reader order, and advance it.
fn take_term(
    readers: &mut Vec<BlockReader>,
    heads: &mut Vec<Option<(String, Postings)>>,
    s: &String,
    Ghost(bs): Ghost<Seq<BlockEntries>>,
    Ghost(pos0): Ghost<Seq<int>>,
) -> (res: (Postings, Ghost<Seq<int>>))
    requires
        sources_ok(bs, old(readers)@, old(heads)@, pos0),
        forall|j: int|
            0 <= j < bs.len() && pos0[j] < bs[j].len() ==> !chars_lt(#[trigger] bs[j][pos0[j]].0, s@),
        blocks_sorted(bs) ==> !consumed(bs, pos0, s@),
    ensures
        sources_ok(bs, final(readers)@, final(heads)@, res.1@),
        forall|j: int|
            0 <= j < bs.len() ==> (#[trigger] res.1@[j] == pos0[j] || (res.1@[j] == pos0[j] + 1
                && pos0[j] < bs[j].len() && bs[j][pos0[j]].0 == s@)),
        forall|j: int|
            0 <= j < bs.len() && pos0[j] < bs[j].len() && #[trigger] bs[j][pos0[j]].0 == s@ ==> res.1@[j]
                == pos0[j] + 1,
        res.0.wf(),
        positions_sorted(res.0@),
        blocks_sorted(bs) ==> doc_map(res.0@) == merged_docs(bs, s@),
{
    let ghost mut pos = pos0;
    let mut merged = Postings::new();
    let mut i: usize = 0;
    assert(bs.take(0) =~= Seq::<BlockEntries>::empty());
    while i < heads.len()
        invariant
            sources_ok(bs, readers@, heads@, pos),
            i <= bs.len(),
            forall|j: int|
                0 <= j < bs.len() && pos0[j] < bs[j].len() ==> !chars_lt(#[trigger] bs[j][pos0[j]].0, s@),
            blocks_sorted(bs) ==> !consumed(bs, pos0, s@),
            pos0.len() == bs.len(),
            forall|j: int| i <= j < bs.len() ==> #[trigger] pos[j] == pos0[j],
            forall|j: int|
                0 <= j < i ==> (#[trigger] pos[j] == pos0[j] || (pos[j] == pos0[j] + 1 && pos0[j]
                    < bs[j].len() && bs[j][pos0[j]].0 == s@)),
            forall|j: int|
                0 <= j < i && pos0[j] < bs[j].len() && #[trigger] bs[j][pos0[j]].0 == s@ ==> pos[j]
                    == pos0[j] + 1,
            merged.wf(),
            positions_sorted(merged@),
            blocks_sorted(bs) ==> doc_map(merged@) == merged_docs(bs.take(i as int), s@),
        decreases bs.len() - i,
    {
        let ghost ii = i as int;
        let take = match &heads[i] {
            Some(h) => h.0 == *s,
            None => false,
        };
        assert(bs.take(ii + 1).drop_last() =~= bs.take(ii));
        assert(bs.take(ii + 1).last() == bs[ii]);
        if take {
            let mut h: Option<(String, Postings)> = None;
            std::mem::swap(&mut h, &mut heads[i]);
            let (_, p) = h.unwrap();
            assert(p@ == bs[ii][pos0[ii]].1);
            proof {
                if blocks_sorted(bs) {
                    lemma_entries_to_map(bs[ii]);
                    assert(bs[ii][pos0[ii]].0 == s@);
                    assert(entries_to_map(bs[ii])[s@] == p@);
                }
            }
            merged = merge_postings(merged, p);
            let nxt = readers[i].next_entry();
            heads.set(i, nxt);
            proof {
                pos = pos.update(ii, pos0[ii] + 1);
                if pos0[ii] + 1 < bs[ii].len() {
                    assert(bs[ii].skip(pos0[ii] + 1).drop_first() =~= bs[ii].skip(pos0[ii] + 2));
                    assert(bs[ii].skip(pos0[ii] + 1)[0] == bs[ii][pos0[ii] + 1]);
                }
            }
        } else {
            proof {
                if blocks_sorted(bs) {
                    lemma_entries_to_map(bs[ii]);
                    if has_term(bs[ii], s@) {
                        let j = choose|j: int| 0 <= j < bs[ii].len() && #[trigger] bs[ii][j].0 == s@;
                        if j < pos0[ii] {
                            assert(consumed(bs, pos0, s@));
                        } else if j == pos0[ii] {
                            assert(head_view(heads@[ii]) == Some(bs[ii][pos0[ii]]));
                        } else {
                            assert(terms_sorted(bs[ii]));
                            assert(chars_lt(bs[ii][pos0[ii]].0, bs[ii][j].0));
                        }
                    }
                }
            }
        }
        i = i + 1;
    }
    assert(bs.take(bs.len() as int) =~= bs);
    (merged, Ghost(pos))
}

/// Every term in the dictionary comes before the smallest head `s`.
proof fn lemma_terms_below(
    bs: Seq<BlockEntries>,
    pos: Seq<int>,
    ti: Seq<(Seq<char>, TermEntry)>,
    out: Seq<u8>,
    s: Seq<char>,
    b: int,
)
    requires
        merge_state_ok(bs, pos, ti, out),
        0 <= b < bs.len(),
        pos.len() == bs.len(),
        pos[b] < bs[b].len(),
        bs[b][pos[b]].0 == s,
    ensures
        forall|j: int| 0 <= j < ti.len() ==> chars_lt(#[trigger] ti[j].0, s),
        !consumed(bs, pos, s),
{
    assert forall|j: int| 0 <= j < ti.len() implies chars_lt(#[trigger] ti[j].0, s) by {
        assert(has_term(ti, ti[j].0));
        assert(below_heads(bs, pos, ti[j].0));
    }
    if consumed(bs, pos, s) {
        assert(below_heads(bs, pos, s));
        assert(chars_lt(s, bs[b][pos[b]].0));
        lemma_chars_lt_irreflexive(s);
    }
}

/// One step of the merge keeps the dictionary and the file in step with
/// the readers.
proof fn lemma_merge_step(
    bs: Seq<BlockEntries>,
    pos0: Seq<int>,
    pos1: Seq<int>,
    ti0: Seq<(Seq<char>, TermEntry)>,
    out0: Seq<u8>,
    s: Seq<char>,
    b: int,
    d: DocList,
    entry: TermEntry,
)
    requires
        blocks_sorted(bs),
        merge_state_ok(bs, pos0, ti0, out0),
        pos0.len() == bs.len(),
        pos1.len() == bs.len(),
        forall|j: int| 0 <= j < bs.len() ==> 0 <= #[trigger] pos0[j] <= bs[j].len(),
        forall|j: int| 0 <= j < bs.len() ==> #[trigger] pos1[j] <= bs[j].len(),
        0 <= b < bs.len(),
        pos0[b] < bs[b].len(),
        bs[b][pos0[b]].0 == s,
        forall|j: int|
            0 <= j < bs.len() && pos0[j] < bs[j].len() ==> !chars_lt(#[trigger] bs[j][pos0[j]].0, s),
        forall|j: int|
            0 <= j < bs.len() ==> (#[trigger] pos1[j] == pos0[j] || (pos1[j] == pos0[j] + 1 && pos0[j]
                < bs[j].len() && bs[j][pos0[j]].0 == s)),
        forall|j: int|
            0 <= j < bs.len() && pos0[j] < bs[j].len() && #[trigger] bs[j][pos0[j]].0 == s ==> pos1[j]
                == pos0[j] + 1,
        lists_docs(d, merged_docs(bs, s)),
        positions_sorted(d),
        entry.offset == out0.len(),
        entry.length == postings_bytes(d).len(),
        entry.doc_freq == d.len() as u32,
    ensures
        merge_state_ok(bs, pos1, ti0.push((s, entry)), out0 + postings_bytes(d)),
{
    let ti1 = ti0.push((s, entry));
    let out1 = out0 + postings_bytes(d);
    lemma_terms_below(bs, pos0, ti0, out0, s, b);
    assert forall|k: Seq<char>| consumed(bs, pos1, k) <==> (consumed(bs, pos0, k) || k == s) by {
        if consumed(bs, pos0, k) {
            let (i, j) = choose|i: int, j: int|
                0 <= i < bs.len() && 0 <= j < pos0[i] && #[trigger] bs[i][j].0 == k;
            assert(pos0[i] <= pos1[i]);
            assert(consumed(bs, pos1, k));
        }
        if k == s {
            assert(bs[b][pos0[b]].0 == s);
            assert(pos1[b] == pos0[b] + 1);
            assert(consumed(bs, pos1, k));
        }
        if consumed(bs, pos1, k) {
            let (i, j) = choose|i: int, j: int|
                0 <= i < bs.len() && 0 <= j < pos1[i] && #[trigger] bs[i][j].0 == k;
            if j < pos0[i] {
                assert(consumed(bs, pos0, k));
            } else {
                assert(pos1[i] == pos0[i] + 1);
            }
        }
    }
    assert forall|k: Seq<char>| #[trigger] has_term(ti1, k) <==> consumed(bs, pos1, k) by {
        if has_term(ti1, k) {
            let j = choose|j: int| 0 <= j < ti1.len() && #[trigger] ti1[j].0 == k;
            if j < ti0.len() {
                assert(ti0[j].0 == k);
                assert(has_term(ti0, k));
            }
        }
        if has_term(ti0, k) {
            let j = choose|j: int| 0 <= j < ti0.len() && #[trigger] ti0[j].0 == k;
            assert(ti1[j].0 == k);
        }
        if k == s {
            assert(ti1[ti0.len() as int].0 == k);
        }
    }
    assert forall|k: Seq<char>| #[trigger] consumed(bs, pos1, k) implies below_heads(bs, pos1, k) by {
        assert forall|i: int| 0 <= i < bs.len() && pos1[i] < bs[i].len() implies chars_lt(
            k,
            #[trigger] bs[i][pos1[i]].0,
        ) by {
            let h0 = bs[i][pos0[i]].0;
            let h1 = bs[i][pos1[i]].0;
            assert(terms_sorted(bs[i]));
            if k == s {
                if pos1[i] == pos0[i] + 1 {
                    assert(chars_lt(bs[i][pos0[i]].0, h1));
                } else {
                    assert(!chars_lt(h0, s));
                    if h0 == s {
                        assert(pos1[i] == pos0[i] + 1);
                    }
                    lemma_chars_lt_total(h0, s);
                }
            } else {
                assert(consumed(bs, pos0, k));
                assert(below_heads(bs, pos0, k));
                assert(chars_lt(k, h0));
                if pos1[i] == pos0[i] + 1 {
                    assert(chars_lt(h0, h1));
                    lemma_chars_lt_transitive(k, h0, h1);
                }
            }
        }
    }
    assert forall|n: int| 0 <= n < ti1.len() implies entry_holds(
        out1,
        (#[trigger] ti1[n]).1,
        merged_docs(bs, ti1[n].0),
    ) by {
        if n < ti0.len() {
            let e = ti0[n].1;
            assert(ti1[n] == ti0[n]);
            assert(entry_holds(out0, e, merged_docs(bs, ti0[n].0)));
            let d0 = choose|d0: DocList|
                #[trigger] lists_docs(d0, merged_docs(bs, ti0[n].0)) && positions_sorted(d0) && postings_bytes(d0)
                    == out0.subrange(e.offset as int, e.offset + e.length) && e.doc_freq == d0.len() as u32;
            assert(out1.subrange(e.offset as int, e.offset + e.length) =~= out0.subrange(
                e.offset as int,
                e.offset + e.length,
            ));
            assert(lists_docs(d0, merged_docs(bs, ti1[n].0)));
        } else {
            assert(out1.subrange(entry.offset as int, entry.offset + entry.length) =~= postings_bytes(d));
            assert(lists_docs(d, merged_docs(bs, ti1[n].0)));
        }
    }
    assert forall|i: int| 0 <= i < ti1.len() implies (#[trigger] ti1[i]).1.offset == if i == 0 {
        0
    } else {
        ti1[i - 1].1.offset + ti1[i - 1].1.length
    } by {
        if i < ti0.len() {
            assert(ti1[i] == ti0[i]);
            if i > 0 {
                assert(ti1[i - 1] == ti0[i - 1]);
            }
        } else if i > 0 {
            assert(ti1[i - 1] == ti0[i - 1]);
        }
    }
}

/// Merge the blocks that `readers` read into one postings file. Terms are
/// taken in increasing order; the postings of a term are those of every
/// block that lists it, merged block after block (a later block's fields for
/// a document replace an earlier one's), and are written one term after the
/// other. Returns the file's bytes and the dictionary that tells, for each
/// term, the range of its postings and its number of documents.
pub fn merge_index_map(readers: Vec<BlockReader>) -> (res: (Vec<u8>, TermIndex))
    requires
        forall|i: int| 0 <= i < readers@.len() ==> (#[trigger] readers@[i]).wf(),
    ensures
        res.1.wf(),
        forall|n: int|
            0 <= n < res.1@.len() ==> (#[trigger] res.1@[n]).1.offset + res.1@[n].1.length <= res.0@.len(),
        blocks_sorted(reader_views(readers@)) ==> {
            &&& entries_map(res.1@).dom() == block_terms(reader_views(readers@))
            &&& forall|n: int|
                0 <= n < res.1@.len() ==> entry_holds(
                    res.0@,
                    (#[trigger] res.1@[n]).1,
                    merged_docs(reader_views(readers@), res.1@[n].0),
                )
            &&& ranges_contiguous(res.1@, res.0@.len() as int)
        },
{
    let ghost bs = reader_views(readers@);
    let ghost r0 = readers@;
    let mut readers = readers;
    let mut heads: Vec<Option<(String, Postings)>> = Vec::new();
    let ghost mut pos: Seq<int> = Seq::empty();
    let mut i: usize = 0;
    while i < readers.len()
        invariant
            bs == reader_views(r0),
            readers@.len() == bs.len(),
            i <= bs.len(),
            heads@.len() == i,
            pos.len() == i,
            forall|j: int| i <= j < bs.len() ==> #[trigger] readers@[j] == r0[j],
            forall|j: int| 0 <= j < bs.len() ==> (#[trigger] r0[j]).wf(),
            forall|j: int| 0 <= j < i ==> #[trigger] pos[j] == 0,
            forall|j: int| 0 <= j < i ==> (#[trigger] readers@[j]).wf(),
            forall|j: int| 0 <= j < i ==> ((#[trigger] heads@[j]) is Some <==> 0 < bs[j].len()),
            forall|j: int|
                0 <= j < i && 0 < bs[j].len() ==> head_view(#[trigger] heads@[j]) == Some(bs[j][0])
                    && readers@[j]@ == bs[j].skip(1),
            forall|j: int|
                0 <= j < i ==> (#[trigger] heads@[j] matches Some(h) ==> h.1.wf() && positions_sorted(
                    h.1@,
                )),
        decreases bs.len() - i,
    {
        assert(readers@[i as int]@ == bs[i as int]);
        let h = readers[i].next_entry();
        heads.push(h);
        proof {
            pos = pos.push(0);
            if bs[i as int].len() > 0 {
                assert(bs[i as int].drop_first() =~= bs[i as int].skip(1));
            }
        }
        i = i + 1;
    }
    let mut out: Vec<u8> = Vec::new();
    let mut ti: TermIndex = TermMap::new();
    proof {
        assert(sources_ok(bs, readers@, heads@, pos));
        assert forall|k: Seq<char>| !consumed(bs, pos, k) by {}
        assert(merge_state_ok(bs, pos, ti@, out@));
    }
    loop
        invariant
            sources_ok(bs, readers@, heads@, pos),
            ti.wf(),
            forall|n: int| 0 <= n < ti@.len() ==> (#[trigger] ti@[n]).1.offset + ti@[n].1.length <= out@.len(),
            blocks_sorted(bs) ==> merge_state_ok(bs, pos, ti@, out@),
        ensures
            forall|j: int| 0 <= j < bs.len() ==> #[trigger] pos[j] == bs[j].len(),
        decreases left(bs, pos, bs.len()),
    {
        let b = match find_smallest(&heads) {
            Some(b) => b,
            None => {
                proof {
                    assert forall|j: int| 0 <= j < bs.len() implies #[trigger] pos[j] == bs[j].len() by {
                        assert(heads@[j] is None);
                    }
                }
                break;
            },
        };
        let s = match &heads[b] {
            Some(h) => h.0.clone(),
            None => String::new(),
        };
        let ghost sv = s@;
        let ghost pos0 = pos;
        let ghost ti0 = ti@;
        let ghost out0 = out@;
        proof {
            assert(head_view(heads@[b as int]) == Some(bs[b as int][pos0[b as int]]));
            assert forall|j: int|
                0 <= j < bs.len() && pos0[j] < bs[j].len() implies !chars_lt(
                #[trigger] bs[j][pos0[j]].0,
                sv,
            ) by {
                assert(head_view(heads@[j]) == Some(bs[j][pos0[j]]));
            }
            if blocks_sorted(bs) {
                lemma_terms_below(bs, pos0, ti0, out0, sv, b as int);
            }
        }
        let (merged, Ghost(pos1)) = take_term(&mut readers, &mut heads, &s, Ghost(bs), Ghost(pos0));
        proof {
            pos = pos1;
        }
        let mut bytes = serialize_postings(&merged);
        let ghost bv = bytes@;
        let entry = TermEntry {
            offset: out.len() as u64,
            length: bytes.len() as u64,
            doc_freq: merged.len() as u32,
        };
        let ghost ti_before = ti@;
        out.append(&mut bytes);
        ti.insert(s, entry);
        proof {
            assert forall|n: int| 0 <= n < ti@.len() implies (#[trigger] ti@[n]).1.offset + ti@[n].1.length
                <= out@.len() by {
                if ti@[n] != (sv, entry) {
                    assert(ti_before.contains(ti@[n]));
                    let j = choose|j: int| 0 <= j < ti_before.len() && ti_before[j] == ti@[n];
                    assert(ti_before[j].1.offset + ti_before[j].1.length <= out0.len());
                }
            }
            if blocks_sorted(bs) {
                lemma_merge_step(bs, pos0, pos1, ti0, out0, sv, b as int, merged@, entry);
                assert(out@ =~= out0 + postings_bytes(merged@));
            }
            assert(bs[b as int][pos0[b as int]].0 == sv);
            lemma_left_decreases(bs, pos0, pos1, b as int, bs.len());
        }
    }
    proof {
        if blocks_sorted(bs) {
            assert forall|k: Seq<char>| consumed(bs, pos, k) <==> block_terms(bs).contains(k) by {
                if consumed(bs, pos, k) {
                    let (i, j) = choose|i: int, j: int|
                        0 <= i < bs.len() && 0 <= j < pos[i] && #[trigger] bs[i][j].0 == k;
                    assert(has_term(bs[i], k));
                }
                if block_terms(bs).contains(k) {
                    let i = choose|i: int| 0 <= i < bs.len() && has_term(#[trigger] bs[i], k);
                    let j = choose|j: int| 0 <= j < bs[i].len() && #[trigger] bs[i][j].0 == k;
                    assert(pos[i] == bs[i].len());
                    assert(consumed(bs, pos, k));
                }
            }
            assert(entries_map(ti@).dom() =~= block_terms(bs));
        }
    }
    (out, ti)
}

/// The ids of a list with strictly increasing ids are as many as its
/// entries.
proof fn lemma_doc_map_len(d: DocList)
    requires
        ids_increasing(d),
    ensures
        doc_map(d).dom().finite(),
        doc_map(d).dom().len() == d.len(),
    decreases d.len(),
{
    if d.len() > 0 {
        let t = d.drop_last();
        assert(ids_increasing(t));
        lemma_doc_map_len(t);
        lemma_doc_map_entries(t);
        if doc_map(t).contains_key(d.last().0) {
            let i = choose|i: int| 0 <= i < t.len() && t[i].0 == d.last().0;
            assert(d[i].0 < d[d.len() - 1].0);
        }
        assert(doc_map(d).dom() =~= doc_map(t).dom().insert(d.last().0));
    }
}

/// Two lists in increasing id order with the same documents are the same
/// list: a term's documents have one encoding.
pub proof fn lemma_lists_docs_unique(d1: DocList, d2: DocList, m: Map<u32, Map<Field, Seq<u32>>>)
    requires
        lists_docs(d1, m),
        lists_docs(d2, m),
    ensures
        d1 == d2,
    decreases d1.len(),
{
    lemma_doc_map_entries(d1);
    lemma_doc_map_entries(d2);
    if d1.len() == 0 {
        if d2.len() > 0 {
            assert(doc_map(d2).contains_key(d2[0].0));
        }
        assert(d1 =~= d2);
    } else if d2.len() == 0 {
        assert(doc_map(d1).contains_key(d1[0].0));
    } else {
        let n1 = d1.len() - 1;
        let n2 = d2.len() - 1;
        let k1 = d1[n1].0;
        let k2 = d2[n2].0;
        assert(doc_map(d2).contains_key(k1));
        let i = choose|i: int| 0 <= i < d2.len() && d2[i].0 == k1;
        assert(doc_map(d1).contains_key(k2));
        let j = choose|j: int| 0 <= j < d1.len() && d1[j].0 == k2;
        if i < n2 {
            assert(d2[i].0 < d2[n2].0);
        }
        if j < n1 {
            assert(d1[j].0 < d1[n1].0);
        }
        assert(k1 == k2);
        assert(d1[n1].1 == m[k1]);
        assert(d2[n2].1 == m[k2]);
        let t1 = d1.drop_last();
        let t2 = d2.drop_last();
        assert(ids_increasing(t1));
        assert(ids_increasing(t2));
        lemma_doc_map_entries(t1);
        lemma_doc_map_entries(t2);
        assert(doc_map(t1) =~= m.remove(k1)) by {
            assert forall|k: u32| doc_map(t1).contains_key(k) implies k != k1 by {
                let a = choose|a: int| 0 <= a < t1.len() && t1[a].0 == k;
                assert(d1[a].0 < d1[n1].0);
            }
        }
        assert(doc_map(t2) =~= m.remove(k1)) by {
            assert forall|k: u32| doc_map(t2).contains_key(k) implies k != k1 by {
                let a = choose|a: int| 0 <= a < t2.len() && t2[a].0 == k;
                assert(d2[a].0 < d2[n2].0);
            }
        }
        lemma_lists_docs_unique(t1, t2, m.remove(k1));
        assert(d1 =~= t1.push(d1[n1]));
        assert(d2 =~= t2.push(d2[n2]));
    }
}

/// Reading back the range that the dictionary gives for a term decodes to
/// exactly the term's documents, in increasing id order, where their counts
/// fit the format.
pub proof fn lemma_entry_readback(postings: Seq<u8>, e: TermEntry, m: Map<u32, Map<Field, Seq<u32>>>)
    requires
        entry_holds(postings, e, m),
        m.dom().len() <= u32::MAX,
        forall|id: u32| #[trigger] m.contains_key(id) ==> field_counts_fit(m[id]),
    ensures
        exists|d: DocList|
            #[trigger] lists_docs(d, m) && parse_postings(
                postings.subrange(e.offset as int, e.offset + e.length),
            ) == Some((d, e.length as int)) && e.doc_freq == d.len(),
{
    let d = choose|d: DocList|
        #[trigger] lists_docs(d, m) && positions_sorted(d) && postings_bytes(d) == postings.subrange(
            e.offset as int,
            e.offset + e.length,
        ) && e.doc_freq == d.len() as u32;
    lemma_doc_map_len(d);
    lemma_doc_map_entries(d);
    assert forall|i: int| 0 <= i < d.len() implies field_counts_fit(#[trigger] d[i].1) by {
        assert(m.contains_key(d[i].0));
    }
    lemma_postings_roundtrip(d);
}

} // verus!
