//! Exact-phrase checking over positional lists: the terms of a phrase must
//! occur at consecutive positions.

use vstd::prelude::*;
use crate::encode_decode::Field;
use crate::postings::Postings;

verus! {

/// Positions of one term per document, documents in increasing id order.
#[derive(Debug, PartialEq, Eq)]
pub struct DocPositions {
    docs: Vec<(u32, Vec<u32>)>,
}

impl View for DocPositions {
    type V = Seq<(u32, Seq<u32>)>;

    closed spec fn view(&self) -> Seq<(u32, Seq<u32>)> {
        self.docs@.map_values(|e: (u32, Vec<u32>)| (e.0, e.1@))
    }
}

/// The positions listed for document `doc`, if any.
pub open spec fn positions_of(s: Seq<(u32, Seq<u32>)>, doc: u32) -> Option<Seq<u32>> {
    if exists|i: int| 0 <= i < s.len() && #[trigger] s[i].0 == doc {
        Some(s[choose|i: int| 0 <= i < s.len() && #[trigger] s[i].0 == doc].1)
    } else {
        None
    }
}

/// Positions are non-decreasing.
pub open spec fn nondecreasing(s: Seq<u32>) -> bool {
    forall|i: int, j: int| 0 <= i <= j < s.len() ==> #[trigger] s[i] <= #[trigger] s[j]
}

impl DocPositions {
    /// Document ids strictly increase.
    pub open spec fn wf(&self) -> bool {
        forall|i: int, j: int| 0 <= i < j < self@.len() ==> #[trigger] self@[i].0 < #[trigger] self@[j].0
    }

    /// No documents.
    pub fn new() -> (res: DocPositions)
        ensures
            res.wf(),
            res@ == Seq::<(u32, Seq<u32>)>::empty(),
    {
        let res = DocPositions { docs: Vec::new() };
        assert(res@ =~= Seq::<(u32, Seq<u32>)>::empty());
        res
    }

    /// Append a document whose id exceeds every id held.
    pub fn push(&mut self, doc: u32, positions: Vec<u32>)
        requires
            old(self).wf(),
            old(self)@.len() > 0 ==> old(self)@.last().0 < doc,
        ensures
            final(self).wf(),
            final(self)@ == old(self)@.push((doc, positions@)),
    {
        let ghost pv = positions@;
        self.docs.push((doc, positions));
        assert(self@ =~= old(self)@.push((doc, pv)));
    }

    /// Id of the last document, if any.
    pub fn last_doc(&self) -> (res: Option<u32>)
        ensures
            res is None <==> self@.len() == 0,
            res matches Some(d) ==> self@.len() > 0 && d == self@.last().0,
    {
        if self.docs.len() == 0 {
            None
        } else {
            Some(self.docs[self.docs.len() - 1].0)
        }
    }

    /// The positions of document `doc` (binary search).
    pub fn get(&self, doc: u32) -> (res: Option<&Vec<u32>>)
        requires
            self.wf(),
        ensures
            match res {
                Some(v) => positions_of(self@, doc) == Some(v@),
                None => positions_of(self@, doc) is None,
            },
    {
        let ghost s = self@;
        let mut lo: usize = 0;
        let mut hi: usize = self.docs.len();
        while lo < hi
            invariant
                s == self@,
                self.wf(),
                lo <= hi <= s.len(),
                forall|j: int| 0 <= j < lo ==> #[trigger] s[j].0 < doc,
                forall|j: int| hi <= j < s.len() ==> #[trigger] s[j].0 > doc,
            decreases hi - lo,
        {
            let mid = lo + (hi - lo) / 2;
            let d = self.docs[mid].0;
            assert(s[mid as int].0 == d);
            if d < doc {
                lo = mid + 1;
            } else if d > doc {
                hi = mid;
            } else {
                let ghost i = choose|i: int| 0 <= i < s.len() && #[trigger] s[i].0 == doc;
                assert(i == mid) by {
                    if i < mid {
                        assert(s[i].0 < s[mid as int].0);
                    } else if i > mid {
                        assert(s[mid as int].0 < s[i].0);
                    }
                }
                return Some(&self.docs[mid].1);
            }
        }
        None
    }
}

/// The positions of field `f` in each document of a postings list, empty
/// where the document has none in that field.
pub open spec fn field_positions_view(p: crate::postings::DocList, f: Field) -> Seq<(u32, Seq<u32>)> {
    p.map_values(
        |e: (u32, Map<Field, Seq<u32>>)|
            (
                e.0,
                if e.1.contains_key(f) {
                    e.1[f]
                } else {
                    Seq::<u32>::empty()
                },
            ),
    )
}

/// The positions of field `f` in each document of `postings`.
pub fn field_positions(postings: &Postings, f: Field) -> (res: DocPositions)
    requires
        postings.wf(),
    ensures
        res.wf(),
        res@ == field_positions_view(postings@, f),
{
    let ghost want = field_positions_view(postings@, f);
    let mut res = DocPositions::new();
    let mut i: usize = 0;
    while i < postings.len()
        invariant
            postings.wf(),
            want == field_positions_view(postings@, f),
            i <= postings@.len(),
            res.wf(),
            res@ == want.take(i as int),
        decreases postings@.len() - i,
    {
        let (doc, fm) = postings.entry(i);
        let positions = match fm.get(f) {
            Some(v) => v.clone(),
            None => Vec::new(),
        };
        proof {
            if i > 0 {
                assert(res@.last() == want[i - 1]);
                assert(postings@[i - 1].0 < postings@[i as int].0);
            }
        }
        res.push(doc, positions);
        assert(res@ =~= want.take(i as int + 1));
        i = i + 1;
    }
    assert(want.take(postings@.len() as int) =~= want);
    res
}

/// Whether `x` is in the sorted list (binary search).
fn sorted_contains(v: &Vec<u32>, x: u32) -> (res: bool)
    ensures
        nondecreasing(v@) ==> res == v@.contains(x),
{
    let mut lo: usize = 0;
    let mut hi: usize = v.len();
    while lo < hi
        invariant
            lo <= hi <= v@.len(),
            nondecreasing(v@) ==> forall|j: int| 0 <= j < lo ==> #[trigger] v@[j] < x,
            nondecreasing(v@) ==> forall|j: int| hi <= j < v@.len() ==> #[trigger] v@[j] > x,
        decreases hi - lo,
    {
        let mid = lo + (hi - lo) / 2;
        let y = v[mid];
        if y < x {
            lo = mid + 1;
        } else if y > x {
            hi = mid;
        } else {
            return true;
        }
    }
    proof {
        if nondecreasing(v@) && v@.contains(x) {
            let j = choose|j: int| 0 <= j < v@.len() && v@[j] == x;
            if j < lo {
            } else {
            }
        }
    }
    false
}

/// The phrase of `n` terms starts at position `p` of document `doc`: term `k`
/// occurs at `p + k` for every `k` from 1 on (a position past 32 bits occurs
/// nowhere).
pub open spec fn phrase_at(all: Seq<Seq<(u32, Seq<u32>)>>, doc: u32, n: int, p: u32) -> bool {
    forall|k: int|
        1 <= k < n ==> p + k <= u32::MAX && (#[trigger] positions_of(all[k], doc)).unwrap().contains(
            (p + k) as u32,
        )
}

/// Some occurrence of the first term starts the whole phrase.
pub open spec fn has_phrase_spec(all: Seq<Seq<(u32, Seq<u32>)>>, doc: u32, n: int) -> bool {
    exists|p: u32| #[trigger] positions_of(all[0], doc).unwrap().contains(p) && phrase_at(all, doc, n, p)
}

pub open spec fn postings_views(v: Seq<DocPositions>) -> Seq<Seq<(u32, Seq<u32>)>> {
    v.map_values(|d: DocPositions| d@)
}

/// The number of lists a phrase check of `n` terms reads: the first term's
/// list is read even for an empty phrase.
pub open spec fn lists_read(n: int) -> int {
    if n == 0 {
        1
    } else {
        n
    }
}

/// There are at least `n` lists and at least one; the lists the check reads
/// are well-formed and all list document `doc`.
pub open spec fn phrase_inputs_ok(v: Seq<DocPositions>, doc: u32, n: int) -> bool {
    let all = postings_views(v);
    &&& 1 <= v.len()
    &&& n <= v.len()
    &&& forall|k: int| 0 <= k < lists_read(n) ==> (#[trigger] v[k]).wf()
    &&& forall|k: int| 0 <= k < lists_read(n) ==> (#[trigger] positions_of(all[k], doc)) is Some
}

/// The position lists of document `doc` for terms 1 to `n - 1`, those that
/// are searched, are sorted.
pub open spec fn phrase_lists_sorted(all: Seq<Seq<(u32, Seq<u32>)>>, doc: u32, n: int) -> bool {
    forall|k: int| 1 <= k < n ==> nondecreasing(#[trigger] positions_of(all[k], doc).unwrap())
}

/// Whether terms 1 to `n - 1` occur at positions `p + 1` to `p + n - 1` of
/// document `doc`.
fn phrase_continues(doc_id: u32, p: u32, n: usize, all_postings: &Vec<DocPositions>) -> (res: bool)
    requires
        phrase_inputs_ok(all_postings@, doc_id, n as int),
    ensures
        phrase_lists_sorted(postings_views(all_postings@), doc_id, n as int) ==> res == phrase_at(
            postings_views(all_postings@),
            doc_id,
            n as int,
            p,
        ),
{
    let ghost all = postings_views(all_postings@);
    let ghost sorted = phrase_lists_sorted(all, doc_id, n as int);
    if n <= 1 {
        return true;
    }
    let mut offset: usize = 1;
    while offset < n
        invariant
            all == postings_views(all_postings@),
            phrase_inputs_ok(all_postings@, doc_id, n as int),
            1 <= offset <= n,
            sorted == phrase_lists_sorted(all, doc_id, n as int),
            sorted ==> forall|k: int|
                1 <= k < offset ==> p + k <= u32::MAX && (#[trigger] positions_of(all[k], doc_id)).unwrap().contains(
                    (p + k) as u32,
                ),
        decreases n - offset,
    {
        assert(all_postings@[offset as int].wf());
        assert(all[offset as int] == all_postings@[offset as int]@);
        assert(positions_of(all[offset as int], doc_id) is Some);
        let term_positions = match all_postings[offset].get(doc_id) {
            Some(v) => v,
            None => {
                return false;
            },
        };
        if offset as u64 > (u32::MAX - p) as u64 {
            proof {
                if sorted {
                    assert(!phrase_at(all, doc_id, n as int, p));
                }
            }
            return false;
        }
        let target = p + offset as u32;
        if !sorted_contains(term_positions, target) {
            proof {
                if sorted {
                    assert(nondecreasing(positions_of(all[offset as int], doc_id).unwrap()));
                    assert(!phrase_at(all, doc_id, n as int, p));
                }
            }
            return false;
        }
        proof {
            if sorted {
                assert(nondecreasing(positions_of(all[offset as int], doc_id).unwrap()));
            }
        }
        offset = offset + 1;
    }
    true
}

/// Whether document `doc` contains the query terms as an exact phrase: term
/// 0 at some position `p`, term 1 at `p + 1`, and so on. The first term's
/// positions are walked in order; the others are looked up by binary search,
/// so the answer is meaningful when their lists are sorted, as postings
/// lists are.
pub fn has_phrase(doc_id: u32, query_terms: &Vec<String>, all_postings: &Vec<DocPositions>) -> (res: bool)
    requires
        phrase_inputs_ok(all_postings@, doc_id, query_terms@.len() as int),
    ensures
        phrase_lists_sorted(postings_views(all_postings@), doc_id, query_terms@.len() as int) ==> res
            == has_phrase_spec(postings_views(all_postings@), doc_id, query_terms@.len() as int),
{
    let ghost all = postings_views(all_postings@);
    let ghost n = query_terms@.len() as int;
    let ghost sorted = phrase_lists_sorted(all, doc_id, n);
    assert(all_postings@[0].wf());
    assert(all[0] == all_postings@[0]@);
    assert(positions_of(all[0], doc_id) is Some);
    let first_positions = match all_postings[0].get(doc_id) {
        Some(v) => v,
        None => {
            return false;
        },
    };
    let ghost fp = first_positions@;
    let mut i: usize = 0;
    while i < first_positions.len()
        invariant
            all == postings_views(all_postings@),
            n == query_terms@.len(),
            sorted == phrase_lists_sorted(all, doc_id, n),
            phrase_inputs_ok(all_postings@, doc_id, n),
            fp == first_positions@,
            fp == positions_of(all[0], doc_id).unwrap(),
            i <= fp.len(),
            sorted ==> forall|j: int| 0 <= j < i ==> !phrase_at(all, doc_id, n, #[trigger] fp[j]),
        decreases fp.len() - i,
    {
        let p = first_positions[i];
        if phrase_continues(doc_id, p, query_terms.len(), all_postings) {
            proof {
                if sorted {
                    assert(fp[i as int] == p);
                    assert(fp.contains(p));
                    assert(positions_of(all[0], doc_id).unwrap().contains(p));
                }
            }
            return true;
        }
        i = i + 1;
    }
    proof {
        if sorted && has_phrase_spec(all, doc_id, n) {
            let p = choose|p: u32|
                #[trigger] positions_of(all[0], doc_id).unwrap().contains(p) && phrase_at(all, doc_id, n, p);
            let j = choose|j: int| 0 <= j < fp.len() && fp[j] == p;
            assert(!phrase_at(all, doc_id, n, fp[j]));
        }
    }
    false
}

/// The candidates whose document contains the phrase.
pub open spec fn phrase_matches(
    all: Seq<Seq<(u32, Seq<u32>)>>,
    candidates: Seq<u32>,
    n: int,
) -> Seq<u32> {
    candidates.filter(|d: u32| has_phrase_spec(all, d, n))
}

/// Keeps, in order, the candidate documents that contain the query terms as
/// an exact phrase. `all_postings` holds the positional lists of the query
/// terms, one per term, read once for all candidates.
pub fn phrase_filter(final_list: Vec<u32>, query_terms: &Vec<String>, all_postings: &Vec<DocPositions>) -> (res: Vec<u32>)
    requires
        forall|i: int|
            0 <= i < final_list@.len() ==> phrase_inputs_ok(
                all_postings@,
                #[trigger] final_list@[i],
                query_terms@.len() as int,
            ),
    ensures
        (forall|i: int|
            0 <= i < final_list@.len() ==> phrase_lists_sorted(
                postings_views(all_postings@),
                #[trigger] final_list@[i],
                query_terms@.len() as int,
            )) ==> res@ == phrase_matches(
            postings_views(all_postings@),
            final_list@,
            query_terms@.len() as int,
        ),
        forall|i: int| 0 <= i < res@.len() ==> final_list@.contains(#[trigger] res@[i]),
{
    let ghost all = postings_views(all_postings@);
    let ghost n = query_terms@.len() as int;
    let ghost pred = |d: u32| has_phrase_spec(all, d, n);
    let ghost sorted = forall|i: int|
        0 <= i < final_list@.len() ==> phrase_lists_sorted(all, #[trigger] final_list@[i], n);
    let mut phrase_results: Vec<u32> = Vec::new();
    let mut i: usize = 0;
    while i < final_list.len()
        invariant
            all == postings_views(all_postings@),
            n == query_terms@.len(),
            pred == (|d: u32| has_phrase_spec(all, d, n)),
            sorted == (forall|i: int|
                0 <= i < final_list@.len() ==> phrase_lists_sorted(all, #[trigger] final_list@[i], n)),
            forall|i: int|
                0 <= i < final_list@.len() ==> phrase_inputs_ok(
                    all_postings@,
                    #[trigger] final_list@[i],
                    n,
                ),
            i <= final_list@.len(),
            sorted ==> phrase_results@ == final_list@.take(i as int).filter(pred),
            forall|j: int|
                0 <= j < phrase_results@.len() ==> final_list@.contains(#[trigger] phrase_results@[j]),
        decreases final_list@.len() - i,
    {
        let doc_id = final_list[i];
        assert(final_list@.take(i as int + 1) =~= final_list@.take(i as int).push(doc_id));
        proof {
            final_list@.take(i as int).lemma_filter_push(doc_id, pred);
        }
        let keep = has_phrase(doc_id, query_terms, all_postings);
        if keep {
            phrase_results.push(doc_id);
        }
        i = i + 1;
    }
    assert(final_list@.take(final_list@.len() as int) =~= final_list@);
    phrase_results
}

} // verus!
