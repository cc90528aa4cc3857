//! The positional postings of one term: for each document, the positions at
//! which the term occurs in each field.

use vstd::prelude::*;
use crate::encode_decode::{positions_sorted, Field};

verus! {

/// The abstract content of a postings list: `(doc_id, field -> positions)`
/// pairs in the order they are held.
pub type DocList = Seq<(u32, Map<Field, Seq<u32>>)>;

/// Positions of one term in one document, kept per field.
/// A field is either absent or holds a list of positions (possibly empty).
#[derive(Debug, PartialEq, Eq)]
pub struct FieldMap {
    title: Option<Vec<u32>>,
    headers: Option<Vec<u32>>,
    code: Option<Vec<u32>>,
    body: Option<Vec<u32>>,
}

pub open spec fn opt_view(o: Option<Vec<u32>>) -> Option<Seq<u32>> {
    match o {
        Some(v) => Some(v@),
        None => None,
    }
}

impl FieldMap {
    /// The positions held for field `f`, if any.
    pub closed spec fn slot(&self, f: Field) -> Option<Seq<u32>> {
        match f {
            Field::Title => opt_view(self.title),
            Field::Headers => opt_view(self.headers),
            Field::Code => opt_view(self.code),
            Field::Body => opt_view(self.body),
        }
    }
}

impl View for FieldMap {
    type V = Map<Field, Seq<u32>>;

    closed spec fn view(&self) -> Map<Field, Seq<u32>> {
        Map::new(|f: Field| self.slot(f) is Some, |f: Field| self.slot(f)->0)
    }
}

impl FieldMap {
    /// A map with no field present.
    pub fn new() -> (res: FieldMap)
        ensures
            res@ == Map::<Field, Seq<u32>>::empty(),
    {
        let res = FieldMap { title: None, headers: None, code: None, body: None };
        assert(res@ =~= Map::<Field, Seq<u32>>::empty());
        res
    }

    /// Set the positions of field `f`, replacing any held before.
    pub fn insert(&mut self, f: Field, positions: Vec<u32>)
        ensures
            final(self)@ == old(self)@.insert(f, positions@),
    {
        let ghost p = positions@;
        match f {
            Field::Title => { self.title = Some(positions); },
            Field::Headers => { self.headers = Some(positions); },
            Field::Code => { self.code = Some(positions); },
            Field::Body => { self.body = Some(positions); },
        }
        assert(self@ =~= old(self)@.insert(f, p));
    }

    /// The positions of field `f`, or `None` where the field is absent.
    pub fn get(&self, f: Field) -> (res: Option<&Vec<u32>>)
        ensures
            res is Some <==> self@.contains_key(f),
            res matches Some(v) ==> v@ == self@[f],
    {
        match f {
            Field::Title => self.title.as_ref(),
            Field::Headers => self.headers.as_ref(),
            Field::Code => self.code.as_ref(),
            Field::Body => self.body.as_ref(),
        }
    }

    /// Append one position to field `f`, creating the field if absent.
    pub fn push_position(&mut self, f: Field, pos: u32)
        ensures
            final(self)@ == old(self)@.insert(
                f,
                if old(self)@.contains_key(f) {
                    old(self)@[f].push(pos)
                } else {
                    seq![pos]
                },
            ),
    {
        let ghost expected = if old(self)@.contains_key(f) {
            old(self)@[f].push(pos)
        } else {
            seq![pos]
        };
        match f {
            Field::Title => push_slot(&mut self.title, pos),
            Field::Headers => push_slot(&mut self.headers, pos),
            Field::Code => push_slot(&mut self.code, pos),
            Field::Body => push_slot(&mut self.body, pos),
        }
        assert(self@ =~= old(self)@.insert(f, expected));
    }
}

fn push_slot(slot: &mut Option<Vec<u32>>, pos: u32)
    ensures
        opt_view(*final(slot)) == Some(
            match opt_view(*old(slot)) {
                Some(p) => p.push(pos),
                None => seq![pos],
            },
        ),
{
    match slot {
        Some(v) => {
            v.push(pos);
        },
        None => {
            *slot = Some(vec![pos]);
        },
    }
}

/// Document ids strictly increase along the list.
pub open spec fn ids_increasing(s: DocList) -> bool {
    forall|i: int, j: int| 0 <= i < j < s.len() ==> #[trigger] s[i].0 < #[trigger] s[j].0
}

/// The list as a map from document id to its fields.
pub open spec fn doc_map(s: DocList) -> Map<u32, Map<Field, Seq<u32>>>
    decreases s.len(),
{
    if s.len() == 0 {
        Map::empty()
    } else {
        doc_map(s.drop_last()).insert(s.last().0, s.last().1)
    }
}

/// The postings of one term: documents in increasing id order, each with its
/// field map.
#[derive(Debug, PartialEq, Eq)]
pub struct Postings {
    docs: Vec<(u32, FieldMap)>,
}

pub open spec fn entry_view(e: (u32, FieldMap)) -> (u32, Map<Field, Seq<u32>>) {
    (e.0, e.1@)
}

impl View for Postings {
    type V = DocList;

    closed spec fn view(&self) -> DocList {
        self.docs@.map_values(|e: (u32, FieldMap)| entry_view(e))
    }
}

impl Postings {
    /// Well-formed: document ids strictly increase.
    pub open spec fn wf(&self) -> bool {
        ids_increasing(self@)
    }

    /// An empty postings list.
    pub fn new() -> (res: Postings)
        ensures
            res@ == Seq::<(u32, Map<Field, Seq<u32>>)>::empty(),
            res.wf(),
    {
        let res = Postings { docs: Vec::new() };
        assert(res@ =~= Seq::<(u32, Map<Field, Seq<u32>>)>::empty());
        res
    }

    /// Number of documents.
    pub fn len(&self) -> (res: usize)
        ensures
            res == self@.len(),
    {
        self.docs.len()
    }

    /// The `i`-th document id and its fields.
    pub fn entry(&self, i: usize) -> (res: (u32, &FieldMap))
        requires
            i < self@.len(),
        ensures
            res.0 == self@[i as int].0,
            res.1@ == self@[i as int].1,
    {
        let e = &self.docs[i];
        (e.0, &e.1)
    }

    /// Append a document whose id is at least the last one held; a document
    /// with the last id replaces the last entry.
    pub fn add_last(&mut self, doc_id: u32, fields: FieldMap)
        requires
            old(self).wf(),
            old(self)@.len() > 0 ==> old(self)@.last().0 <= doc_id,
        ensures
            final(self).wf(),
            final(self)@ == add_doc(old(self)@, doc_id, fields@),
    {
        let ghost fv = fields@;
        let n = self.docs.len();
        if n > 0 && self.docs[n - 1].0 == doc_id {
            self.docs.set(n - 1, (doc_id, fields));
        } else {
            self.docs.push((doc_id, fields));
        }
        assert(self@ =~= add_doc(old(self)@, doc_id, fv));
    }

    /// The document ids, in the order held: increasing when the list is
    /// well-formed.
    pub fn doc_ids(&self) -> (res: Vec<u32>)
        ensures
            res@ == self@.map_values(|e: (u32, Map<Field, Seq<u32>>)| e.0),
            self.wf() ==> forall|i: int, j: int| 0 <= i < j < res@.len() ==> #[trigger] res@[i] < #[trigger] res@[j],
    {
        let mut res: Vec<u32> = Vec::new();
        let mut i: usize = 0;
        while i < self.docs.len()
            invariant
                i <= self.docs@.len(),
                res@.len() == i,
                forall|j: int| 0 <= j < i ==> #[trigger] res@[j] == self@[j].0,
            decreases self.docs@.len() - i,
        {
            res.push(self.docs[i].0);
            i = i + 1;
        }
        assert(res@ =~= self@.map_values(|e: (u32, Map<Field, Seq<u32>>)| e.0));
        res
    }

    /// The fields of document `doc_id` (binary search over the ids).
    pub fn find(&self, doc_id: u32) -> (res: Option<&FieldMap>)
        requires
            self.wf(),
        ensures
            res is Some <==> doc_map(self@).contains_key(doc_id),
            res matches Some(m) ==> m@ == doc_map(self@)[doc_id],
    {
        let ghost s = self@;
        proof {
            lemma_doc_map_entries(s);
        }
        let mut lo: usize = 0;
        let mut hi: usize = self.docs.len();
        while lo < hi
            invariant
                s == self@,
                ids_increasing(s),
                lo <= hi <= s.len(),
                forall|j: int| 0 <= j < lo ==> #[trigger] s[j].0 < doc_id,
                forall|j: int| hi <= j < s.len() ==> #[trigger] s[j].0 > doc_id,
            decreases hi - lo,
        {
            let mid = lo + (hi - lo) / 2;
            let d = self.docs[mid].0;
            assert(s[mid as int].0 == d);
            if d < doc_id {
                lo = mid + 1;
            } else if d > doc_id {
                hi = mid;
            } else {
                assert(s[mid as int].1 == self.docs@[mid as int].1@);
                proof {
                    lemma_doc_map_entries(s);
                }
                assert(doc_map(s)[s[mid as int].0] == s[mid as int].1);
                assert(doc_map(s).contains_key(s[mid as int].0));
                return Some(&self.docs[mid].1);
            }
        }
        proof {
            if doc_map(s).contains_key(doc_id) {
                let i = choose|i: int| 0 <= i < s.len() && s[i].0 == doc_id;
            }
        }
        None
    }

    /// The id of the last document, if any.
    pub fn last_doc(&self) -> (res: Option<u32>)
        ensures
            res is None <==> self@.len() == 0,
            res matches Some(d) ==> self@.len() > 0 && d == self@.last().0,
    {
        let n = self.docs.len();
        if n == 0 {
            None
        } else {
            Some(self.docs[n - 1].0)
        }
    }

    /// Record an occurrence of the term at position `pos` of field `f` of
    /// document `doc_id`, which is at least the last document listed.
    pub fn add_position(&mut self, doc_id: u32, f: Field, pos: u32)
        requires
            old(self).wf(),
            old(self)@.len() > 0 ==> old(self)@.last().0 <= doc_id,
        ensures
            final(self).wf(),
            final(self)@ == add_position(old(self)@, doc_id, f, pos),
    {
        let n = self.docs.len();
        if n > 0 && self.docs[n - 1].0 == doc_id {
            let ghost e = self.docs@[n - 1];
            let mut entry = self.docs.pop().unwrap();
            entry.1.push_position(f, pos);
            self.docs.push(entry);
            assert(self@ =~= add_position(old(self)@, doc_id, f, pos));
        } else {
            let mut fm = FieldMap::new();
            fm.push_position(f, pos);
            self.docs.push((doc_id, fm));
            assert(self@ =~= add_position(old(self)@, doc_id, f, pos));
        }
    }
}

/// `m` with position `pos` appended to field `f` (the field created if
/// absent).
pub open spec fn field_push(m: Map<Field, Seq<u32>>, f: Field, pos: u32) -> Map<Field, Seq<u32>> {
    m.insert(
        f,
        if m.contains_key(f) {
            m[f].push(pos)
        } else {
            seq![pos]
        },
    )
}

/// Record an occurrence at position `pos` of field `f` of document `doc`,
/// where `doc` is at least the last document listed: the last document's
/// fields grow if it is `doc`, else `doc` is appended with that one position.
pub open spec fn add_position(s: DocList, doc: u32, f: Field, pos: u32) -> DocList {
    if s.len() > 0 && s.last().0 == doc {
        s.update(s.len() - 1, (doc, field_push(s.last().1, f, pos)))
    } else {
        s.push((doc, Map::empty().insert(f, seq![pos])))
    }
}

/// Add a document at the end of a list whose last id is at most `id`:
/// a repeated last id replaces the last entry, as a map insertion would.
pub open spec fn add_doc(acc: DocList, id: u32, m: Map<Field, Seq<u32>>) -> DocList {
    if acc.len() > 0 && acc.last().0 == id {
        acc.update(acc.len() - 1, (id, m))
    } else {
        acc.push((id, m))
    }
}

/// Every key of the map of a list is the id of one of its entries, and each
/// entry's id maps to its fields when ids strictly increase.
pub proof fn lemma_doc_map_entries(s: DocList)
    ensures
        forall|k: u32|
            #[trigger] doc_map(s).contains_key(k) <==> exists|i: int| 0 <= i < s.len() && s[i].0 == k,
        ids_increasing(s) ==> forall|i: int| 0 <= i < s.len() ==> #[trigger] doc_map(s)[s[i].0] == s[i].1,
    decreases s.len(),
{
    if s.len() > 0 {
        let t = s.drop_last();
        let n = s.len() - 1;
        lemma_doc_map_entries(t);
        assert forall|k: u32|
            #[trigger] doc_map(s).contains_key(k) <==> exists|i: int| 0 <= i < s.len() && s[i].0 == k by {
            if doc_map(t).contains_key(k) {
                let i = choose|i: int| 0 <= i < t.len() && t[i].0 == k;
                assert(s[i].0 == k);
            }
            if exists|i: int| 0 <= i < s.len() && s[i].0 == k {
                let i = choose|i: int| 0 <= i < s.len() && s[i].0 == k;
                if i < n {
                    assert(t[i].0 == k);
                }
            }
        }
        if ids_increasing(s) {
            assert(ids_increasing(t));
            assert(doc_map(s) == doc_map(t).insert(s[n].0, s[n].1));
            assert forall|i: int| 0 <= i < s.len() implies #[trigger] doc_map(s)[s[i].0] == s[i].1 by {
                if i < n {
                    assert(t[i] == s[i]);
                    assert(s[i].0 < s[n].0);
                }
            }
        }
    }
}

/// Appending an entry adds its id to the map.
proof fn lemma_doc_map_push(s: DocList, e: (u32, Map<Field, Seq<u32>>))
    ensures
        doc_map(s.push(e)) == doc_map(s).insert(e.0, e.1),
{
    assert(s.push(e).drop_last() =~= s);
}

/// The entries of `v`, each taken by its view.
pub open spec fn entries_view(v: Seq<(u32, FieldMap)>) -> DocList {
    v.map_values(|e: (u32, FieldMap)| entry_view(e))
}

/// The entries of `v` in reverse order.
fn reverse_entries(v: Vec<(u32, FieldMap)>) -> (res: Vec<(u32, FieldMap)>)
    ensures
        res@.len() == v@.len(),
        forall|j: int| 0 <= j < v@.len() ==> #[trigger] res@[j] == v@[v@.len() - 1 - j],
{
    let ghost v0 = v@;
    let mut v = v;
    let mut res: Vec<(u32, FieldMap)> = Vec::new();
    while v.len() > 0
        invariant
            v@ == v0.take(v@.len() as int),
            res@.len() + v@.len() == v0.len(),
            forall|j: int| 0 <= j < res@.len() ==> #[trigger] res@[j] == v0[v0.len() - 1 - j],
        decreases v@.len(),
    {
        let e = v.pop().unwrap();
        res.push(e);
        assert(v@ =~= v0.take(v@.len() as int));
    }
    res
}

/// The documents of `a` and of `b`, in increasing id order; where both list
/// a document, `b`'s fields are kept.
pub fn merge_postings(a: Postings, b: Postings) -> (res: Postings)
    requires
        a.wf(),
        b.wf(),
    ensures
        res.wf(),
        doc_map(res@) == doc_map(a@).union_prefer_right(doc_map(b@)),
        positions_sorted(a@) && positions_sorted(b@) ==> positions_sorted(res@),
{
    let ghost av = a@;
    let ghost bv = b@;
    let ghost sorted = positions_sorted(av) && positions_sorted(bv);
    let mut ra = reverse_entries(a.docs);
    let mut rb = reverse_entries(b.docs);
    let mut out: Vec<(u32, FieldMap)> = Vec::new();
    while ra.len() > 0 || rb.len() > 0
        invariant
            ids_increasing(av),
            ids_increasing(bv),
            sorted == (positions_sorted(av) && positions_sorted(bv)),
            ra@.len() <= av.len(),
            rb@.len() <= bv.len(),
            forall|j: int| 0 <= j < ra@.len() ==> entry_view(#[trigger] ra@[j]) == av[av.len() - 1 - j],
            forall|j: int| 0 <= j < rb@.len() ==> entry_view(#[trigger] rb@[j]) == bv[bv.len() - 1 - j],
            ids_increasing(entries_view(out@)),
            doc_map(entries_view(out@)) == doc_map(av.take(av.len() - ra@.len())).union_prefer_right(
                doc_map(bv.take(bv.len() - rb@.len())),
            ),
            forall|i: int|
                0 <= i < out@.len() ==> (ra@.len() > 0 ==> (#[trigger] out@[i]).0 < av[av.len()
                    - ra@.len()].0) && (rb@.len() > 0 ==> out@[i].0 < bv[bv.len() - rb@.len()].0),
            sorted ==> positions_sorted(entries_view(out@)),
        decreases ra@.len() + rb@.len(),
    {
        let ghost ia = av.len() - ra@.len();
        let ghost ib = bv.len() - rb@.len();
        let ghost r = entries_view(out@);
        let ghost da = doc_map(av.take(ia));
        let ghost db = doc_map(bv.take(ib));
        proof {
            lemma_doc_map_entries(r);
            lemma_doc_map_entries(bv.take(ib));
            lemma_doc_map_entries(av.take(ia));
        }
        let take_a = rb.len() == 0 || (ra.len() > 0 && ra[ra.len() - 1].0 < rb[rb.len() - 1].0);
        let take_b = !take_a && (ra.len() == 0 || rb[rb.len() - 1].0 < ra[ra.len() - 1].0);
        if take_a {
            let e = ra.pop().unwrap();
            let ghost x = av[ia];
            assert(entry_view(e) == x);
            assert(av.take(ia + 1).drop_last() =~= av.take(ia));
            assert(!db.contains_key(x.0)) by {
                if db.contains_key(x.0) {
                    assert(da.union_prefer_right(db).contains_key(x.0));
                    let i = choose|i: int| 0 <= i < r.len() && r[i].0 == x.0;
                    assert(out@[i].0 < x.0);
                }
            }
            out.push(e);
            proof {
                assert(entries_view(out@) =~= r.push(x));
                lemma_doc_map_push(r, x);
                assert(da.insert(x.0, x.1).union_prefer_right(db) =~= da.union_prefer_right(db).insert(
                    x.0,
                    x.1,
                ));
                if ra@.len() > 0 {
                    assert(av[ia].0 < av[ia + 1].0);
                }
            }
        } else if take_b {
            let e = rb.pop().unwrap();
            let ghost x = bv[ib];
            assert(entry_view(e) == x);
            assert(bv.take(ib + 1).drop_last() =~= bv.take(ib));
            out.push(e);
            proof {
                assert(entries_view(out@) =~= r.push(x));
                lemma_doc_map_push(r, x);
                assert(da.union_prefer_right(db.insert(x.0, x.1)) =~= da.union_prefer_right(db).insert(
                    x.0,
                    x.1,
                ));
                if rb@.len() > 0 {
                    assert(bv[ib].0 < bv[ib + 1].0);
                }
            }
        } else {
            let _ = ra.pop();
            let e = rb.pop().unwrap();
            let ghost xa = av[ia];
            let ghost x = bv[ib];
            assert(entry_view(e) == x);
            assert(xa.0 == x.0);
            assert(av.take(ia + 1).drop_last() =~= av.take(ia));
            assert(bv.take(ib + 1).drop_last() =~= bv.take(ib));
            out.push(e);
            proof {
                assert(entries_view(out@) =~= r.push(x));
                lemma_doc_map_push(r, x);
                assert(da.insert(xa.0, xa.1).union_prefer_right(db.insert(x.0, x.1))
                    =~= da.union_prefer_right(db).insert(x.0, x.1));
                if ra@.len() > 0 {
                    assert(av[ia].0 < av[ia + 1].0);
                }
                if rb@.len() > 0 {
                    assert(bv[ib].0 < bv[ib + 1].0);
                }
            }
        }
    }
    assert(av.take(av.len() as int) =~= av);
    assert(bv.take(bv.len() as int) =~= bv);
    let res = Postings { docs: out };
    assert(res@ =~= entries_view(out@));
    res
}

} // verus!
