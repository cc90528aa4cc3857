//! Intersection of sorted document-id lists.

use vstd::prelude::*;
use crate::block_merge::{TermEntry, TermIndex};
use crate::term_map::entries_map;

verus! {

/// The list strictly increases (sorted, no repeats).
pub open spec fn strictly_increasing(s: Seq<u32>) -> bool {
    forall|i: int, j: int| 0 <= i < j < s.len() ==> #[trigger] s[i] < #[trigger] s[j]
}

/// Every list of the sequence strictly increases.
pub open spec fn all_strictly_increasing(ls: Seq<Vec<u32>>) -> bool {
    forall|k: int| 0 <= k < ls.len() ==> strictly_increasing(#[trigger] ls[k]@)
}

/// `x` occurs in every list.
pub open spec fn in_all(ls: Seq<Vec<u32>>, x: u32) -> bool {
    forall|k: int| 0 <= k < ls.len() ==> (#[trigger] ls[k])@.contains(x)
}

/// The two-pointer walk over two lists: equal heads are kept and both
/// lists advance; otherwise the list with the smaller head advances.
pub open spec fn two_pointer(a: Seq<u32>, b: Seq<u32>) -> Seq<u32>
    decreases a.len() + b.len(),
{
    if a.len() == 0 || b.len() == 0 {
        seq![]
    } else if a[0] == b[0] {
        seq![a[0]] + two_pointer(a.drop_first(), b.drop_first())
    } else if a[0] < b[0] {
        two_pointer(a.drop_first(), b)
    } else {
        two_pointer(a, b.drop_first())
    }
}

/// The lists' contents.
pub open spec fn lists_view(ls: Seq<Vec<u32>>) -> Seq<Seq<u32>> {
    ls.map_values(|v: Vec<u32>| v@)
}

/// The first list walked against the second, the result against the third,
/// and so on; nothing for no lists.
pub open spec fn walk_all(ls: Seq<Seq<u32>>) -> Seq<u32>
    decreases ls.len(),
{
    if ls.len() == 0 {
        seq![]
    } else if ls.len() == 1 {
        ls[0]
    } else {
        two_pointer(walk_all(ls.drop_last()), ls.last())
    }
}

/// Intersect two lists with a two-pointer walk (the result is the walk's,
/// for any lists). Every id returned occurs in both lists; when both lists
/// strictly increase, the result is exactly the ids common to both, in
/// increasing order.
pub fn intersect_two(list1: &Vec<u32>, list2: &Vec<u32>) -> (res: Vec<u32>)
    ensures
        res@ == two_pointer(list1@, list2@),
        forall|k: int| 0 <= k < res@.len() ==> list1@.contains(#[trigger] res@[k]) && list2@.contains(
            res@[k],
        ),
        strictly_increasing(list1@) && strictly_increasing(list2@) ==> {
            &&& strictly_increasing(res@)
            &&& forall|x: u32| #[trigger]
                res@.contains(x) <==> (list1@.contains(x) && list2@.contains(x))
        },
{
    let ghost a = list1@;
    let ghost b = list2@;
    let ghost sorted = strictly_increasing(a) && strictly_increasing(b);
    let mut out: Vec<u32> = Vec::new();
    let mut i: usize = 0;
    let mut j: usize = 0;
    assert(a.skip(0) =~= a);
    assert(b.skip(0) =~= b);
    while i < list1.len() && j < list2.len()
        invariant
            a == list1@,
            b == list2@,
            out@ + two_pointer(a.skip(i as int), b.skip(j as int)) == two_pointer(a, b),
            sorted == (strictly_increasing(a) && strictly_increasing(b)),
            i <= a.len(),
            j <= b.len(),
            forall|k: int| 0 <= k < out@.len() ==> a.contains(#[trigger] out@[k]) && b.contains(
                out@[k],
            ),
            sorted ==> strictly_increasing(out@),
            sorted && i < a.len() ==> forall|k: int| 0 <= k < out@.len() ==> #[trigger] out@[k] < a[i as int],
            sorted ==> forall|x: u32|
                a.contains(x) && b.contains(x) && !(#[trigger] out@.contains(x)) ==> (i < a.len() && j
                    < b.len() && a[i as int] <= x && b[j as int] <= x),
        decreases a.len() - i + b.len() - j,
    {
        let x = list1[i];
        let y = list2[j];
        proof {
            assert(a.skip(i as int)[0] == x);
            assert(b.skip(j as int)[0] == y);
            assert(a.skip(i as int).drop_first() =~= a.skip(i + 1));
            assert(b.skip(j as int).drop_first() =~= b.skip(j + 1));
        }
        let ghost before = out@;
        if x == y {
            proof {
                assert(a.contains(x) && b.contains(x)) by {
                    assert(a[i as int] == x);
                    assert(b[j as int] == x);
                }
            }
            let ghost old_out = out@;
            out.push(x);
            proof {
                assert forall|z: u32| #[trigger] out@.contains(z) implies (old_out.contains(z) || z == x) by {
                    let k = choose|k: int| 0 <= k < out@.len() && out@[k] == z;
                    if k < old_out.len() {
                        assert(old_out[k] == z);
                    }
                }
                assert forall|z: u32| old_out.contains(z) implies #[trigger] out@.contains(z) by {
                    let k = choose|k: int| 0 <= k < old_out.len() && old_out[k] == z;
                    assert(out@[k] == z);
                }
                assert(out@[old_out.len() as int] == x);
                if sorted {
                    if i + 1 < a.len() {
                        assert(a[i as int] < a[i + 1]);
                    }
                    assert forall|z: u32|
                        a.contains(z) && b.contains(z) && !(#[trigger] out@.contains(z)) implies (i
                        + 1 < a.len() && j + 1 < b.len() && a[i + 1] <= z && b[j + 1] <= z) by {
                        assert(old_out.contains(z) == false);
                        assert(z != x);
                        let p = choose|p: int| 0 <= p < a.len() && a[p] == z;
                        let q = choose|q: int| 0 <= q < b.len() && b[q] == z;
                        assert(p > i && q > j);
                    }
                }
            }
            assert(out@ =~= before + seq![x]);
            i = i + 1;
            j = j + 1;
        } else if x < y {
            proof {
                if sorted {
                    assert forall|z: u32|
                        a.contains(z) && b.contains(z) && !(#[trigger] out@.contains(z)) implies (i
                        + 1 < a.len() && a[i + 1] <= z && b[j as int] <= z) by {
                        let p = choose|p: int| 0 <= p < a.len() && a[p] == z;
                        let q = choose|q: int| 0 <= q < b.len() && b[q] == z;
                        if p == i {
                            assert(q >= j);
                            assert(b[q] >= b[j as int]);
                        }
                    }
                }
            }
            i = i + 1;
        } else {
            proof {
                if sorted {
                    assert forall|z: u32|
                        a.contains(z) && b.contains(z) && !(#[trigger] out@.contains(z)) implies (j
                        + 1 < b.len() && b[j + 1] <= z && a[i as int] <= z) by {
                        let p = choose|p: int| 0 <= p < a.len() && a[p] == z;
                        let q = choose|q: int| 0 <= q < b.len() && b[q] == z;
                        if q == j {
                            assert(p >= i);
                            assert(a[p] >= a[i as int]);
                        }
                    }
                }
            }
            j = j + 1;
        }
    }
    proof {
        if i >= a.len() {
            assert(a.skip(i as int).len() == 0);
        } else {
            assert(b.skip(j as int).len() == 0);
        }
        assert(out@ + Seq::<u32>::empty() =~= out@);
    }
    out
}

/// Intersect all lists, walking the running result against each list in
/// turn (none when there are no lists). Every id returned occurs in every
/// list; when every list strictly increases, the result is exactly the ids
/// common to all lists, in increasing order.
pub fn intersect_all(doc_id_list: Vec<Vec<u32>>) -> (res: Vec<u32>)
    ensures
        res@ == walk_all(lists_view(doc_id_list@)),
        doc_id_list@.len() == 0 ==> res@.len() == 0,
        forall|k: int| 0 <= k < res@.len() ==> in_all(doc_id_list@, #[trigger] res@[k]),
        doc_id_list@.len() > 0 && all_strictly_increasing(doc_id_list@) ==> {
            &&& strictly_increasing(res@)
            &&& forall|x: u32| #[trigger] res@.contains(x) <==> in_all(doc_id_list@, x)
        },
{
    let ghost ls = doc_id_list@;
    if doc_id_list.len() == 0 {
        return Vec::new();
    }
    let ghost sorted = all_strictly_increasing(ls);
    let mut final_list: Vec<u32> = vstd::slice::slice_to_vec(doc_id_list[0].as_slice());
    let mut i: usize = 1;
    proof {
        assert(lists_view(ls).take(1) =~= seq![ls[0]@]);
        if sorted {
            assert(strictly_increasing(ls[0]@));
        }
        let t = ls.take(1);
        assert(t[0] == ls[0]);
        assert forall|x: u32| #[trigger] final_list@.contains(x) <==> in_all(t, x) by {
            if in_all(t, x) {
                assert(t[0]@.contains(x));
            }
        }
        assert forall|k: int| 0 <= k < final_list@.len() implies in_all(t, #[trigger] final_list@[k]) by {
            assert(t[0]@[k] == final_list@[k]);
        }
    }
    while i < doc_id_list.len()
        invariant
            ls == doc_id_list@,
            ls.len() > 0,
            sorted == all_strictly_increasing(ls),
            1 <= i <= ls.len(),
            forall|k: int| 0 <= k < final_list@.len() ==> in_all(ls.take(i as int), #[trigger] final_list@[k]),
            sorted ==> strictly_increasing(final_list@),
            sorted ==> forall|x: u32| #[trigger] final_list@.contains(x) <==> in_all(ls.take(i as int), x),
            final_list@ == walk_all(lists_view(ls).take(i as int)),
        decreases ls.len() - i,
    {
        let next = intersect_two(&final_list, &doc_id_list[i]);
        proof {
            let lv = lists_view(ls);
            assert(lv.take(i + 1).drop_last() =~= lv.take(i as int));
            assert(lv.take(i + 1).last() == ls[i as int]@);
        }
        proof {
            let t = ls.take(i as int);
            let t2 = ls.take(i + 1);
            assert forall|x: u32| in_all(t, x) && ls[i as int]@.contains(x) <==> in_all(t2, x) by {
                if in_all(t, x) && ls[i as int]@.contains(x) {
                    assert forall|k: int| 0 <= k < t2.len() implies (#[trigger] t2[k])@.contains(x) by {
                        if k < i {
                            assert(t2[k] == t[k]);
                        }
                    }
                }
                if in_all(t2, x) {
                    assert forall|k: int| 0 <= k < t.len() implies (#[trigger] t[k])@.contains(x) by {
                        assert(t2[k] == t[k]);
                    }
                    assert(t2[i as int] == ls[i as int]);
                }
            }
            assert forall|k: int| 0 <= k < next@.len() implies in_all(t2, #[trigger] next@[k]) by {
                let x = next@[k];
                let p = choose|p: int| 0 <= p < final_list@.len() && final_list@[p] == x;
                assert(in_all(t, final_list@[p]));
            }
            if sorted {
                assert(strictly_increasing(ls[i as int]@));
            }
        }
        final_list = next;
        i = i + 1;
    }
    proof {
        assert(ls.take(ls.len() as int) =~= ls);
        assert(lists_view(ls).take(ls.len() as int) =~= lists_view(ls));
    }
    final_list
}

/// Two strictly increasing lists with the same elements are the same list.
pub proof fn lemma_strictly_increasing_unique(a: Seq<u32>, b: Seq<u32>)
    requires
        strictly_increasing(a),
        strictly_increasing(b),
        forall|x: u32| a.contains(x) <==> b.contains(x),
    ensures
        a == b,
    decreases a.len() + b.len(),
{
    if a.len() == 0 {
        if b.len() > 0 {
            assert(b.contains(b[0]));
        }
        assert(a =~= b);
    } else if b.len() == 0 {
        assert(a.contains(a[0]));
    } else {
        assert(a.contains(a[0]));
        assert(b.contains(b[0]));
        let i = choose|i: int| 0 <= i < b.len() && b[i] == a[0];
        let j = choose|j: int| 0 <= j < a.len() && a[j] == b[0];
        if i > 0 {
            assert(b[0] < b[i]);
        }
        if j > 0 {
            assert(a[0] < a[j]);
        }
        assert(a[0] == b[0]);
        let ta = a.drop_first();
        let tb = b.drop_first();
        assert forall|x: u32| ta.contains(x) <==> tb.contains(x) by {
            if ta.contains(x) {
                let k = choose|k: int| 0 <= k < ta.len() && ta[k] == x;
                assert(a[0] < a[k + 1]);
                assert(a.contains(x));
                let m = choose|m: int| 0 <= m < b.len() && b[m] == x;
                assert(m != 0);
                assert(tb[m - 1] == x);
            }
            if tb.contains(x) {
                let k = choose|k: int| 0 <= k < tb.len() && tb[k] == x;
                assert(b[0] < b[k + 1]);
                assert(b.contains(x));
                let m = choose|m: int| 0 <= m < a.len() && a[m] == x;
                assert(m != 0);
                assert(ta[m - 1] == x);
            }
        }
        lemma_strictly_increasing_unique(ta, tb);
        assert(a =~= seq![a[0]] + ta);
        assert(b =~= seq![b[0]] + tb);
    }
}

/// Intersecting two strictly increasing lists gives the same list in either
/// order.
pub proof fn lemma_intersection_commutes(a: Seq<u32>, b: Seq<u32>, r1: Seq<u32>, r2: Seq<u32>)
    requires
        strictly_increasing(r1),
        strictly_increasing(r2),
        forall|x: u32| #[trigger] r1.contains(x) <==> (a.contains(x) && b.contains(x)),
        forall|x: u32| #[trigger] r2.contains(x) <==> (b.contains(x) && a.contains(x)),
    ensures
        r1 == r2,
{
    assert forall|x: u32| r1.contains(x) <==> r2.contains(x) by {
        assert(r1.contains(x) <==> (a.contains(x) && b.contains(x)));
        assert(r2.contains(x) <==> (b.contains(x) && a.contains(x)));
    }
    lemma_strictly_increasing_unique(r1, r2);
}

/// The query terms that the dictionary `m` holds, in query order, each with
/// its entry.
pub open spec fn found_terms(ts: Seq<Seq<char>>, m: Map<Seq<char>, TermEntry>) -> Seq<(Seq<char>, TermEntry)>
    decreases ts.len(),
{
    if ts.len() == 0 {
        seq![]
    } else {
        let r = found_terms(ts.drop_last(), m);
        if m.contains_key(ts.last()) {
            r.push((ts.last(), m[ts.last()]))
        } else {
            r
        }
    }
}

/// The entries with document frequency `f`, in order.
pub open spec fn with_doc_freq(s: Seq<(Seq<char>, TermEntry)>, f: u32) -> Seq<(Seq<char>, TermEntry)> {
    s.filter(|x: (Seq<char>, TermEntry)| x.1.doc_freq == f)
}

/// Document frequencies never decrease along the sequence.
pub open spec fn freq_sorted(s: Seq<(Seq<char>, TermEntry)>) -> bool {
    forall|i: int, j: int| 0 <= i <= j < s.len() ==> #[trigger] s[i].1.doc_freq <= #[trigger] s[j].1.doc_freq
}

/// Terms with their entries, each term taken by its characters.
pub open spec fn named_view(v: Seq<(String, TermEntry)>) -> Seq<(Seq<char>, TermEntry)> {
    v.map_values(|x: (String, TermEntry)| (x.0@, x.1))
}

/// The characters of each string.
pub open spec fn strings_view(v: Seq<String>) -> Seq<Seq<char>> {
    v.map_values(|x: String| x@)
}

proof fn lemma_filter_none<A>(s: Seq<A>, pred: spec_fn(A) -> bool)
    requires
        forall|i: int| 0 <= i < s.len() ==> !pred(#[trigger] s[i]),
    ensures
        s.filter(pred) == Seq::<A>::empty(),
{
    s.lemma_all_neg_filter_empty(pred);
    assert(s.filter(pred) =~= Seq::<A>::empty());
}

/// Inserting `x` after every entry of no greater frequency and before every
/// entry of greater frequency keeps the order and adds `x` after the entries
/// of its own frequency.
proof fn lemma_insert_by_freq(v: Seq<(Seq<char>, TermEntry)>, p: int, x: (Seq<char>, TermEntry))
    requires
        0 <= p <= v.len(),
        freq_sorted(v),
        forall|i: int| 0 <= i < p ==> (#[trigger] v[i]).1.doc_freq <= x.1.doc_freq,
        forall|i: int| p <= i < v.len() ==> (#[trigger] v[i]).1.doc_freq > x.1.doc_freq,
    ensures
        freq_sorted(v.insert(p, x)),
        forall|f: u32|
            #[trigger] with_doc_freq(v.insert(p, x), f) == if f == x.1.doc_freq {
                with_doc_freq(v, f).push(x)
            } else {
                with_doc_freq(v, f)
            },
{
    broadcast use Seq::filter_distributes_over_add;

    let w = v.insert(p, x);
    assert forall|i: int, j: int| 0 <= i <= j < w.len() implies #[trigger] w[i].1.doc_freq
        <= #[trigger] w[j].1.doc_freq by {
        if j < p {
            assert(w[i] == v[i] && w[j] == v[j]);
        } else if j == p {
            if i < p {
                assert(w[i] == v[i]);
            }
        } else {
            assert(w[j] == v[j - 1]);
            if i < p {
                assert(w[i] == v[i]);
            } else if i > p {
                assert(w[i] == v[i - 1]);
            }
        }
    }
    let a = v.take(p);
    let b = v.skip(p);
    assert(v =~= a + b);
    assert(w =~= a + seq![x] + b);
    assert forall|f: u32|
        #[trigger] with_doc_freq(w, f) == if f == x.1.doc_freq {
            with_doc_freq(v, f).push(x)
        } else {
            with_doc_freq(v, f)
        } by {
        let pred = |y: (Seq<char>, TermEntry)| y.1.doc_freq == f;
        Seq::<(Seq<char>, TermEntry)>::empty().lemma_filter_push(x, pred);
        assert(Seq::<(Seq<char>, TermEntry)>::empty().push(x) =~= seq![x]);
        lemma_filter_none(Seq::<(Seq<char>, TermEntry)>::empty(), pred);
        assert((a + seq![x] + b).filter(pred) == (a + seq![x]).filter(pred) + b.filter(pred));
        assert((a + seq![x]).filter(pred) == a.filter(pred) + seq![x].filter(pred));
        assert((a + b).filter(pred) == a.filter(pred) + b.filter(pred));
        if f == x.1.doc_freq {
            assert forall|i: int| 0 <= i < b.len() implies !pred(#[trigger] b[i]) by {
                assert(b[i] == v[p + i]);
            }
            lemma_filter_none(b, pred);
            assert(a.filter(pred) + seq![x] =~= a.filter(pred).push(x));
            assert(a.filter(pred) + Seq::<(Seq<char>, TermEntry)>::empty() =~= a.filter(pred));
        } else {
            assert(a.filter(pred) + Seq::<(Seq<char>, TermEntry)>::empty() =~= a.filter(pred));
        }
    }
}

/// The query terms that the dictionary holds, each with its entry, ordered
/// by increasing document frequency so that intersection starts from the
/// shortest lists; terms of equal frequency keep their query order.
pub fn terms_by_doc_freq(term_list: &Vec<String>, term_index: &TermIndex) -> (res: Vec<(String, TermEntry)>)
    requires
        term_index.wf(),
    ensures
        freq_sorted(named_view(res@)),
        forall|f: u32|
            #[trigger] with_doc_freq(named_view(res@), f) == with_doc_freq(
                found_terms(strings_view(term_list@), entries_map(term_index@)),
                f,
            ),
{
    let ghost ts = strings_view(term_list@);
    let ghost m = entries_map(term_index@);
    let mut res: Vec<(String, TermEntry)> = Vec::new();
    let mut k: usize = 0;
    assert(ts.take(0) =~= Seq::<Seq<char>>::empty());
    while k < term_list.len()
        invariant
            term_index.wf(),
            ts == strings_view(term_list@),
            m == entries_map(term_index@),
            k <= term_list@.len(),
            freq_sorted(named_view(res@)),
            forall|f: u32|
                #[trigger] with_doc_freq(named_view(res@), f) == with_doc_freq(
                    found_terms(ts.take(k as int), m),
                    f,
                ),
        decreases term_list@.len() - k,
    {
        let term = &term_list[k];
        assert(ts.take(k as int + 1).drop_last() =~= ts.take(k as int));
        assert(ts.take(k as int + 1).last() == term@);
        match term_index.get(term.as_str()) {
            Some(e) => {
                let entry = *e;
                let ghost v = named_view(res@);
                let mut p: usize = res.len();
                while p > 0 && res[p - 1].1.doc_freq > entry.doc_freq
                    invariant
                        p <= res@.len(),
                        v == named_view(res@),
                        freq_sorted(v),
                        forall|i: int| p <= i < v.len() ==> (#[trigger] v[i]).1.doc_freq > entry.doc_freq,
                    decreases p,
                {
                    assert(v[p - 1] == (res@[p - 1].0@, res@[p - 1].1));
                    p = p - 1;
                }
                proof {
                    if p > 0 {
                        assert(v[p - 1] == (res@[p - 1].0@, res@[p - 1].1));
                    }
                    assert forall|i: int| 0 <= i < p implies (#[trigger] v[i]).1.doc_freq
                        <= entry.doc_freq by {
                        assert(v[i].1.doc_freq <= v[p - 1].1.doc_freq);
                    }
                    lemma_insert_by_freq(v, p as int, (term@, entry));
                }
                res.insert(p, (term.clone(), entry));
                assert(named_view(res@) =~= v.insert(p as int, (term@, entry)));
                proof {
                    assert(m.contains_key(term@));
                    assert forall|f: u32|
                        #[trigger] with_doc_freq(named_view(res@), f) == with_doc_freq(
                            found_terms(ts.take(k as int + 1), m),
                            f,
                        ) by {
                        let pred = |y: (Seq<char>, TermEntry)| y.1.doc_freq == f;
                        found_terms(ts.take(k as int), m).lemma_filter_push((term@, entry), pred);
                    }
                }
            },
            None => {
                assert(!m.contains_key(term@));
            },
        }
        k = k + 1;
    }
    assert(ts.take(term_list@.len() as int) =~= ts);
    res
}

} // verus!
