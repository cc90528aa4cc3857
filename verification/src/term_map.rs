//! A map from terms to values, held as parallel vectors sorted by term.

use vstd::prelude::*;
use crate::text::{chars_less, chars_lt, lemma_chars_lt_irreflexive, lemma_chars_lt_total, lemma_chars_lt_transitive, str_chars};

verus! {

/// Terms strictly increase along the entries.
pub open spec fn terms_sorted<T>(e: Seq<(Seq<char>, T)>) -> bool {
    forall|i: int, j: int| 0 <= i < j < e.len() ==> chars_lt(#[trigger] e[i].0, #[trigger] e[j].0)
}

/// Whether some entry has term `k`.
pub open spec fn has_term<T>(e: Seq<(Seq<char>, T)>, k: Seq<char>) -> bool {
    exists|i: int| 0 <= i < e.len() && #[trigger] e[i].0 == k
}

/// An index of an entry with term `k`, where there is one.
pub open spec fn term_index<T>(e: Seq<(Seq<char>, T)>, k: Seq<char>) -> int {
    choose|i: int| 0 <= i < e.len() && #[trigger] e[i].0 == k
}

/// The entries as a map from term to value.
pub open spec fn entries_map<T>(e: Seq<(Seq<char>, T)>) -> Map<Seq<char>, T> {
    Map::new(|k: Seq<char>| has_term(e, k), |k: Seq<char>| e[term_index(e, k)].1)
}

/// A map from terms to values. Entries are kept in increasing term order
/// (code point lexicographic, the order of `String`), so each term occurs
/// once and a walk over the entries visits the terms in sorted order.
pub struct TermMap<T> {
    keys: Vec<String>,
    vals: Vec<T>,
}

impl<T> View for TermMap<T> {
    type V = Seq<(Seq<char>, T)>;

    closed spec fn view(&self) -> Seq<(Seq<char>, T)> {
        Seq::new(self.keys@.len(), |i: int| (self.keys@[i]@, self.vals@[i]))
    }
}

/// Where the search for a term ends: the index holding it, or the index at
/// which it would be inserted.
pub open spec fn search_result<T>(e: Seq<(Seq<char>, T)>, k: Seq<char>, r: Result<usize, usize>) -> bool {
    match r {
        Ok(i) => i < e.len() && e[i as int].0 == k,
        Err(i) => {
            &&& i <= e.len()
            &&& forall|j: int| 0 <= j < i ==> chars_lt(#[trigger] e[j].0, k)
            &&& forall|j: int| i <= j < e.len() ==> chars_lt(k, #[trigger] e[j].0)
        },
    }
}

/// In sorted entries, the term at index `i` occurs nowhere else.
pub proof fn lemma_term_index_unique<T>(e: Seq<(Seq<char>, T)>, i: int, j: int)
    requires
        terms_sorted(e),
        0 <= i < e.len(),
        0 <= j < e.len(),
        e[i].0 == e[j].0,
    ensures
        i == j,
{
    if i < j {
        lemma_chars_lt_irreflexive(e[i].0);
    } else if j < i {
        lemma_chars_lt_irreflexive(e[i].0);
    }
}

/// The map view of sorted entries at an entry's term is that entry's value.
pub proof fn lemma_entries_map_at<T>(e: Seq<(Seq<char>, T)>, i: int)
    requires
        terms_sorted(e),
        0 <= i < e.len(),
    ensures
        entries_map(e).contains_key(e[i].0),
        entries_map(e)[e[i].0] == e[i].1,
{
    let k = e[i].0;
    assert(has_term(e, k));
    let j = term_index(e, k);
    lemma_term_index_unique(e, i, j);
}

impl<T> TermMap<T> {
    /// The vectors have equal length and the terms are sorted.
    pub closed spec fn wf(&self) -> bool {
        &&& self.keys@.len() == self.vals@.len()
        &&& terms_sorted(self@)
    }

    /// An empty map.
    pub fn new() -> (res: TermMap<T>)
        ensures
            res.wf(),
            res@ == Seq::<(Seq<char>, T)>::empty(),
    {
        let res = TermMap { keys: Vec::new(), vals: Vec::new() };
        assert(res@ =~= Seq::<(Seq<char>, T)>::empty());
        res
    }

    /// A well-formed map has sorted terms.
    pub proof fn lemma_sorted(&self)
        requires
            self.wf(),
        ensures
            terms_sorted(self@),
    {
    }

    /// Number of terms.
    pub fn len(&self) -> (res: usize)
        requires
            self.wf(),
        ensures
            res == self@.len(),
    {
        self.keys.len()
    }

    /// The term at index `i`.
    pub fn key_at(&self, i: usize) -> (res: &String)
        requires
            self.wf(),
            i < self@.len(),
        ensures
            res@ == self@[i as int].0,
    {
        &self.keys[i]
    }

    /// The value at index `i`.
    pub fn value_at(&self, i: usize) -> (res: &T)
        requires
            self.wf(),
            i < self@.len(),
        ensures
            *res == self@[i as int].1,
    {
        &self.vals[i]
    }

    /// Binary search for the term with characters `k`.
    pub fn search(&self, k: &Vec<char>) -> (res: Result<usize, usize>)
        requires
            self.wf(),
        ensures
            search_result(self@, k@, res),
    {
        let ghost e = self@;
        let mut lo: usize = 0;
        let mut hi: usize = self.keys.len();
        while lo < hi
            invariant
                self.wf(),
                e == self@,
                lo <= hi <= e.len(),
                forall|j: int| 0 <= j < lo ==> chars_lt(#[trigger] e[j].0, k@),
                forall|j: int| hi <= j < e.len() ==> chars_lt(k@, #[trigger] e[j].0),
            decreases hi - lo,
        {
            let mid = lo + (hi - lo) / 2;
            let mk = str_chars(self.keys[mid].as_str());
            assert(mk@ == e[mid as int].0);
            if chars_less(&mk, k) {
                assert forall|j: int| 0 <= j < mid + 1 implies chars_lt(#[trigger] e[j].0, k@) by {
                    if j < mid {
                        lemma_chars_lt_transitive(e[j].0, e[mid as int].0, k@);
                    }
                }
                lo = mid + 1;
            } else if chars_less(k, &mk) {
                assert forall|j: int| mid <= j < e.len() implies chars_lt(k@, #[trigger] e[j].0) by {
                    if j > mid {
                        lemma_chars_lt_transitive(k@, e[mid as int].0, e[j].0);
                    }
                }
                hi = mid;
            } else {
                proof {
                    lemma_chars_lt_total(mk@, k@);
                }
                return Ok(mid);
            }
        }
        Err(lo)
    }

    /// Look up the value of term `key`.
    pub fn get(&self, key: &str) -> (res: Option<&T>)
        requires
            self.wf(),
        ensures
            res is Some <==> has_term(self@, key@),
            res matches Some(v) ==> entries_map(self@)[key@] == *v,
    {
        let k = str_chars(key);
        match self.search(&k) {
            Ok(i) => {
                proof {
                    lemma_entries_map_at(self@, i as int);
                }
                Some(&self.vals[i])
            },
            Err(i) => {
                proof {
                    self.lemma_absent(k@, i as int);
                }
                None
            },
        }
    }

    /// Whether term `key` is held.
    pub fn contains_key(&self, key: &str) -> (res: bool)
        requires
            self.wf(),
        ensures
            res == has_term(self@, key@),
    {
        self.get(key).is_some()
    }

    proof fn lemma_absent(&self, k: Seq<char>, i: int)
        requires
            self.wf(),
            search_result(self@, k, Err(i as usize)),
            0 <= i,
        ensures
            !has_term(self@, k),
    {
        let e = self@;
        if has_term(e, k) {
            let j = choose|j: int| 0 <= j < e.len() && #[trigger] e[j].0 == k;
            lemma_chars_lt_irreflexive(k);
        }
    }

    /// Put `val` at index `i` and return the value held there before.
    pub fn replace_value(&mut self, i: usize, val: T) -> (res: T)
        requires
            old(self).wf(),
            i < old(self)@.len(),
        ensures
            res == old(self)@[i as int].1,
            final(self).wf(),
            final(self)@ == old(self)@.update(i as int, (old(self)@[i as int].0, val)),
    {
        let ghost v0 = val;
        let mut v = val;
        std::mem::swap(&mut self.vals[i], &mut v);
        assert(self@ =~= old(self)@.update(i as int, (old(self)@[i as int].0, v0)));
        v
    }

    /// Insert a new term at index `i`, the position that a search for it
    /// reported.
    pub fn insert_at(&mut self, i: usize, key: String, val: T)
        requires
            old(self).wf(),
            search_result(old(self)@, key@, Err(i)),
        ensures
            final(self).wf(),
            final(self)@ == old(self)@.insert(i as int, (key@, val)),
    {
        let ghost e = old(self)@;
        let ghost kv = key@;
        let ghost v = val;
        self.keys.insert(i, key);
        self.vals.insert(i, val);
        assert(self@ =~= e.insert(i as int, (kv, v)));
        assert forall|a: int, b: int| 0 <= a < b < self@.len() implies chars_lt(
            #[trigger] self@[a].0,
            #[trigger] self@[b].0,
        ) by {
            if b < i {
            } else if b == i {
            } else if a < i {
                lemma_chars_lt_transitive(self@[a].0, kv, self@[b].0);
            } else if a == i {
            } else {
            }
        }
    }

    /// Set the value of term `key`, replacing any value it had.
    pub fn insert(&mut self, key: String, val: T)
        requires
            old(self).wf(),
        ensures
            final(self).wf(),
            entries_map(final(self)@) == entries_map(old(self)@).insert(key@, val),
            (forall|j: int| 0 <= j < old(self)@.len() ==> chars_lt(#[trigger] old(self)@[j].0, key@))
                ==> final(self)@ == old(self)@.push((key@, val)),
            forall|n: int|
                0 <= n < final(self)@.len() ==> #[trigger] final(self)@[n] == (key@, val) || old(
                    self,
                )@.contains(final(self)@[n]),
    {
        let k = str_chars(key.as_str());
        match self.search(&k) {
            Ok(i) => {
                let ghost e = old(self)@;
                proof {
                    if forall|j: int| 0 <= j < e.len() ==> chars_lt(#[trigger] e[j].0, key@) {
                        assert(chars_lt(e[i as int].0, key@));
                        lemma_chars_lt_irreflexive(key@);
                    }
                }
                let _ = self.replace_value(i, val);
                proof {
                    lemma_entries_map_update(e, self@, i as int);
                    assert forall|n: int| 0 <= n < self@.len() implies #[trigger] self@[n] == (key@, val)
                        || e.contains(self@[n]) by {
                        if n != i {
                            assert(self@[n] == e[n]);
                        }
                    }
                }
            },
            Err(i) => {
                let ghost e = old(self)@;
                proof {
                    if forall|j: int| 0 <= j < e.len() ==> chars_lt(#[trigger] e[j].0, key@) {
                        if (i as int) < e.len() {
                            assert(chars_lt(e[i as int].0, key@));
                            assert(chars_lt(key@, e[i as int].0));
                            lemma_chars_lt_total(key@, e[i as int].0);
                        }
                    }
                }
                let ghost kv = key@;
                self.insert_at(i, key, val);
                proof {
                    lemma_entries_map_insert(e, self@, i as int);
                    assert forall|n: int| 0 <= n < self@.len() implies #[trigger] self@[n] == (kv, val)
                        || e.contains(self@[n]) by {
                        if n < i {
                            assert(self@[n] == e[n]);
                        } else if n > i {
                            assert(self@[n] == e[n - 1]);
                        }
                    }
                }
            },
        }
    }
}

pub proof fn lemma_entries_map_update<T>(e: Seq<(Seq<char>, T)>, n: Seq<(Seq<char>, T)>, i: int)
    requires
        terms_sorted(n),
        terms_sorted(e),
        0 <= i < e.len(),
        n == e.update(i, (e[i].0, n[i].1)),
    ensures
        entries_map(n) == entries_map(e).insert(e[i].0, n[i].1),
{
    let k = e[i].0;
    assert forall|t: Seq<char>| has_term(n, t) <==> (has_term(e, t) || t == k) by {
        if has_term(n, t) {
            let j = choose|j: int| 0 <= j < n.len() && #[trigger] n[j].0 == t;
            assert(e[j].0 == t);
        }
        if has_term(e, t) {
            let j = choose|j: int| 0 <= j < e.len() && #[trigger] e[j].0 == t;
            assert(n[j].0 == t);
        }
        if t == k {
            assert(n[i].0 == t);
        }
    }
    assert forall|t: Seq<char>| #[trigger] has_term(n, t) implies entries_map(n)[t] == (if t == k {
        n[i].1
    } else {
        entries_map(e)[t]
    }) by {
        let j = choose|j: int| 0 <= j < n.len() && #[trigger] n[j].0 == t;
        lemma_entries_map_at(n, j);
        if t != k {
            assert(j != i);
            lemma_entries_map_at(e, j);
        } else {
            lemma_term_index_unique(n, i, j);
        }
    }
    assert(entries_map(n) =~= entries_map(e).insert(k, n[i].1));
}

pub proof fn lemma_entries_map_insert<T>(e: Seq<(Seq<char>, T)>, n: Seq<(Seq<char>, T)>, i: int)
    requires
        terms_sorted(n),
        terms_sorted(e),
        0 <= i <= e.len(),
        n.len() == e.len() + 1,
        n == e.insert(i, n[i]),
    ensures
        entries_map(n) == entries_map(e).insert(n[i].0, n[i].1),
{
    let k = n[i].0;
    assert forall|t: Seq<char>| has_term(n, t) <==> (has_term(e, t) || t == k) by {
        if has_term(n, t) {
            let j = choose|j: int| 0 <= j < n.len() && #[trigger] n[j].0 == t;
            if j < i {
                assert(e[j].0 == t);
            } else if j > i {
                assert(e[j - 1].0 == t);
            }
        }
        if has_term(e, t) {
            let j = choose|j: int| 0 <= j < e.len() && #[trigger] e[j].0 == t;
            if j < i {
                assert(n[j].0 == t);
            } else {
                assert(n[j + 1].0 == t);
            }
        }
        if t == k {
            assert(n[i].0 == t);
        }
    }
    assert forall|t: Seq<char>| #[trigger] has_term(n, t) implies entries_map(n)[t] == (if t == k {
        n[i].1
    } else {
        entries_map(e)[t]
    }) by {
        let j = choose|j: int| 0 <= j < n.len() && #[trigger] n[j].0 == t;
        lemma_entries_map_at(n, j);
        if t != k {
            if j < i {
                lemma_entries_map_at(e, j);
            } else {
                assert(j != i);
                lemma_entries_map_at(e, j - 1);
            }
        } else {
            lemma_term_index_unique(n, i, j);
        }
    }
    assert(entries_map(n) =~= entries_map(e).insert(k, n[i].1));
}

} // verus!
