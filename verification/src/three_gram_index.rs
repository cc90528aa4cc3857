//! Character trigrams of terms and the trigram index used for spell
//! correction. Trigrams are taken over characters (never bytes) of the term
//! padded with `$` on both sides.

use vstd::prelude::*;
use crate::cleanup::strs;
use crate::term_map::{entries_map, has_term, lemma_entries_map_at, search_result, term_index, terms_sorted, TermMap};
use crate::text::{chars_equal, str_chars, string_from_chars};

verus! {

/// The term with a `$` marker on each side.
pub open spec fn padded(term: Seq<char>) -> Seq<char> {
    seq!['$'] + term + seq!['$']
}

/// The trigrams of a term, in order, with repeats.
pub open spec fn trigrams(term: Seq<char>) -> Seq<Seq<char>> {
    let p = padded(term);
    Seq::new((p.len() - 2) as nat, |i: int| p.subrange(i, i + 3))
}

/// The first occurrence of each element, in order.
pub open spec fn dedup(s: Seq<Seq<char>>) -> Seq<Seq<char>>
    decreases s.len(),
{
    if s.len() == 0 {
        seq![]
    } else {
        let d = dedup(s.drop_last());
        if d.contains(s.last()) {
            d
        } else {
            d.push(s.last())
        }
    }
}

/// The distinct trigrams of a term, in order of first occurrence.
pub open spec fn gram_seq(term: Seq<char>) -> Seq<Seq<char>> {
    dedup(trigrams(term))
}

/// No element occurs twice.
pub open spec fn no_dups<T>(s: Seq<T>) -> bool {
    forall|i: int, j: int| 0 <= i < j < s.len() ==> s[i] != s[j]
}

pub(crate) proof fn lemma_dedup(s: Seq<Seq<char>>)
    ensures
        no_dups(dedup(s)),
        forall|x: Seq<char>| #[trigger] dedup(s).contains(x) <==> s.contains(x),
    decreases s.len(),
{
    if s.len() > 0 {
        let t = s.drop_last();
        lemma_dedup(t);
        let d = dedup(t);
        assert forall|x: Seq<char>| #[trigger] dedup(s).contains(x) <==> s.contains(x) by {
            if s.contains(x) && x != s.last() {
                let i = choose|i: int| 0 <= i < s.len() && s[i] == x;
                assert(t[i] == x);
            }
            if t.contains(x) {
                let i = choose|i: int| 0 <= i < t.len() && t[i] == x;
                assert(s[i] == x);
            }
            if dedup(s).contains(x) && !d.contains(x) {
                assert(dedup(s) == d.push(s.last()));
                let i = choose|i: int| 0 <= i < dedup(s).len() && dedup(s)[i] == x;
                assert(x == s.last());
            }
            if x == s.last() {
                assert(s[s.len() - 1] == x);
                if !d.contains(x) {
                    assert(d.push(x)[d.len() as int] == x);
                }
            }
            if d.contains(x) && !(d.contains(s.last())) {
                let i = choose|i: int| 0 <= i < d.len() && d[i] == x;
                assert(d.push(s.last())[i] == x);
            }
        }
    }
}

/// The characters of a term, padded with `$` on both sides.
fn padded_chars(term: &str) -> (res: Vec<char>)
    ensures
        res@ == padded(term@),
{
    let cs = str_chars(term);
    let mut p: Vec<char> = Vec::new();
    p.push('$');
    let mut i: usize = 0;
    while i < cs.len()
        invariant
            i <= cs@.len(),
            p@ == seq!['$'] + cs@.take(i as int),
        decreases cs@.len() - i,
    {
        p.push(cs[i]);
        i = i + 1;
        assert(p@ =~= seq!['$'] + cs@.take(i as int));
    }
    p.push('$');
    assert(cs@.take(i as int) =~= cs@);
    assert(p@ =~= padded(term@));
    p
}

/// The `i`-th trigram of padded characters.
fn window(p: &Vec<char>, i: usize) -> (res: Vec<char>)
    requires
        i < p.len(),
        p.len() - i >= 3,
    ensures
        res@ == p@.subrange(i as int, i + 3),
{
    let mut w: Vec<char> = Vec::new();
    w.push(p[i]);
    w.push(p[i + 1]);
    w.push(p[i + 2]);
    assert(w@ =~= p@.subrange(i as int, i + 3));
    w
}

pub(crate) fn contains_chars(v: &Vec<Vec<char>>, x: &Vec<char>) -> (res: bool)
    ensures
        res == v@.map_values(|e: Vec<char>| e@).contains(x@),
{
    let ghost vs = v@.map_values(|e: Vec<char>| e@);
    let mut i: usize = 0;
    while i < v.len()
        invariant
            i <= v@.len(),
            vs == v@.map_values(|e: Vec<char>| e@),
            forall|k: int| 0 <= k < i ==> vs[k] != x@,
        decreases v@.len() - i,
    {
        if chars_equal(&v[i], x) {
            assert(vs[i as int] == x@);
            return true;
        }
        i = i + 1;
    }
    false
}

/// The distinct trigrams of a term as character vectors, in order of first
/// occurrence.
pub(crate) fn gram_chars(term: &str) -> (res: Vec<Vec<char>>)
    ensures
        res@.map_values(|e: Vec<char>| e@) == gram_seq(term@),
{
    let p = padded_chars(term);
    let ghost tg = trigrams(term@);
    let mut out: Vec<Vec<char>> = Vec::new();
    let mut i: usize = 0;
    assert(tg.take(0) =~= Seq::<Seq<char>>::empty());
    assert(out@.map_values(|e: Vec<char>| e@) =~= dedup(tg.take(0)));
    while p.len() >= 3 && i <= p.len() - 3
        invariant
            p@ == padded(term@),
            tg == trigrams(term@),
            i <= tg.len(),
            out@.map_values(|e: Vec<char>| e@) == dedup(tg.take(i as int)),
        decreases p@.len() - i,
    {
        let w = window(&p, i);
        assert(tg[i as int] == w@);
        assert(tg.take(i + 1).drop_last() =~= tg.take(i as int));
        assert(tg.take(i + 1).last() == w@);
        let ghost before = out@.map_values(|e: Vec<char>| e@);
        if !contains_chars(&out, &w) {
            out.push(w);
            assert(out@.map_values(|e: Vec<char>| e@) =~= before.push(tg[i as int]));
        }
        i = i + 1;
    }
    assert(tg.take(i as int) =~= tg);
    out
}

/// The distinct trigrams of a term, in order of first occurrence. A term
/// gives `len + 2 - 2` windows of its `$`-padded characters; the empty term
/// gives none.
pub fn three_gram_set(term: &str) -> (res: Vec<String>)
    ensures
        strs(res@) == gram_seq(term@),
        no_dups(strs(res@)),
{
    let gs = gram_chars(term);
    let mut out: Vec<String> = Vec::new();
    let mut i: usize = 0;
    while i < gs.len()
        invariant
            i <= gs@.len(),
            strs(out@) == gs@.map_values(|e: Vec<char>| e@).take(i as int),
        decreases gs@.len() - i,
    {
        let ghost before = strs(out@);
        let st = string_from_chars(gs[i].as_slice());
        assert(st@ == gs@.map_values(|e: Vec<char>| e@)[i as int]);
        out.push(st);
        assert(strs(out@) =~= before.push(st@));
        i = i + 1;
        assert(strs(out@) =~= gs@.map_values(|e: Vec<char>| e@).take(i as int));
    }
    assert(gs@.map_values(|e: Vec<char>| e@).take(i as int) =~= gs@.map_values(|e: Vec<char>| e@));
    proof {
        lemma_dedup(trigrams(term@));
    }
    out
}

} // verus!

verus! {

/// A trigram index: each trigram with the terms that contain it, in the
/// order they were added.
pub type GramIndex = TermMap<Vec<String>>;

/// A trigram index as a map from trigram to its term list.
pub open spec fn gram_map(g: &GramIndex) -> Map<Seq<char>, Seq<Seq<char>>> {
    entries_map(g@).map_values(|v: Vec<String>| strs(v@))
}

/// Add term `t` to the list of `gram`, creating the list if absent; a term
/// already listed is not listed again.
pub open spec fn add_term(m: Map<Seq<char>, Seq<Seq<char>>>, gram: Seq<char>, t: Seq<char>) -> Map<
    Seq<char>,
    Seq<Seq<char>>,
> {
    let l = if m.contains_key(gram) {
        m[gram]
    } else {
        seq![]
    };
    m.insert(
        gram,
        if l.contains(t) {
            l
        } else {
            l.push(t)
        },
    )
}

/// Add term `t` under each of the grams, in order.
pub open spec fn add_term_all(
    m: Map<Seq<char>, Seq<Seq<char>>>,
    grams: Seq<Seq<char>>,
    t: Seq<char>,
) -> Map<Seq<char>, Seq<Seq<char>>>
    decreases grams.len(),
{
    if grams.len() == 0 {
        m
    } else {
        add_term_all(add_term(m, grams[0], t), grams.drop_first(), t)
    }
}

/// Every term list of the map holds each term once.
pub open spec fn lists_distinct(m: Map<Seq<char>, Seq<Seq<char>>>) -> bool {
    forall|g: Seq<char>| #[trigger] m.contains_key(g) ==> no_dups(m[g])
}

pub(crate) fn list_contains(l: &Vec<String>, t: &String) -> (res: bool)
    ensures
        res == strs(l@).contains(t@),
{
    let mut i: usize = 0;
    while i < l.len()
        invariant
            i <= l@.len(),
            forall|k: int| 0 <= k < i ==> strs(l@)[k] != t@,
        decreases l@.len() - i,
    {
        if l[i] == *t {
            assert(strs(l@)[i as int] == t@);
            return true;
        }
        i = i + 1;
    }
    false
}

proof fn lemma_map_values_update(
    e: Seq<(Seq<char>, Vec<String>)>,
    n: Seq<(Seq<char>, Vec<String>)>,
    k: Seq<char>,
    v: Vec<String>,
)
    requires
        entries_map(n) == entries_map(e).insert(k, v),
    ensures
        entries_map(n).map_values(|v: Vec<String>| strs(v@)) == entries_map(e).map_values(
            |v: Vec<String>| strs(v@),
        ).insert(k, strs(v@)),
{
    assert(entries_map(n).map_values(|v: Vec<String>| strs(v@)) =~= entries_map(e).map_values(
        |v: Vec<String>| strs(v@),
    ).insert(k, strs(v@)));
}

/// Add `term` under gram `gram`, listing it at most once.
fn add_to_gram(gram_index: &mut GramIndex, gram: &Vec<char>, term: &String)
    requires
        old(gram_index).wf(),
    ensures
        final(gram_index).wf(),
        gram_map(final(gram_index)) == add_term(gram_map(old(gram_index)), gram@, term@),
        lists_distinct(gram_map(old(gram_index))) ==> lists_distinct(gram_map(final(gram_index))),
{
    let ghost m0 = gram_map(gram_index);
    let ghost e0 = gram_index@;
    proof {
        gram_index.lemma_sorted();
    }
    match gram_index.search(gram) {
        Ok(i) => {
            proof {
                lemma_entries_map_at(e0, i as int);
            }
            let mut list = gram_index.replace_value(i, Vec::new());
            assert(strs(list@) == m0[gram@]);
            let ghost l0 = strs(list@);
            if !list_contains(&list, term) {
                list.push(term.clone());
                assert(strs(list@) =~= l0.push(term@));
            }
            let ghost lv = list;
            let ghost mid = gram_index@;
            let _ = gram_index.replace_value(i, list);
            proof {
                gram_index.lemma_sorted();
                assert(gram_index@ == e0.update(i as int, (e0[i as int].0, lv)));
                crate::term_map::lemma_entries_map_update(e0, gram_index@, i as int);
                lemma_map_values_update(e0, gram_index@, gram@, lv);
                if lists_distinct(m0) {
                    assert(m0.contains_key(gram@));
                    assert(no_dups(l0));
                    assert forall|g: Seq<char>| #[trigger] gram_map(gram_index).contains_key(g) implies no_dups(
                        gram_map(gram_index)[g],
                    ) by {
                        if g != gram@ {
                            assert(m0.contains_key(g));
                        } else {
                            if !l0.contains(term@) {
                                assert forall|a: int, b: int| 0 <= a < b < l0.push(term@).len() implies l0.push(term@)[a] != l0.push(term@)[b] by {
                                    if b == l0.len() {
                                        assert(l0[a] == l0.push(term@)[a]);
                                    }
                                }
                            }
                        }
                    }
                }
            }
            assert(gram_map(gram_index) =~= add_term(m0, gram@, term@));
        },
        Err(i) => {
            proof {
                assert(!has_term(e0, gram@)) by {
                    if has_term(e0, gram@) {
                        let j = choose|j: int| 0 <= j < e0.len() && #[trigger] e0[j].0 == gram@;
                        crate::text::lemma_chars_lt_irreflexive(gram@);
                    }
                }
            }
            let mut list: Vec<String> = Vec::new();
            list.push(term.clone());
            let ghost lv = list;
            assert(strs(lv@) =~= seq![term@]);
            let key = string_from_chars(gram.as_slice());
            gram_index.insert_at(i, key, list);
            proof {
                gram_index.lemma_sorted();
                crate::term_map::lemma_entries_map_insert(e0, gram_index@, i as int);
                lemma_map_values_update(e0, gram_index@, gram@, lv);
                if lists_distinct(m0) {
                    assert forall|g: Seq<char>| #[trigger] gram_map(gram_index).contains_key(g) implies no_dups(
                        gram_map(gram_index)[g],
                    ) by {
                        if g != gram@ {
                            assert(m0.contains_key(g));
                        }
                    }
                }
            }
            assert(gram_map(gram_index) =~= add_term(m0, gram@, term@));
        },
    }
}

/// Add a term to the trigram index: under each trigram of the `$`-padded
/// term (characters, not bytes), the term is listed once.
pub fn three_gram_index(term: &str, gram_index: &mut GramIndex)
    requires
        old(gram_index).wf(),
    ensures
        final(gram_index).wf(),
        gram_map(final(gram_index)) == add_term_all(gram_map(old(gram_index)), trigrams(term@), term@),
        lists_distinct(gram_map(old(gram_index))) ==> lists_distinct(gram_map(final(gram_index))),
{
    let p = padded_chars(term);
    let ghost tg = trigrams(term@);
    let term_owned = term.to_owned();
    let ghost m0 = gram_map(gram_index);
    let mut i: usize = 0;
    assert(tg.skip(0) =~= tg);
    while p.len() >= 3 && i <= p.len() - 3
        invariant
            p@ == padded(term@),
            tg == trigrams(term@),
            term_owned@ == term@,
            i <= tg.len(),
            gram_index.wf(),
            add_term_all(gram_map(gram_index), tg.skip(i as int), term@) == add_term_all(m0, tg, term@),
            lists_distinct(m0) ==> lists_distinct(gram_map(gram_index)),
        decreases p@.len() - i,
    {
        let w = window(&p, i);
        assert(tg[i as int] == w@);
        assert(tg.skip(i as int).drop_first() =~= tg.skip(i + 1));
        assert(tg.skip(i as int)[0] == w@);
        add_to_gram(gram_index, &w, &term_owned);
        i = i + 1;
    }
    assert(tg.skip(i as int) =~= Seq::<Seq<char>>::empty());
}

/// After adding term `t` under grams `grams`, each of those grams lists `t`,
/// and every other gram keeps its list.
pub proof fn lemma_add_term_all_lists(m: Map<Seq<char>, Seq<Seq<char>>>, grams: Seq<Seq<char>>, t: Seq<char>)
    ensures
        forall|g: Seq<char>|
            #[trigger] grams.contains(g) ==> add_term_all(m, grams, t).contains_key(g) && add_term_all(
                m,
                grams,
                t,
            )[g].contains(t),
        forall|g: Seq<char>|
            !grams.contains(g) ==> (#[trigger] add_term_all(m, grams, t).contains_key(g) == m.contains_key(g)
                && (m.contains_key(g) ==> add_term_all(m, grams, t)[g] == m[g])),
    decreases grams.len(),
{
    if grams.len() > 0 {
        let m1 = add_term(m, grams[0], t);
        let rest = grams.drop_first();
        lemma_add_term_all_lists(m1, rest, t);
        let r = add_term_all(m1, rest, t);
        assert(add_term_all(m, grams, t) == r);
        let l = if m.contains_key(grams[0]) {
            m[grams[0]]
        } else {
            seq![]
        };
        assert(m1[grams[0]].contains(t)) by {
            if !l.contains(t) {
                assert(l.push(t)[l.len() as int] == t);
            }
        }
        assert forall|g: Seq<char>| #[trigger] grams.contains(g) implies add_term_all(m, grams, t).contains_key(g)
            && add_term_all(m, grams, t)[g].contains(t) by {
            if !rest.contains(g) {
                let k = choose|k: int| 0 <= k < grams.len() && grams[k] == g;
                if k > 0 {
                    assert(rest[k - 1] == g);
                }
                assert(r.contains_key(g) == m1.contains_key(g));
                assert(r[g] == m1[g]);
            } else {
                assert(r.contains_key(g) && r[g].contains(t));
            }
        }
        assert forall|g: Seq<char>| !grams.contains(g) implies (#[trigger] add_term_all(m, grams, t).contains_key(g)
            == m.contains_key(g) && (m.contains_key(g) ==> add_term_all(m, grams, t)[g] == m[g])) by {
            assert(grams[0] != g) by {
                assert(grams.contains(grams[0]));
            }
            if rest.contains(g) {
                let k = choose|k: int| 0 <= k < rest.len() && rest[k] == g;
                assert(grams[k + 1] == g);
            }
            assert(r.contains_key(g) == m1.contains_key(g));
            assert(m1.contains_key(g) ==> r[g] == m1[g]);
            assert(m1.contains_key(g) == m.contains_key(g));
        }
    }
}

} // verus!
