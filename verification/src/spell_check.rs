//! Spell correction: trigram candidates, a document-frequency floor, a
//! trigram-overlap (Jaccard) filter and Levenshtein ranking.

use vstd::prelude::*;
use crate::text::str_chars;
use crate::three_gram_index::{gram_chars, gram_map, gram_seq, lemma_dedup, no_dups, trigrams, GramIndex};
use crate::block_merge::{TermEntry, TermIndex};
use crate::cleanup::strs;
use crate::term_map::{entries_map, has_term, lemma_entries_map_at};

verus! {

pub open spec fn min3(x: nat, y: nat, z: nat) -> nat {
    if x <= y && x <= z {
        x
    } else if y <= z {
        y
    } else {
        z
    }
}

/// Levenshtein edit distance over characters: the fewest insertions,
/// deletions and substitutions that turn `a` into `b`.
pub open spec fn levenshtein(a: Seq<char>, b: Seq<char>) -> nat
    decreases a.len() + b.len(),
{
    if a.len() == 0 {
        b.len()
    } else if b.len() == 0 {
        a.len()
    } else if a.last() == b.last() {
        levenshtein(a.drop_last(), b.drop_last())
    } else {
        1 + min3(
            levenshtein(a.drop_last(), b),
            levenshtein(a, b.drop_last()),
            levenshtein(a.drop_last(), b.drop_last()),
        )
    }
}

proof fn lemma_levenshtein_bound(a: Seq<char>, b: Seq<char>)
    ensures
        levenshtein(a, b) <= if a.len() >= b.len() {
            a.len()
        } else {
            b.len()
        },
    decreases a.len() + b.len(),
{
    if a.len() > 0 && b.len() > 0 {
        lemma_levenshtein_bound(a.drop_last(), b.drop_last());
        lemma_levenshtein_bound(a.drop_last(), b);
        lemma_levenshtein_bound(a, b.drop_last());
    }
}

/// A term is at distance zero from itself.
pub proof fn lemma_levenshtein_identity(a: Seq<char>)
    ensures
        levenshtein(a, a) == 0,
    decreases a.len(),
{
    if a.len() > 0 {
        lemma_levenshtein_identity(a.drop_last());
    }
}

proof fn lemma_lev_prefix_step(a: Seq<char>, b: Seq<char>, i: int, j: int)
    requires
        0 < i <= a.len(),
        0 < j <= b.len(),
    ensures
        levenshtein(a.take(i), b.take(j)) == if a[i - 1] == b[j - 1] {
            levenshtein(a.take(i - 1), b.take(j - 1))
        } else {
            1 + min3(
                levenshtein(a.take(i - 1), b.take(j)),
                levenshtein(a.take(i), b.take(j - 1)),
                levenshtein(a.take(i - 1), b.take(j - 1)),
            )
        },
{
    assert(a.take(i).drop_last() =~= a.take(i - 1));
    assert(b.take(j).drop_last() =~= b.take(j - 1));
    assert(a.take(i).last() == a[i - 1]);
    assert(b.take(j).last() == b[j - 1]);
}

/// Levenshtein edit distance between two terms, counted in characters
/// (two rows of the dynamic-programming table).
pub fn edit_distance(term1: &str, term2: &str) -> (res: usize)
    ensures
        res == levenshtein(term1@, term2@),
{
    let a = str_chars(term1);
    let b = str_chars(term2);
    let n = a.len();
    let m = b.len();
    let mut prev: Vec<usize> = Vec::new();
    prev.push(0);
    assert(a@.take(0).len() == 0);
    assert(b@.take(0).len() == 0);
    let mut j: usize = 0;
    while j < m
        invariant
            j <= m,
            m == b@.len(),
            prev@.len() == j + 1,
            forall|k: int| 0 <= k <= j ==> #[trigger] prev@[k] == levenshtein(a@.take(0), b@.take(k)),
        decreases m - j,
    {
        j = j + 1;
        prev.push(j);
        assert(a@.take(0).len() == 0);
        assert(b@.take(j as int).len() == j);
    }
    let mut i: usize = 0;
    while i < n
        invariant
            i <= n,
            n == a@.len(),
            m == b@.len(),
            prev@.len() == m + 1,
            forall|k: int| 0 <= k <= m ==> #[trigger] prev@[k] == levenshtein(a@.take(i as int), b@.take(k)),
        decreases n - i,
    {
        i = i + 1;
        let mut curr: Vec<usize> = Vec::new();
        curr.push(i);
        proof {
            assert(b@.take(0).len() == 0);
            assert(a@.take(i as int).len() == i);
        }
        let mut j: usize = 0;
        while j < m
            invariant
                1 <= i <= n,
                j <= m,
                n == a@.len(),
                m == b@.len(),
                prev@.len() == m + 1,
                curr@.len() == j + 1,
                forall|k: int| 0 <= k <= m ==> #[trigger] prev@[k] == levenshtein(a@.take(i - 1), b@.take(k)),
                forall|k: int| 0 <= k <= j ==> #[trigger] curr@[k] == levenshtein(a@.take(i as int), b@.take(k)),
            decreases m - j,
        {
            j = j + 1;
            proof {
                lemma_lev_prefix_step(a@, b@, i as int, j as int);
                lemma_levenshtein_bound(a@.take(i - 1), b@.take(j - 1));
            }
            let v = if a[i - 1] == b[j - 1] {
                prev[j - 1]
            } else {
                let x = prev[j];
                let y = curr[j - 1];
                let z = prev[j - 1];
                let mn = if x <= y && x <= z {
                    x
                } else if y <= z {
                    y
                } else {
                    z
                };
                1 + mn
            };
            curr.push(v);
        }
        prev = curr;
    }
    proof {
        assert(a@.take(n as int) =~= a@);
        assert(b@.take(m as int) =~= b@);
    }
    prev[m]
}

} // verus!

verus! {

/// How many elements of `a` occur in `b`.
pub open spec fn common_count(a: Seq<Seq<char>>, b: Seq<Seq<char>>) -> nat
    decreases a.len(),
{
    if a.len() == 0 {
        0
    } else {
        (if b.contains(a[0]) {
            1nat
        } else {
            0nat
        }) + common_count(a.drop_first(), b)
    }
}

/// How many elements of `a` do not occur in `b`.
pub open spec fn only_count(a: Seq<Seq<char>>, b: Seq<Seq<char>>) -> nat
    decreases a.len(),
{
    if a.len() == 0 {
        0
    } else {
        (if b.contains(a[0]) {
            0nat
        } else {
            1nat
        }) + only_count(a.drop_first(), b)
    }
}

fn count_in(a: &Vec<Vec<char>>, b: &Vec<Vec<char>>) -> (res: (usize, usize))
    ensures
        res.0 == common_count(a@.map_values(|e: Vec<char>| e@), b@.map_values(|e: Vec<char>| e@)),
        res.1 == only_count(a@.map_values(|e: Vec<char>| e@), b@.map_values(|e: Vec<char>| e@)),
{
    let ghost av = a@.map_values(|e: Vec<char>| e@);
    let ghost bv = b@.map_values(|e: Vec<char>| e@);
    let mut common: usize = 0;
    let mut only: usize = 0;
    let mut i: usize = 0;
    assert(av.skip(0) =~= av);
    while i < a.len()
        invariant
            i <= a@.len(),
            av == a@.map_values(|e: Vec<char>| e@),
            bv == b@.map_values(|e: Vec<char>| e@),
            common + only == i,
            common + common_count(av.skip(i as int), bv) == common_count(av, bv),
            only + only_count(av.skip(i as int), bv) == only_count(av, bv),
        decreases a@.len() - i,
    {
        assert(av.skip(i as int).drop_first() =~= av.skip(i + 1));
        assert(av.skip(i as int)[0] == a@[i as int]@);
        if crate::three_gram_index::contains_chars(b, &a[i]) {
            common = common + 1;
        } else {
            only = only + 1;
        }
        i = i + 1;
    }
    (common, only)
}

/// Trigram overlap of two terms: the number of distinct trigrams they share,
/// those only the first has, and those only the second has. Jaccard
/// similarity is the first count over the sum of all three.
pub fn jaccard_counts(term1: &str, term2: &str) -> (res: (usize, usize, usize))
    ensures
        res.0 == common_count(gram_seq(term1@), gram_seq(term2@)),
        res.1 == only_count(gram_seq(term1@), gram_seq(term2@)),
        res.2 == only_count(gram_seq(term2@), gram_seq(term1@)),
{
    let g1 = gram_chars(term1);
    let g2 = gram_chars(term2);
    let (common, only1) = count_in(&g1, &g2);
    let (_, only2) = count_in(&g2, &g1);
    (common, only1, only2)
}

proof fn lemma_counts_when_covered(a: Seq<Seq<char>>, b: Seq<Seq<char>>)
    requires
        forall|k: int| 0 <= k < a.len() ==> b.contains(#[trigger] a[k]),
    ensures
        common_count(a, b) == a.len(),
        only_count(a, b) == 0,
    decreases a.len(),
{
    if a.len() > 0 {
        let r = a.drop_first();
        assert forall|k: int| 0 <= k < r.len() implies b.contains(#[trigger] r[k]) by {
            assert(r[k] == a[k + 1]);
        }
        lemma_counts_when_covered(r, b);
        assert(b.contains(a[0]));
    }
}

proof fn lemma_counts_when_apart(a: Seq<Seq<char>>, b: Seq<Seq<char>>)
    requires
        forall|k: int| 0 <= k < a.len() ==> !b.contains(#[trigger] a[k]),
    ensures
        common_count(a, b) == 0,
        only_count(a, b) == a.len(),
    decreases a.len(),
{
    if a.len() > 0 {
        let r = a.drop_first();
        assert forall|k: int| 0 <= k < r.len() implies !b.contains(#[trigger] r[k]) by {
            assert(r[k] == a[k + 1]);
        }
        lemma_counts_when_apart(r, b);
        assert(!b.contains(a[0]));
    }
}

/// A term shares every one of its trigrams with itself: its Jaccard
/// similarity to itself is 1 whenever it has a trigram.
pub proof fn lemma_jaccard_self(t: Seq<char>)
    ensures
        common_count(gram_seq(t), gram_seq(t)) == gram_seq(t).len(),
        only_count(gram_seq(t), gram_seq(t)) == 0,
{
    let g = gram_seq(t);
    assert forall|k: int| 0 <= k < g.len() implies g.contains(#[trigger] g[k]) by {}
    lemma_counts_when_covered(g, g);
}

/// Terms with no trigram in common share nothing: their Jaccard similarity
/// is 0.
pub proof fn lemma_jaccard_disjoint(a: Seq<char>, b: Seq<char>)
    requires
        forall|g: Seq<char>| !(#[trigger] gram_seq(a).contains(g) && gram_seq(b).contains(g)),
    ensures
        common_count(gram_seq(a), gram_seq(b)) == 0,
        only_count(gram_seq(a), gram_seq(b)) == gram_seq(a).len(),
        only_count(gram_seq(b), gram_seq(a)) == gram_seq(b).len(),
{
    let ga = gram_seq(a);
    let gb = gram_seq(b);
    assert forall|k: int| 0 <= k < ga.len() implies !gb.contains(#[trigger] ga[k]) by {
        assert(ga.contains(ga[k]));
    }
    assert forall|k: int| 0 <= k < gb.len() implies !ga.contains(#[trigger] gb[k]) by {
        assert(gb.contains(gb[k]));
    }
    lemma_counts_when_apart(ga, gb);
    lemma_counts_when_apart(gb, ga);
}

proof fn lemma_counts_are_set_sizes(a: Seq<Seq<char>>, b: Seq<Seq<char>>)
    requires
        no_dups(a),
    ensures
        a.to_set().finite(),
        common_count(a, b) == a.to_set().intersect(b.to_set()).len(),
        only_count(a, b) == a.to_set().difference(b.to_set()).len(),
    decreases a.len(),
{
    broadcast use vstd::seq_lib::seq_to_set_is_finite;

    let sa = a.to_set();
    let sb = b.to_set();
    if a.len() == 0 {
        assert(sa.intersect(sb) =~= Set::<Seq<char>>::empty());
        assert(sa.difference(sb) =~= Set::<Seq<char>>::empty());
    } else {
        let x = a[0];
        let r = a.drop_first();
        assert(no_dups(r)) by {
            assert forall|i: int, j: int| 0 <= i < j < r.len() implies r[i] != r[j] by {
                assert(r[i] == a[i + 1] && r[j] == a[j + 1]);
            }
        }
        lemma_counts_are_set_sizes(r, b);
        let sr = r.to_set();
        assert(!sr.contains(x)) by {
            if sr.contains(x) {
                let k = choose|k: int| 0 <= k < r.len() && r[k] == x;
                assert(a[k + 1] == a[0]);
            }
        }
        assert forall|y: Seq<char>| sa.contains(y) <==> sr.insert(x).contains(y) by {
            if sa.contains(y) {
                let k = choose|k: int| 0 <= k < a.len() && a[k] == y;
                if k > 0 {
                    assert(r[k - 1] == y);
                }
            }
            if sr.contains(y) {
                let k = choose|k: int| 0 <= k < r.len() && r[k] == y;
                assert(a[k + 1] == y);
            }
            if y == x {
                assert(a[0] == y);
            }
        }
        assert(sa =~= sr.insert(x));
        if b.contains(x) {
            assert(sb.contains(x));
            assert(sa.intersect(sb) =~= sr.intersect(sb).insert(x));
            assert(sa.difference(sb) =~= sr.difference(sb));
        } else {
            assert(!sb.contains(x));
            assert(sa.intersect(sb) =~= sr.intersect(sb));
            assert(sa.difference(sb) =~= sr.difference(sb).insert(x));
        }
    }
}

/// The Jaccard test, stated over trigram sets: with `A` and `B` the sets of
/// trigrams of two terms, it passes exactly when `|A ∩ B| / |A ∪ B|`
/// exceeds 0.3 (the empty union never passes). The test is therefore
/// symmetric in the two terms.
pub proof fn lemma_jaccard_passes_sets(a: Seq<char>, b: Seq<char>)
    ensures
        jaccard_passes(a, b) <==> 10 * gram_seq(a).to_set().intersect(gram_seq(b).to_set()).len() > 3
            * gram_seq(a).to_set().union(gram_seq(b).to_set()).len(),
        jaccard_passes(a, b) == jaccard_passes(b, a),
{
    let ga = gram_seq(a);
    let gb = gram_seq(b);
    lemma_dedup(trigrams(a));
    lemma_dedup(trigrams(b));
    lemma_counts_are_set_sizes(ga, gb);
    lemma_counts_are_set_sizes(gb, ga);
    let sa = ga.to_set();
    let sb = gb.to_set();
    vstd::set_lib::lemma_set_difference_len(sa, sb);
    assert(sb.intersect(sa) =~= sa.intersect(sb));
    assert(sb + sa =~= sa + sb);
    vstd::set_lib::lemma_set_difference_len(sb, sa);
}

/// Trigram Jaccard similarity above 0.3: `10 * shared > 3 * all`, where
/// `shared` and `all` are the sizes of the intersection and union of the two
/// terms' trigram sets. (For sets of fewer than 2^50 trigrams this is exactly
/// the floating-point test `shared as f64 / all as f64 > 0.3`.)
pub open spec fn jaccard_passes(a: Seq<char>, b: Seq<char>) -> bool {
    let ga = gram_seq(a);
    let gb = gram_seq(b);
    let c = common_count(ga, gb);
    10 * c > 3 * (c + only_count(ga, gb) + only_count(gb, ga))
}

} // verus!

verus! {

/// Below this document frequency a term is taken for a typo itself and never
/// suggested.
pub const MIN_CANDIDATE_DOC_FREQ: u32 = 3;

/// `t` is listed under some trigram of `term`.
pub open spec fn is_candidate(gm: Map<Seq<char>, Seq<Seq<char>>>, term: Seq<char>, t: Seq<char>) -> bool {
    exists|g: Seq<char>| #[trigger] gram_seq(term).contains(g) && gm.contains_key(g) && gm[g].contains(t)
}

/// `t` is a suggestion for `term`: a trigram candidate that the dictionary
/// holds with document frequency at least 3, whose trigram Jaccard
/// similarity to `term` exceeds 0.3, and whose edit distance to `term` is
/// below half of `term`'s length in characters.
pub open spec fn is_suggestion(
    gm: Map<Seq<char>, Seq<Seq<char>>>,
    dm: Map<Seq<char>, TermEntry>,
    term: Seq<char>,
    t: Seq<char>,
) -> bool {
    &&& is_candidate(gm, term, t)
    &&& dm.contains_key(t)
    &&& dm[t].doc_freq >= MIN_CANDIDATE_DOC_FREQ
    &&& jaccard_passes(term, t)
    &&& levenshtein(term, t) < term.len() / 2
}

/// `a` ranks no lower than `b`: smaller edit distance, or equal distance and
/// document frequency at least as high.
pub open spec fn ranks_before(dm: Map<Seq<char>, TermEntry>, term: Seq<char>, a: Seq<char>, b: Seq<char>) -> bool {
    levenshtein(term, a) < levenshtein(term, b) || (levenshtein(term, a) == levenshtein(term, b)
        && dm[a].doc_freq >= dm[b].doc_freq)
}

/// `t` is listed under one of the first `k` grams.
pub open spec fn listed_upto(
    gm: Map<Seq<char>, Seq<Seq<char>>>,
    grams: Seq<Seq<char>>,
    k: int,
    t: Seq<char>,
) -> bool {
    exists|j: int| 0 <= j < k && gm.contains_key(#[trigger] grams[j]) && gm[grams[j]].contains(t)
}

/// Collect, without repeats, every term listed under one of `term`'s
/// trigrams.
fn collect_candidates(term: &str, gram_index: &GramIndex) -> (res: Vec<String>)
    requires
        gram_index.wf(),
    ensures
        no_dups(strs(res@)),
        forall|t: Seq<char>| #[trigger] strs(res@).contains(t) <==> is_candidate(gram_map(gram_index), term@, t),
{
    let qg = gram_chars(term);
    let ghost grams = qg@.map_values(|e: Vec<char>| e@);
    let ghost gm = gram_map(gram_index);
    let mut cands: Vec<String> = Vec::new();
    let mut k: usize = 0;
    proof {
        gram_index.lemma_sorted();
    }
    while k < qg.len()
        invariant
            gram_index.wf(),
            grams == qg@.map_values(|e: Vec<char>| e@),
            gm == gram_map(gram_index),
            k <= qg@.len(),
            no_dups(strs(cands@)),
            forall|t: Seq<char>| #[trigger] strs(cands@).contains(t) <==> listed_upto(gm, grams, k as int, t),
        decreases qg@.len() - k,
    {
        let ghost g = grams[k as int];
        match gram_index.search(&qg[k]) {
            Ok(i) => {
                proof {
                    gram_index.lemma_sorted();
                    lemma_entries_map_at(gram_index@, i as int);
                }
                let list = gram_index.value_at(i);
                let ghost lv = strs(list@);
                assert(gm.contains_key(g) && gm[g] == lv);
                let mut m: usize = 0;
                while m < list.len()
                    invariant
                        m <= list@.len(),
                        lv == strs(list@),
                        gm.contains_key(g) && gm[g] == lv,
                        g == grams[k as int],
                        k < grams.len(),
                        no_dups(strs(cands@)),
                        forall|t: Seq<char>| #[trigger] strs(cands@).contains(t) <==> (listed_upto(gm, grams, k as int, t)
                            || lv.take(m as int).contains(t)),
                    decreases list@.len() - m,
                {
                    let t = &list[m];
                    let ghost before = strs(cands@);
                    if !crate::three_gram_index::list_contains(&cands, t) {
                        cands.push(t.clone());
                        assert(strs(cands@) =~= before.push(t@));
                        assert forall|a: int, b: int| 0 <= a < b < strs(cands@).len() implies strs(cands@)[a] != strs(cands@)[b] by {
                            if b == before.len() {
                                assert(before[a] == strs(cands@)[a]);
                            }
                        }
                    }
                    assert forall|x: Seq<char>| #[trigger] strs(cands@).contains(x) <==> (listed_upto(gm, grams, k as int, x)
                        || lv.take(m + 1).contains(x)) by {
                        assert(lv.take(m + 1) =~= lv.take(m as int).push(t@));
                        if lv.take(m as int).contains(x) {
                            let tk = lv.take(m as int);
                            let p = choose|p: int| 0 <= p < tk.len() && #[trigger] tk[p] == x;
                            assert(lv.take(m + 1)[p] == x);
                        }
                        if lv.take(m + 1).contains(x) && x != t@ {
                            let tk = lv.take(m + 1);
                            let p = choose|p: int| 0 <= p < tk.len() && #[trigger] tk[p] == x;
                            assert(lv.take(m as int)[p] == x);
                        }
                        if strs(cands@).contains(x) && !before.contains(x) {
                            let p = choose|p: int| 0 <= p < strs(cands@).len() && strs(cands@)[p] == x;
                            assert(p == before.len());
                        }
                        if x == t@ {
                            assert(lv.take(m + 1)[m as int] == x);
                            if !before.contains(x) {
                                assert(strs(cands@)[before.len() as int] == x);
                            }
                        }
                        if before.contains(x) {
                            let p = choose|p: int| 0 <= p < before.len() && before[p] == x;
                            assert(strs(cands@)[p] == x);
                        }
                    }
                    m = m + 1;
                }
                assert forall|x: Seq<char>| #[trigger] strs(cands@).contains(x) <==> listed_upto(gm, grams, k + 1, x) by {
                    assert(lv.take(m as int) =~= lv);
                    if listed_upto(gm, grams, k + 1, x) {
                        let j = choose|j: int| 0 <= j < k + 1 && gm.contains_key(#[trigger] grams[j]) && gm[grams[j]].contains(x);
                        if j < k {
                            assert(listed_upto(gm, grams, k as int, x));
                        }
                    }
                    if listed_upto(gm, grams, k as int, x) {
                        let j = choose|j: int| 0 <= j < k && gm.contains_key(#[trigger] grams[j]) && gm[grams[j]].contains(x);
                        assert(listed_upto(gm, grams, k + 1, x));
                    }
                    if lv.contains(x) {
                        assert(gm.contains_key(grams[k as int]) && gm[grams[k as int]].contains(x));
                    }
                }
            },
            Err(i) => {
                proof {
                    assert(!gm.contains_key(g)) by {
                        if has_term(gram_index@, g) {
                            let j = choose|j: int| 0 <= j < gram_index@.len() && #[trigger] gram_index@[j].0 == g;
                            crate::text::lemma_chars_lt_irreflexive(g);
                        }
                    }
                    assert forall|x: Seq<char>| #[trigger] strs(cands@).contains(x) <==> listed_upto(gm, grams, k + 1, x) by {
                        if listed_upto(gm, grams, k + 1, x) {
                            let j = choose|j: int| 0 <= j < k + 1 && gm.contains_key(#[trigger] grams[j]) && gm[grams[j]].contains(x);
                            assert(j != k);
                            assert(listed_upto(gm, grams, k as int, x));
                        }
                        if listed_upto(gm, grams, k as int, x) {
                            let j = choose|j: int| 0 <= j < k && gm.contains_key(#[trigger] grams[j]) && gm[grams[j]].contains(x);
                            assert(listed_upto(gm, grams, k + 1, x));
                        }
                    }
                }
            },
        }
        k = k + 1;
    }
    proof {
        assert forall|t: Seq<char>| #[trigger] strs(cands@).contains(t) <==> is_candidate(gm, term@, t) by {
            if listed_upto(gm, grams, k as int, t) {
                let j = choose|j: int| 0 <= j < k && gm.contains_key(#[trigger] grams[j]) && gm[grams[j]].contains(t);
                assert(gram_seq(term@).contains(grams[j]));
            }
            if is_candidate(gm, term@, t) {
                let g = choose|g: Seq<char>| #[trigger] gram_seq(term@).contains(g) && gm.contains_key(g) && gm[g].contains(t);
                let j = choose|j: int| 0 <= j < grams.len() && grams[j] == g;
                assert(listed_upto(gm, grams, k as int, t));
            }
        }
    }
    cands
}

} // verus!

verus! {

/// A scored candidate: its edit distance and document frequency.
pub open spec fn scored_ok(term: Seq<char>, dm: Map<Seq<char>, TermEntry>, e: (String, usize, u32)) -> bool {
    &&& e.1 == levenshtein(term, e.0@)
    &&& dm.contains_key(e.0@)
    &&& e.2 == dm[e.0@].doc_freq
}

/// Ordered by (edit distance ascending, document frequency descending).
pub open spec fn key_le(a: (String, usize, u32), b: (String, usize, u32)) -> bool {
    a.1 < b.1 || (a.1 == b.1 && a.2 >= b.2)
}

pub open spec fn scored_sorted(s: Seq<(String, usize, u32)>) -> bool {
    forall|i: int, j: int| 0 <= i < j < s.len() ==> key_le(#[trigger] s[i], #[trigger] s[j])
}

pub open spec fn scored_terms(s: Seq<(String, usize, u32)>) -> Seq<Seq<char>> {
    s.map_values(|e: (String, usize, u32)| e.0@)
}

/// Insert `e` after every entry that ranks no lower than it (so equal keys
/// keep their arrival order).
fn insert_scored(out: &mut Vec<(String, usize, u32)>, e: (String, usize, u32))
    requires
        scored_sorted(old(out)@),
    ensures
        scored_sorted(final(out)@),
        exists|p: int| 0 <= p <= old(out)@.len() && final(out)@ == old(out)@.insert(p, e),
{
    let mut p: usize = 0;
    while p < out.len() && key_le_exec(&out[p], &e)
        invariant
            p <= out@.len(),
            forall|k: int| 0 <= k < p ==> key_le(#[trigger] out@[k], e),
        decreases out@.len() - p,
    {
        p = p + 1;
    }
    let ghost o = out@;
    out.insert(p, e);
    assert forall|i: int, j: int| 0 <= i < j < out@.len() implies key_le(#[trigger] out@[i], #[trigger] out@[j]) by {
        if j < p {
            assert(out@[i] == o[i] && out@[j] == o[j]);
        } else if j == p {
            assert(out@[i] == o[i]);
        } else if i < p {
            assert(out@[i] == o[i] && out@[j] == o[j - 1]);
        } else if i == p {
            assert(out@[j] == o[j - 1]);
            assert(!key_le(o[p as int], e));
            assert(p < o.len());
            assert(key_le(o[p as int], o[j - 1]) || j - 1 == p);
        } else {
            assert(out@[i] == o[i - 1] && out@[j] == o[j - 1]);
        }
    }
}

fn key_le_exec(a: &(String, usize, u32), b: &(String, usize, u32)) -> (res: bool)
    ensures
        res == key_le(*a, *b),
{
    a.1 < b.1 || (a.1 == b.1 && a.2 >= b.2)
}

proof fn lemma_scored_insert(before: Seq<(String, usize, u32)>, p: int, e: (String, usize, u32))
    requires
        0 <= p <= before.len(),
    ensures
        forall|x: Seq<char>| #[trigger] scored_terms(before.insert(p, e)).contains(x) <==> (scored_terms(
            before,
        ).contains(x) || x == e.0@),
        no_dups(scored_terms(before)) && !scored_terms(before).contains(e.0@) ==> no_dups(
            scored_terms(before.insert(p, e)),
        ),
{
    let n = before.insert(p, e);
    let a = scored_terms(before);
    let b = scored_terms(n);
    assert(b =~= a.insert(p, e.0@));
    assert forall|x: Seq<char>| #[trigger] b.contains(x) <==> (a.contains(x) || x == e.0@) by {
        if b.contains(x) {
            let q = choose|q: int| 0 <= q < b.len() && b[q] == x;
            if q < p {
                assert(a[q] == x);
            } else if q > p {
                assert(a[q - 1] == x);
            }
        }
        if a.contains(x) {
            let q = choose|q: int| 0 <= q < a.len() && a[q] == x;
            if q < p {
                assert(b[q] == x);
            } else {
                assert(b[q + 1] == x);
            }
        }
        if x == e.0@ {
            assert(b[p] == x);
        }
    }
    if no_dups(a) && !a.contains(e.0@) {
        assert forall|i: int, j: int| 0 <= i < j < b.len() implies b[i] != b[j] by {
            if i == p {
                assert(a[j - 1] == b[j]);
            } else if j == p {
                assert(a[i] == b[i]);
            } else {
                let ii = if i < p {
                    i
                } else {
                    i - 1
                };
                let jj = if j < p {
                    j
                } else {
                    j - 1
                };
                assert(a[ii] == b[i] && a[jj] == b[j]);
            }
        }
    }
}

/// Spell-correct a term: candidates sharing a trigram with it, kept if the
/// dictionary holds them with document frequency at least 3, their trigram
/// Jaccard similarity exceeds 0.3 and their edit distance is below half the
/// term's length; returned best first by (edit distance ascending, document
/// frequency descending). Candidates of equal rank come in the order in
/// which they were found.
pub fn spell_corrector(term: &str, tri_gram_index: &GramIndex, term_index: &TermIndex) -> (res: Vec<String>)
    requires
        tri_gram_index.wf(),
        term_index.wf(),
    ensures
        no_dups(strs(res@)),
        forall|t: Seq<char>| #[trigger] strs(res@).contains(t) <==> is_suggestion(
            gram_map(tri_gram_index),
            entries_map(term_index@),
            term@,
            t,
        ),
        forall|i: int, j: int|
            0 <= i < j < res@.len() ==> ranks_before(
                entries_map(term_index@),
                term@,
                #[trigger] strs(res@)[i],
                #[trigger] strs(res@)[j],
            ),
{
    let ghost gm = gram_map(tri_gram_index);
    let ghost dm = entries_map(term_index@);
    let cands = collect_candidates(term, tri_gram_index);
    let ghost cs = strs(cands@);
    let max_edit = str_chars(term).len() / 2;
    let mut scored: Vec<(String, usize, u32)> = Vec::new();
    let mut k: usize = 0;
    assert(scored_terms(scored@) =~= Seq::<Seq<char>>::empty());
    while k < cands.len()
        invariant
            term_index.wf(),
            dm == entries_map(term_index@),
            gm == gram_map(tri_gram_index),
            cs == strs(cands@),
            no_dups(cs),
            max_edit == term@.len() / 2,
            k <= cands@.len(),
            forall|t: Seq<char>| #[trigger] cs.contains(t) <==> is_candidate(gm, term@, t),
            scored_sorted(scored@),
            forall|i: int| 0 <= i < scored@.len() ==> scored_ok(term@, dm, #[trigger] scored@[i]),
            no_dups(scored_terms(scored@)),
            forall|t: Seq<char>| #[trigger] scored_terms(scored@).contains(t) <==> (cs.take(k as int).contains(t)
                && is_suggestion(gm, dm, term@, t)),
        decreases cands@.len() - k,
    {
        let t = &cands[k];
        let ghost tv = t@;
        assert(cs[k as int] == tv);
        assert(cs.contains(tv));
        let ghost before = scored@;
        let mut added = false;
        let ghost mut ins: (String, usize, u32) = arbitrary();
        match term_index.get(t.as_str()) {
            Some(entry) => {
                let freq = entry.doc_freq;
                if freq >= MIN_CANDIDATE_DOC_FREQ {
                    let (c, o1, o2) = jaccard_counts(term, t.as_str());
                    if (c as u128) * 10 > ((c as u128) + (o1 as u128) + (o2 as u128)) * 3 {
                        let dist = edit_distance(term, t.as_str());
                        if dist < max_edit {
                            let e = (t.clone(), dist, freq);
                            proof {
                                ins = e;
                            }
                            insert_scored(&mut scored, e);
                            added = true;
                        }
                    }
                }
            },
            None => {},
        }
        proof {
            assert(cs.take(k + 1) =~= cs.take(k as int).push(tv));
            assert(!cs.take(k as int).contains(tv)) by {
                if cs.take(k as int).contains(tv) {
                    let ck = cs.take(k as int);
                    let p = choose|p: int| 0 <= p < ck.len() && #[trigger] ck[p] == tv;
                    assert(cs[p] == tv);
                }
            }
            assert forall|x: Seq<char>| cs.take(k + 1).contains(x) <==> (cs.take(k as int).contains(x)
                || x == tv) by {
                let c1 = cs.take(k + 1);
                let c0 = cs.take(k as int);
                if c1.contains(x) {
                    let p = choose|p: int| 0 <= p < c1.len() && #[trigger] c1[p] == x;
                    if p < k {
                        assert(c0[p] == x);
                    }
                }
                if c0.contains(x) {
                    let p = choose|p: int| 0 <= p < c0.len() && #[trigger] c0[p] == x;
                    assert(c1[p] == x);
                }
                if x == tv {
                    assert(c1[k as int] == x);
                }
            }
            assert(!scored_terms(before).contains(tv));
            if added {
                let p = choose|p: int| 0 <= p <= before.len() && scored@ == before.insert(p, ins);
                lemma_scored_insert(before, p, ins);
                assert(is_suggestion(gm, dm, term@, tv));
                assert forall|i: int| 0 <= i < scored@.len() implies scored_ok(term@, dm, #[trigger] scored@[i]) by {
                    if i < p {
                        assert(scored@[i] == before[i]);
                    } else if i > p {
                        assert(scored@[i] == before[i - 1]);
                    }
                }
            } else {
                assert(!is_suggestion(gm, dm, term@, tv));
            }
        }
        k = k + 1;
    }
    assert(cs.take(k as int) =~= cs);
    let mut res: Vec<String> = Vec::new();
    let mut m: usize = 0;
    while m < scored.len()
        invariant
            m <= scored@.len(),
            strs(res@) == scored_terms(scored@).take(m as int),
        decreases scored@.len() - m,
    {
        let ghost before = strs(res@);
        let st = scored[m].0.clone();
        assert(st@ == scored_terms(scored@)[m as int]);
        res.push(st);
        assert(strs(res@) =~= before.push(st@));
        m = m + 1;
        assert(strs(res@) =~= scored_terms(scored@).take(m as int));
    }
    assert(strs(res@) =~= scored_terms(scored@));
    assert forall|i: int, j: int| 0 <= i < j < res@.len() implies ranks_before(
        dm,
        term@,
        #[trigger] strs(res@)[i],
        #[trigger] strs(res@)[j],
    ) by {
        assert(key_le(scored@[i], scored@[j]));
        assert(scored_ok(term@, dm, scored@[i]));
        assert(scored_ok(term@, dm, scored@[j]));
    }
    res
}

} // verus!
