//! The integer inputs of BM25F ranking: per-field term frequencies of a
//! document and per-field token totals over the collection. The scoring
//! formula itself works in floating point and is the program's part.

use vstd::prelude::*;
use crate::encode_decode::Field;
use crate::postings::FieldMap;
use crate::traverse::DocStats;

verus! {

/// Number of positions of field `f` in `m`, 0 where the field is absent.
pub open spec fn field_tf(m: Map<Field, Seq<u32>>, f: Field) -> nat {
    if m.contains_key(f) {
        m[f].len()
    } else {
        0
    }
}

/// The term's frequency in each field of one document, in the order title,
/// headers, code, body.
pub fn field_term_counts(fields: &FieldMap) -> (res: (usize, usize, usize, usize))
    ensures
        res.0 == field_tf(fields@, Field::Title),
        res.1 == field_tf(fields@, Field::Headers),
        res.2 == field_tf(fields@, Field::Code),
        res.3 == field_tf(fields@, Field::Body),
{
    let title = match fields.get(Field::Title) {
        Some(v) => v.len(),
        None => 0,
    };
    let headers = match fields.get(Field::Headers) {
        Some(v) => v.len(),
        None => 0,
    };
    let code = match fields.get(Field::Code) {
        Some(v) => v.len(),
        None => 0,
    };
    let body = match fields.get(Field::Body) {
        Some(v) => v.len(),
        None => 0,
    };
    (title, headers, code, body)
}

/// Per-field token totals of the documents, in the order title, headers,
/// code, body.
pub open spec fn length_totals_spec(s: Seq<DocStats>) -> (int, int, int, int)
    decreases s.len(),
{
    if s.len() == 0 {
        (0, 0, 0, 0)
    } else {
        let r = length_totals_spec(s.drop_last());
        let d = s.last();
        (
            r.0 + d.len_title,
            r.1 + d.len_headers,
            r.2 + d.len_code,
            r.3 + d.len_body,
        )
    }
}

proof fn lemma_length_totals_bound(s: Seq<DocStats>)
    ensures
        0 <= length_totals_spec(s).0 <= s.len() * 0xffff_ffff,
        0 <= length_totals_spec(s).1 <= s.len() * 0xffff_ffff,
        0 <= length_totals_spec(s).2 <= s.len() * 0xffff_ffff,
        0 <= length_totals_spec(s).3 <= s.len() * 0xffff_ffff,
    decreases s.len(),
{
    if s.len() > 0 {
        lemma_length_totals_bound(s.drop_last());
    }
}

/// Per-field token totals over all documents, the numerators of the average
/// field lengths.
pub fn length_totals(stats: &Vec<DocStats>) -> (res: (u128, u128, u128, u128))
    ensures
        res.0 == length_totals_spec(stats@).0,
        res.1 == length_totals_spec(stats@).1,
        res.2 == length_totals_spec(stats@).2,
        res.3 == length_totals_spec(stats@).3,
{
    let mut t: u128 = 0;
    let mut h: u128 = 0;
    let mut c: u128 = 0;
    let mut b: u128 = 0;
    let mut i: usize = 0;
    while i < stats.len()
        invariant
            i <= stats@.len(),
            (t as int, h as int, c as int, b as int) == length_totals_spec(stats@.take(i as int)),
        decreases stats@.len() - i,
    {
        let d = stats[i];
        proof {
            assert(stats@.take(i as int + 1).drop_last() =~= stats@.take(i as int));
            lemma_length_totals_bound(stats@.take(i as int));
            assert(i * 0xffff_ffff <= 0xffff_ffff_ffff_ffff * 0xffff_ffff) by (nonlinear_arith)
                requires
                    i <= 0xffff_ffff_ffff_ffff,
            ;
        }
        t = t + d.len_title as u128;
        h = h + d.len_headers as u128;
        c = c + d.len_code as u128;
        b = b + d.len_body as u128;
        i = i + 1;
    }
    assert(stats@.take(i as int) =~= stats@);
    (t, h, c, b)
}

} // verus!
