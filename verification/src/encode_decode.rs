use vstd::prelude::*;
use crate::postings::{add_doc, ids_increasing, DocList, FieldMap, Postings};
use crate::term_map::{entries_map, has_term, lemma_entries_map_at, term_index, terms_sorted, TermMap};
use crate::text::{chars_lt, lemma_chars_lt_irreflexive};
use vstd::utf8::{decode_utf8, encode_utf8, valid_utf8};
use crate::text::string_from_utf8;

verus! {

/// The document field that a token occurrence belongs to.
/// Each field is stored on disk as its one-byte code.
#[derive(Debug, Clone, Copy, PartialEq, Eq, Structural, Hash)]
pub enum Field {
    Title,
    Headers,
    Code,
    Body,
}

/// The on-disk byte code of a field.
pub open spec fn field_code(f: Field) -> u8 {
    match f {
        Field::Title => 0,
        Field::Headers => 1,
        Field::Code => 2,
        Field::Body => 3,
    }
}

/// The field that a byte code denotes, if any.
pub open spec fn field_from_code(b: u8) -> Option<Field> {
    if b == 0 {
        Some(Field::Title)
    } else if b == 1 {
        Some(Field::Headers)
    } else if b == 2 {
        Some(Field::Code)
    } else if b == 3 {
        Some(Field::Body)
    } else {
        None
    }
}

impl Field {
    /// Convert a byte back into a field; `None` for bytes that name no field.
    pub fn from_u8(b: u8) -> (res: Option<Field>)
        ensures
            res == field_from_code(b),
    {
        match b {
            0 => Some(Field::Title),
            1 => Some(Field::Headers),
            2 => Some(Field::Code),
            3 => Some(Field::Body),
            _ => None,
        }
    }

    /// The byte code under which the field is stored.
    pub fn code(&self) -> (res: u8)
        ensures
            res == field_code(*self),
    {
        match self {
            Field::Title => 0,
            Field::Headers => 1,
            Field::Code => 2,
            Field::Body => 3,
        }
    }
}

} // verus!

verus! {

// ---------------------------------------------------------------------------
// Variable-byte integers
// ---------------------------------------------------------------------------

/// The leading 7-bit groups of `m`, most significant first, each with its
/// high bit clear.
pub open spec fn vbyte_prefix(m: nat) -> Seq<u8>
    decreases m,
{
    if m == 0 {
        seq![]
    } else {
        vbyte_prefix(m / 128) + seq![(m % 128) as u8]
    }
}

/// The variable-byte encoding of `n`: its 7-bit groups, most significant
/// first; only the last byte has its high bit set.
pub open spec fn vbyte_spec(n: u32) -> Seq<u8> {
    vbyte_prefix((n / 128) as nat) + seq![(n % 128 + 128) as u8]
}

/// One decoding step: shift the accumulated value left by seven bits (in
/// 32-bit arithmetic) and add the low seven bits of `b`.
pub open spec fn vbyte_step(acc: u32, b: u8) -> u32 {
    ((acc as int * 128 + b as int % 128) % 0x1_0000_0000) as u32
}

/// Decoding from index `i` with accumulated value `acc`: bytes are consumed
/// until one with its high bit set; `None` if the data ends first.
pub open spec fn vbyte_decode_from(data: Seq<u8>, i: int, acc: u32) -> Option<(u32, int)>
    decreases data.len() - i,
{
    if i < 0 || i >= data.len() {
        None
    } else {
        let acc2 = vbyte_step(acc, data[i]);
        if data[i] >= 128 {
            Some((acc2, i + 1))
        } else {
            vbyte_decode_from(data, i + 1, acc2)
        }
    }
}

/// The number that starts at `off` in `data`, and the offset just past it.
pub open spec fn vbyte_at(data: Seq<u8>, off: int) -> Option<(u32, int)> {
    vbyte_decode_from(data, off, 0)
}

proof fn lemma_vbyte_step_exec(r: u32, b: u8)
    ensures
        ((r << 7u32) | ((b & 0x7f) as u32)) == vbyte_step(r, b),
{
    assert(((r << 7u32) | ((b & 0x7f) as u32)) == ((r as int * 128 + b as int % 128)
        % 0x1_0000_0000) as u32) by (bit_vector);
}

proof fn lemma_vbyte_prefix_len(m: nat)
    ensures
        m < 0x80 ==> vbyte_prefix(m).len() <= 1,
        m < 0x4000 ==> vbyte_prefix(m).len() <= 2,
        m < 0x20_0000 ==> vbyte_prefix(m).len() <= 3,
        m < 0x1000_0000 ==> vbyte_prefix(m).len() <= 4,
        forall|j: int| 0 <= j < vbyte_prefix(m).len() ==> #[trigger] vbyte_prefix(m)[j] < 128,
    decreases m,
{
    if m != 0 {
        lemma_vbyte_prefix_len(m / 128);
        let p = vbyte_prefix(m / 128);
        assert(vbyte_prefix(m) == p + seq![(m % 128) as u8]);
        assert forall|j: int| 0 <= j < vbyte_prefix(m).len() implies #[trigger] vbyte_prefix(m)[j]
            < 128 by {
            if j < p.len() {
                assert(vbyte_prefix(m)[j] == p[j]);
            }
        }
    }
}

/// The encoding of a 32-bit number is between one and five bytes long.
pub proof fn lemma_vbyte_len(n: u32)
    ensures
        1 <= vbyte_spec(n).len() <= 5,
{
    lemma_vbyte_prefix_len((n / 128) as nat);
}

proof fn lemma_decode_prefix(d: Seq<u8>, start: int, m: nat)
    requires
        0 <= start,
        m < 0x200_0000,
        start + vbyte_prefix(m).len() <= d.len(),
        d.subrange(start, start + vbyte_prefix(m).len()) == vbyte_prefix(m),
    ensures
        vbyte_decode_from(d, start, 0) == vbyte_decode_from(
            d,
            start + vbyte_prefix(m).len(),
            m as u32,
        ),
    decreases m,
{
    if m != 0 {
        let m2 = m / 128;
        let p = vbyte_prefix(m2);
        let k = p.len();
        assert(vbyte_prefix(m) == p + seq![(m % 128) as u8]);
        assert(d.subrange(start, start + k) =~= vbyte_prefix(m).subrange(0, k as int));
        assert(vbyte_prefix(m).subrange(0, k as int) =~= p);
        lemma_decode_prefix(d, start, m2);
        assert(d[start + k] == vbyte_prefix(m)[k as int]);
        assert(vbyte_step(m2 as u32, (m % 128) as u8) == m as u32);
    }
}

/// Decoding the encoding of `n`, wherever it stands in a byte sequence,
/// gives back `n` and the offset just past the encoding.
pub proof fn lemma_vbyte_roundtrip(d: Seq<u8>, off: int, n: u32)
    requires
        0 <= off,
        off + vbyte_spec(n).len() <= d.len(),
        d.subrange(off, off + vbyte_spec(n).len()) == vbyte_spec(n),
    ensures
        vbyte_at(d, off) == Some((n, off + vbyte_spec(n).len())),
{
    let m = (n / 128) as nat;
    let p = vbyte_prefix(m);
    let k = p.len();
    assert(vbyte_spec(n) == p + seq![(n % 128 + 128) as u8]);
    assert(d.subrange(off, off + k) =~= vbyte_spec(n).subrange(0, k as int));
    assert(vbyte_spec(n).subrange(0, k as int) =~= p);
    lemma_vbyte_prefix_len(m);
    lemma_decode_prefix(d, off, m);
    assert(d[off + k] == vbyte_spec(n)[k as int]);
    assert(vbyte_step(m as u32, (n % 128 + 128) as u8) == n);
}

/// Append the encoding of `m`'s leading groups.
fn push_vbyte_prefix(m: u32, out: &mut Vec<u8>)
    ensures
        final(out)@ == old(out)@ + vbyte_prefix(m as nat),
    decreases m,
{
    if m != 0 {
        push_vbyte_prefix(m / 128, out);
        out.push((m % 128) as u8);
        assert(vbyte_prefix(m as nat) == vbyte_prefix((m / 128) as nat) + seq![(m % 128) as u8]);
    }
}

/// Append the variable-byte encoding of `n` to `out`.
pub fn vbyte_encode(n: u32, out: &mut Vec<u8>)
    ensures
        final(out)@ == old(out)@ + vbyte_spec(n),
{
    push_vbyte_prefix(n / 128, out);
    out.push((n % 128 + 128) as u8);
}

/// Decode the number that starts at `off`; `None` where the data ends before
/// a terminating byte.
pub fn vbyte_decode_at(data: &[u8], off: usize) -> (res: Option<(u32, usize)>)
    ensures
        res matches Some(r) ==> vbyte_at(data@, off as int) == Some((r.0, r.1 as int)) && off
            < r.1 <= data@.len(),
        res is None ==> vbyte_at(data@, off as int) is None,
{
    if off >= data.len() {
        return None;
    }
    let mut result: u32 = 0;
    let mut i: usize = off;
    while i < data.len()
        invariant
            off <= i <= data@.len(),
            vbyte_at(data@, off as int) == vbyte_decode_from(data@, i as int, result),
        decreases data@.len() - i,
    {
        let byte = data[i];
        proof {
            lemma_vbyte_step_exec(result, byte);
        }
        result = (result << 7u32) | ((byte & 0x7f) as u32);
        if byte & 0x80 != 0 {
            assert(byte & 0x80 != 0 ==> byte >= 128) by (bit_vector);
            return Some((result, i + 1));
        }
        assert(byte & 0x80 == 0 ==> byte < 128) by (bit_vector);
        i = i + 1;
    }
    None
}

/// Decode one number from the start of `data`, or `None` if no byte of
/// `data` terminates it.
pub fn try_vbyte_decode(data: &[u8]) -> (res: Option<(u32, usize)>)
    ensures
        res matches Some(r) ==> vbyte_at(data@, 0) == Some((r.0, r.1 as int)),
        res is None ==> vbyte_at(data@, 0) is None,
{
    vbyte_decode_at(data, 0)
}

/// Decode one number from the start of `data`: its value and the number of
/// bytes it took.
pub fn vbyte_decode(data: &[u8]) -> (res: (u32, usize))
    requires
        vbyte_at(data@, 0) is Some,
    ensures
        vbyte_at(data@, 0) == Some((res.0, res.1 as int)),
{
    match vbyte_decode_at(data, 0) {
        Some(r) => r,
        None => (0, 0),
    }
}

} // verus!

verus! {

// ---------------------------------------------------------------------------
// Postings: the byte format
// ---------------------------------------------------------------------------

/// Positions are non-decreasing and none is below `prev`.
pub open spec fn sorted_from(ps: Seq<u32>, prev: u32) -> bool {
    &&& ps.len() > 0 ==> prev <= ps[0]
    &&& forall|i: int, j: int| 0 <= i <= j < ps.len() ==> #[trigger] ps[i] <= #[trigger] ps[j]
}

/// Every field of the map holds non-decreasing positions.
pub open spec fn field_map_sorted(m: Map<Field, Seq<u32>>) -> bool {
    forall|f: Field| #[trigger] m.contains_key(f) ==> sorted_from(m[f], 0)
}

/// Every document of the list holds non-decreasing positions in every field.
pub open spec fn positions_sorted(s: DocList) -> bool {
    forall|i: int| 0 <= i < s.len() ==> field_map_sorted(#[trigger] s[i].1)
}

/// Every field of the map holds at most `u32::MAX` positions.
pub open spec fn field_counts_fit(m: Map<Field, Seq<u32>>) -> bool {
    forall|f: Field| #[trigger] m.contains_key(f) ==> m[f].len() <= u32::MAX
}

/// Every count that the format stores fits in 32 bits.
pub open spec fn counts_fit(s: DocList) -> bool {
    &&& s.len() <= u32::MAX
    &&& forall|i: int| 0 <= i < s.len() ==> field_counts_fit(#[trigger] s[i].1)
}

/// Position gaps: each position is written as its distance to the previous
/// one (the first to `prev`).
pub open spec fn positions_bytes(ps: Seq<u32>, prev: u32) -> Seq<u8>
    decreases ps.len(),
{
    if ps.len() == 0 {
        seq![]
    } else {
        vbyte_spec((ps[0] - prev) as u32) + positions_bytes(ps.drop_first(), ps[0])
    }
}

/// One field: its code byte, the number of positions, then the gaps.
pub open spec fn field_entry_bytes(f: Field, ps: Seq<u32>) -> Seq<u8> {
    seq![field_code(f)] + vbyte_spec(ps.len() as u32) + positions_bytes(ps, 0)
}

pub open spec fn field_if_present(m: Map<Field, Seq<u32>>, f: Field) -> Seq<Field> {
    if m.contains_key(f) {
        seq![f]
    } else {
        seq![]
    }
}

/// The fields that a map holds, in order of their codes.
pub open spec fn present_fields(m: Map<Field, Seq<u32>>) -> Seq<Field> {
    field_if_present(m, Field::Title) + field_if_present(m, Field::Headers) + field_if_present(
        m,
        Field::Code,
    ) + field_if_present(m, Field::Body)
}

/// The entries of the listed fields, one after the other.
pub open spec fn fields_bytes(m: Map<Field, Seq<u32>>, fs: Seq<Field>) -> Seq<u8>
    decreases fs.len(),
{
    if fs.len() == 0 {
        seq![]
    } else {
        field_entry_bytes(fs[0], m[fs[0]]) + fields_bytes(m, fs.drop_first())
    }
}

/// A document's fields: their number, then each present field in code order.
pub open spec fn field_map_bytes(m: Map<Field, Seq<u32>>) -> Seq<u8> {
    vbyte_spec(present_fields(m).len() as u32) + fields_bytes(m, present_fields(m))
}

/// Documents: each written as its id gap to the previous one (the first to
/// `prev`), then its fields.
pub open spec fn docs_bytes(s: DocList, prev: u32) -> Seq<u8>
    decreases s.len(),
{
    if s.len() == 0 {
        seq![]
    } else {
        vbyte_spec((s[0].0 - prev) as u32) + field_map_bytes(s[0].1) + docs_bytes(
            s.drop_first(),
            s[0].0,
        )
    }
}

/// A postings list: the number of documents, then the documents.
pub open spec fn postings_bytes(s: DocList) -> Seq<u8> {
    vbyte_spec(s.len() as u32) + docs_bytes(s, 0)
}

// ---------------------------------------------------------------------------
// Postings: what decoding reads
// ---------------------------------------------------------------------------

/// Read `count` position gaps at `off`, adding each to the previous position
/// (starting from `prev`); `None` where a number does not terminate or a
/// position would exceed 32 bits.
pub open spec fn parse_positions(d: Seq<u8>, off: int, count: nat, prev: u32) -> Option<
    (Seq<u32>, int),
>
    decreases count,
{
    if count == 0 {
        Some((seq![], off))
    } else {
        match vbyte_at(d, off) {
            None => None,
            Some((gap, o1)) => {
                if prev + gap > u32::MAX {
                    None
                } else {
                    let pos = (prev + gap) as u32;
                    match parse_positions(d, o1, (count - 1) as nat, pos) {
                        None => None,
                        Some((rest, o2)) => Some((seq![pos] + rest, o2)),
                    }
                }
            },
        }
    }
}

/// Read `count` field entries at `off` into `acc`; a field read twice keeps
/// its last positions. `None` at a missing or unknown field byte.
pub open spec fn parse_fields(d: Seq<u8>, off: int, count: nat, acc: Map<Field, Seq<u32>>) -> Option<
    (Map<Field, Seq<u32>>, int),
>
    decreases count,
{
    if count == 0 {
        Some((acc, off))
    } else if off < 0 || off >= d.len() {
        None
    } else {
        match field_from_code(d[off]) {
            None => None,
            Some(f) => match vbyte_at(d, off + 1) {
                None => None,
                Some((pc, o1)) => match parse_positions(d, o1, pc as nat, 0) {
                    None => None,
                    Some((ps, o2)) => parse_fields(d, o2, (count - 1) as nat, acc.insert(f, ps)),
                },
            },
        }
    }
}

/// Read `count` documents at `off` after the document id `prev`, adding them
/// to `acc`; `None` where an id would exceed 32 bits or an entry is malformed.
pub open spec fn parse_docs(d: Seq<u8>, off: int, count: nat, prev: u32, acc: DocList) -> Option<
    (DocList, int),
>
    decreases count,
{
    if count == 0 {
        Some((acc, off))
    } else {
        match vbyte_at(d, off) {
            None => None,
            Some((gap, o1)) => {
                if prev + gap > u32::MAX {
                    None
                } else {
                    let id = (prev + gap) as u32;
                    match vbyte_at(d, o1) {
                        None => None,
                        Some((fc, o2)) => match parse_fields(d, o2, fc as nat, Map::empty()) {
                            None => None,
                            Some((m, o3)) => parse_docs(
                                d,
                                o3,
                                (count - 1) as nat,
                                id,
                                add_doc(acc, id, m),
                            ),
                        },
                    }
                }
            },
        }
    }
}

/// What decoding a postings list reads from `d`: the documents and the
/// offset just past them.
pub open spec fn parse_postings(d: Seq<u8>) -> Option<(DocList, int)> {
    match vbyte_at(d, 0) {
        None => None,
        Some((n, o)) => parse_docs(d, o, n as nat, 0, seq![]),
    }
}

} // verus!

verus! {

// ---------------------------------------------------------------------------
// Postings: encoding
// ---------------------------------------------------------------------------

proof fn lemma_positions_bytes_unfold(ps: Seq<u32>, i: int, prev: u32)
    requires
        0 <= i < ps.len(),
    ensures
        positions_bytes(ps.subrange(i, ps.len() as int), prev) == vbyte_spec((ps[i] - prev) as u32)
            + positions_bytes(ps.subrange(i + 1, ps.len() as int), ps[i]),
{
    let s = ps.subrange(i, ps.len() as int);
    assert(s.drop_first() =~= ps.subrange(i + 1, ps.len() as int));
    assert(s[0] == ps[i]);
}

/// Append the position gaps of `ps`.
fn write_positions(ps: &Vec<u32>, out: &mut Vec<u8>)
    requires
        sorted_from(ps@, 0),
    ensures
        final(out)@ == old(out)@ + positions_bytes(ps@, 0),
{
    let n = ps.len();
    let mut prev: u32 = 0;
    let mut i: usize = 0;
    assert(ps@.subrange(0, n as int) =~= ps@);
    while i < n
        invariant
            n == ps@.len(),
            i <= n,
            sorted_from(ps@, 0),
            prev == (if i == 0 {
                0
            } else {
                ps@[i - 1]
            }),
            out@ + positions_bytes(ps@.subrange(i as int, n as int), prev) == old(out)@
                + positions_bytes(ps@, 0),
        decreases n - i,
    {
        let pos = ps[i];
        proof {
            lemma_positions_bytes_unfold(ps@, i as int, prev);
        }
        let ghost before = out@;
        vbyte_encode(pos - prev, out);
        assert(out@ + positions_bytes(ps@.subrange(i + 1, n as int), pos) =~= before
            + positions_bytes(ps@.subrange(i as int, n as int), prev));
        prev = pos;
        i = i + 1;
    }
    assert(positions_bytes(ps@.subrange(n as int, n as int), prev) =~= Seq::<u8>::empty());
    assert(out@ =~= old(out)@ + positions_bytes(ps@, 0));
}

proof fn lemma_fields_bytes_push(m: Map<Field, Seq<u32>>, fs: Seq<Field>, f: Field)
    ensures
        fields_bytes(m, fs.push(f)) == fields_bytes(m, fs) + field_entry_bytes(f, m[f]),
    decreases fs.len(),
{
    if fs.len() == 0 {
        let t = fs.push(f);
        assert(t[0] == f);
        assert(t.drop_first() =~= Seq::<Field>::empty());
        assert(fields_bytes(m, t.drop_first()) == Seq::<u8>::empty());
        assert(fields_bytes(m, t) =~= field_entry_bytes(f, m[f]));
        assert(fields_bytes(m, fs) == Seq::<u8>::empty());
        assert(fields_bytes(m, t) =~= fields_bytes(m, fs) + field_entry_bytes(f, m[f]));
    } else {
        assert(fs.push(f).drop_first() =~= fs.drop_first().push(f));
        lemma_fields_bytes_push(m, fs.drop_first(), f);
        assert(fields_bytes(m, fs.push(f)) =~= fields_bytes(m, fs) + field_entry_bytes(f, m[f]));
    }
}

/// Append one field's entry if the field is present.
fn write_field_if_present(fm: &FieldMap, f: Field, out: &mut Vec<u8>)
    requires
        field_map_sorted(fm@),
    ensures
        final(out)@ == old(out)@ + (if fm@.contains_key(f) {
            field_entry_bytes(f, fm@[f])
        } else {
            seq![]
        }),
{
    match fm.get(f) {
        Some(ps) => {
            let ghost start = out@;
            out.push(f.code());
            vbyte_encode(ps.len() as u32, out);
            write_positions(ps, out);
            assert(out@ =~= start + field_entry_bytes(f, fm@[f]));
        },
        None => {
            assert(out@ =~= old(out)@ + seq![]);
        },
    }
}

proof fn lemma_extend_present(m: Map<Field, Seq<u32>>, done: Seq<Field>, f: Field)
    ensures
        fields_bytes(m, done + field_if_present(m, f)) == fields_bytes(m, done) + (if m.contains_key(
            f,
        ) {
            field_entry_bytes(f, m[f])
        } else {
            seq![]
        }),
{
    if m.contains_key(f) {
        assert(done + field_if_present(m, f) =~= done.push(f));
        lemma_fields_bytes_push(m, done, f);
    } else {
        assert(done + field_if_present(m, f) =~= done);
        assert(fields_bytes(m, done) + seq![] =~= fields_bytes(m, done));
    }
}

fn count_present(fm: &FieldMap) -> (count: u32)
    ensures
        count == present_fields(fm@).len(),
{
    let mut count: u32 = 0;
    if fm.get(Field::Title).is_some() {
        count = count + 1;
    }
    if fm.get(Field::Headers).is_some() {
        count = count + 1;
    }
    if fm.get(Field::Code).is_some() {
        count = count + 1;
    }
    if fm.get(Field::Body).is_some() {
        count = count + 1;
    }
    count
}

/// Append a document's field entries: their number, then each present field
/// in code order.
fn write_field_map(fm: &FieldMap, out: &mut Vec<u8>)
    requires
        field_map_sorted(fm@),
    ensures
        final(out)@ == old(out)@ + field_map_bytes(fm@),
{
    let ghost m = fm@;
    let count = count_present(fm);
    vbyte_encode(count, out);
    let ghost head = out@;
    let ghost d0 = Seq::<Field>::empty();
    assert(fields_bytes(m, d0) =~= Seq::<u8>::empty());
    write_field_if_present(fm, Field::Title, out);
    proof {
        lemma_extend_present(m, d0, Field::Title);
    }
    let ghost d1 = d0 + field_if_present(m, Field::Title);
    assert(out@ =~= head + fields_bytes(m, d1));
    write_field_if_present(fm, Field::Headers, out);
    proof {
        lemma_extend_present(m, d1, Field::Headers);
    }
    let ghost d2 = d1 + field_if_present(m, Field::Headers);
    assert(out@ =~= head + fields_bytes(m, d2));
    write_field_if_present(fm, Field::Code, out);
    proof {
        lemma_extend_present(m, d2, Field::Code);
    }
    let ghost d3 = d2 + field_if_present(m, Field::Code);
    assert(out@ =~= head + fields_bytes(m, d3));
    write_field_if_present(fm, Field::Body, out);
    proof {
        lemma_extend_present(m, d3, Field::Body);
    }
    let ghost d4 = d3 + field_if_present(m, Field::Body);
    assert(d4 =~= present_fields(m));
    assert(out@ =~= old(out)@ + field_map_bytes(m));
}

proof fn lemma_docs_bytes_unfold(s: DocList, i: int, prev: u32)
    requires
        0 <= i < s.len(),
    ensures
        docs_bytes(s.subrange(i, s.len() as int), prev) == vbyte_spec((s[i].0 - prev) as u32)
            + field_map_bytes(s[i].1) + docs_bytes(s.subrange(i + 1, s.len() as int), s[i].0),
{
    let t = s.subrange(i, s.len() as int);
    assert(t.drop_first() =~= s.subrange(i + 1, s.len() as int));
    assert(t[0] == s[i]);
}

/// Encode a postings list: the number of documents, then each document as
/// its id gap, its number of fields and each present field (code byte,
/// number of positions, position gaps) in field-code order.
pub fn serialize_postings(postings: &Postings) -> (out: Vec<u8>)
    requires
        postings.wf(),
        positions_sorted(postings@),
    ensures
        out@ == postings_bytes(postings@),
{
    let ghost s = postings@;
    let mut out: Vec<u8> = Vec::new();
    let n = postings.len();
    vbyte_encode(n as u32, &mut out);
    let mut prev: u32 = 0;
    let mut i: usize = 0;
    assert(s.subrange(0, n as int) =~= s);
    while i < n
        invariant
            n == s.len(),
            s == postings@,
            i <= n,
            postings.wf(),
            positions_sorted(s),
            prev == (if i == 0 {
                0
            } else {
                s[i - 1].0
            }),
            out@ + docs_bytes(s.subrange(i as int, n as int), prev) == postings_bytes(s),
        decreases n - i,
    {
        let (doc_id, fm) = postings.entry(i);
        proof {
            lemma_docs_bytes_unfold(s, i as int, prev);
            if i > 0 {
                assert(s[i - 1].0 < s[i as int].0);
            }
            assert(field_map_sorted(s[i as int].1));
        }
        let ghost before = out@;
        vbyte_encode(doc_id - prev, &mut out);
        write_field_map(fm, &mut out);
        assert(out@ + docs_bytes(s.subrange(i + 1, n as int), doc_id) =~= before + docs_bytes(
            s.subrange(i as int, n as int),
            prev,
        ));
        prev = doc_id;
        i = i + 1;
    }
    assert(docs_bytes(s.subrange(n as int, n as int), prev) =~= Seq::<u8>::empty());
    assert(out@ =~= postings_bytes(s));
    out
}

} // verus!

verus! {

// ---------------------------------------------------------------------------
// Postings: decoding
// ---------------------------------------------------------------------------

pub open spec fn prepend_positions(p: Seq<u32>, r: Option<(Seq<u32>, int)>) -> Option<
    (Seq<u32>, int),
> {
    match r {
        Some((s, e)) => Some((p + s, e)),
        None => None,
    }
}

proof fn lemma_prepend_push(p: Seq<u32>, x: u32, r: Option<(Seq<u32>, int)>)
    ensures
        prepend_positions(p, prepend_positions(seq![x], r)) == prepend_positions(p.push(x), r),
{
    match r {
        Some((s, e)) => {
            assert(p + (seq![x] + s) =~= p.push(x) + s);
        },
        None => {},
    }
}

/// Read `count` position gaps at `off`.
fn read_positions(data: &[u8], off: usize, count: u32) -> (res: Option<(Vec<u32>, usize)>)
    ensures
        res matches Some(r) ==> parse_positions(data@, off as int, count as nat, 0) == Some(
            (r.0@, r.1 as int),
        ) && sorted_from(r.0@, 0),
        res is None ==> parse_positions(data@, off as int, count as nat, 0) is None,
{
    let mut v: Vec<u32> = Vec::new();
    let mut o: usize = off;
    let mut prev: u32 = 0;
    let mut i: u32 = 0;
    assert(Seq::<u32>::empty() + parse_positions(data@, off as int, count as nat, 0).unwrap().0
        =~= parse_positions(data@, off as int, count as nat, 0).unwrap().0);
    while i < count
        invariant
            i <= count,
            parse_positions(data@, off as int, count as nat, 0) == prepend_positions(
                v@,
                parse_positions(data@, o as int, (count - i) as nat, prev),
            ),
            sorted_from(v@, 0),
            forall|k: int| 0 <= k < v@.len() ==> #[trigger] v@[k] <= prev,
        decreases count - i,
    {
        match vbyte_decode_at(data, o) {
            None => {
                return None;
            },
            Some((gap, o1)) => {
                if gap > u32::MAX - prev {
                    return None;
                }
                let pos = prev + gap;
                proof {
                    lemma_prepend_push(
                        v@,
                        pos,
                        parse_positions(data@, o1 as int, (count - i - 1) as nat, pos),
                    );
                }
                v.push(pos);
                o = o1;
                prev = pos;
                i = i + 1;
            },
        }
    }
    assert(v@ + Seq::<u32>::empty() =~= v@);
    Some((v, o))
}

/// Read `count` field entries at `off`.
fn read_fields(data: &[u8], off: usize, count: u32) -> (res: Option<(FieldMap, usize)>)
    ensures
        res matches Some(r) ==> parse_fields(data@, off as int, count as nat, Map::empty()) == Some(
            (r.0@, r.1 as int),
        ) && field_map_sorted(r.0@),
        res is None ==> parse_fields(data@, off as int, count as nat, Map::empty()) is None,
{
    let mut fm = FieldMap::new();
    let mut o: usize = off;
    let mut i: u32 = 0;
    while i < count
        invariant
            i <= count,
            parse_fields(data@, off as int, count as nat, Map::empty()) == parse_fields(
                data@,
                o as int,
                (count - i) as nat,
                fm@,
            ),
            field_map_sorted(fm@),
        decreases count - i,
    {
        if o >= data.len() {
            return None;
        }
        let byte = data[o];
        let f = match Field::from_u8(byte) {
            Some(f) => f,
            None => {
                return None;
            },
        };
        let (pc, o1) = match vbyte_decode_at(data, o + 1) {
            Some(r) => r,
            None => {
                return None;
            },
        };
        let (ps, o2) = match read_positions(data, o1, pc) {
            Some(r) => r,
            None => {
                return None;
            },
        };
        let ghost old_fm = fm@;
        fm.insert(f, ps);
        assert(field_map_sorted(fm@)) by {
            assert forall|g: Field| #[trigger] fm@.contains_key(g) implies sorted_from(fm@[g], 0) by {
                if g != f {
                    assert(old_fm.contains_key(g));
                }
            }
        }
        o = o2;
        i = i + 1;
    }
    Some((fm, o))
}

proof fn lemma_add_doc_sorted(acc: DocList, id: u32, m: Map<Field, Seq<u32>>)
    requires
        positions_sorted(acc),
        field_map_sorted(m),
    ensures
        positions_sorted(add_doc(acc, id, m)),
{
    let r = add_doc(acc, id, m);
    assert forall|i: int| 0 <= i < r.len() implies field_map_sorted(#[trigger] r[i].1) by {
        if i < acc.len() && !(acc.len() > 0 && acc.last().0 == id && i == acc.len() - 1) {
            assert(r[i] == acc[i]);
        }
    }
}

/// Read `count` documents at `off`.
fn read_docs(data: &[u8], off: usize, count: u32) -> (res: Option<(Postings, usize)>)
    ensures
        res matches Some(r) ==> parse_docs(data@, off as int, count as nat, 0, seq![]) == Some(
            (r.0@, r.1 as int),
        ) && r.0.wf() && positions_sorted(r.0@),
        res is None ==> parse_docs(data@, off as int, count as nat, 0, seq![]) is None,
{
    let mut p = Postings::new();
    let mut o: usize = off;
    let mut prev: u32 = 0;
    let mut i: u32 = 0;
    while i < count
        invariant
            i <= count,
            parse_docs(data@, off as int, count as nat, 0, seq![]) == parse_docs(
                data@,
                o as int,
                (count - i) as nat,
                prev,
                p@,
            ),
            p.wf(),
            p@.len() > 0 ==> p@.last().0 == prev,
            positions_sorted(p@),
        decreases count - i,
    {
        let (gap, o1) = match vbyte_decode_at(data, o) {
            Some(r) => r,
            None => {
                return None;
            },
        };
        if gap > u32::MAX - prev {
            return None;
        }
        let doc_id = prev + gap;
        let (fc, o2) = match vbyte_decode_at(data, o1) {
            Some(r) => r,
            None => {
                return None;
            },
        };
        let (fm, o3) = match read_fields(data, o2, fc) {
            Some(r) => r,
            None => {
                return None;
            },
        };
        proof {
            lemma_add_doc_sorted(p@, doc_id, fm@);
        }
        p.add_last(doc_id, fm);
        o = o3;
        prev = doc_id;
        i = i + 1;
    }
    Some((p, o))
}

/// Decode a postings list, or `None` where the data is not one: a number
/// runs past the end, a field byte is missing or names no field, or an id or
/// position would exceed 32 bits. Bytes after the list are ignored.
pub fn try_deserialize_postings(data: &[u8]) -> (res: Option<Postings>)
    ensures
        res is Some <==> parse_postings(data@) is Some,
        res matches Some(p) ==> p@ == parse_postings(data@).unwrap().0 && p.wf() && positions_sorted(
            p@,
        ),
{
    let (n, o) = match vbyte_decode_at(data, 0) {
        Some(r) => r,
        None => {
            return None;
        },
    };
    match read_docs(data, o, n) {
        Some((p, _)) => Some(p),
        None => None,
    }
}

/// Decode a postings list that `data` starts with.
pub fn deserialize_postings(data: &[u8]) -> (res: Postings)
    requires
        parse_postings(data@) is Some,
    ensures
        res@ == parse_postings(data@).unwrap().0,
        res.wf(),
        positions_sorted(res@),
{
    match try_deserialize_postings(data) {
        Some(p) => p,
        None => Postings::new(),
    }
}

} // verus!

verus! {

// ---------------------------------------------------------------------------
// Postings: decoding what encoding wrote
// ---------------------------------------------------------------------------

proof fn lemma_split(d: Seq<u8>, off: int, x: Seq<u8>, y: Seq<u8>)
    requires
        0 <= off,
        off + x.len() + y.len() <= d.len(),
        d.subrange(off, off + x.len() + y.len()) == x + y,
    ensures
        d.subrange(off, off + x.len()) == x,
        d.subrange(off + x.len(), off + x.len() + y.len()) == y,
{
    assert forall|i: int| 0 <= i < x.len() implies d.subrange(off, off + x.len())[i] == x[i] by {
        assert(d[off + i] == d.subrange(off, off + x.len() + y.len())[i]);
        assert((x + y)[i] == x[i]);
    }
    assert forall|i: int| 0 <= i < y.len() implies d.subrange(
        off + x.len(),
        off + x.len() + y.len(),
    )[i] == y[i] by {
        assert(d[off + x.len() + i] == d.subrange(off, off + x.len() + y.len())[x.len() + i]);
        assert((x + y)[x.len() + i] == y[i]);
    }
    assert(d.subrange(off, off + x.len()) =~= x);
    assert(d.subrange(off + x.len(), off + x.len() + y.len()) =~= y);
}

proof fn lemma_positions_roundtrip(d: Seq<u8>, off: int, ps: Seq<u32>, prev: u32)
    requires
        sorted_from(ps, prev),
        0 <= off,
        off + positions_bytes(ps, prev).len() <= d.len(),
        d.subrange(off, off + positions_bytes(ps, prev).len()) == positions_bytes(ps, prev),
    ensures
        parse_positions(d, off, ps.len(), prev) == Some(
            (ps, off + positions_bytes(ps, prev).len()),
        ),
    decreases ps.len(),
{
    if ps.len() > 0 {
        let g = (ps[0] - prev) as u32;
        let vb = vbyte_spec(g);
        let rest = positions_bytes(ps.drop_first(), ps[0]);
        lemma_split(d, off, vb, rest);
        lemma_vbyte_roundtrip(d, off, g);
        assert(sorted_from(ps.drop_first(), ps[0])) by {
            assert forall|i: int, j: int|
                0 <= i <= j < ps.drop_first().len() implies #[trigger] ps.drop_first()[i]
                <= #[trigger] ps.drop_first()[j] by {
                assert(ps[i + 1] <= ps[j + 1]);
            }
            if ps.len() > 1 {
                assert(ps[0] <= ps[1]);
            }
        }
        lemma_positions_roundtrip(d, off + vb.len(), ps.drop_first(), ps[0]);
        assert(seq![ps[0]] + ps.drop_first() =~= ps);
    }
}

/// The map `acc` with each listed field set to its positions in `m`.
pub open spec fn insert_all(
    acc: Map<Field, Seq<u32>>,
    m: Map<Field, Seq<u32>>,
    fs: Seq<Field>,
) -> Map<Field, Seq<u32>>
    decreases fs.len(),
{
    if fs.len() == 0 {
        acc
    } else {
        insert_all(acc.insert(fs[0], m[fs[0]]), m, fs.drop_first())
    }
}

proof fn lemma_insert_all(acc: Map<Field, Seq<u32>>, m: Map<Field, Seq<u32>>, fs: Seq<Field>)
    ensures
        forall|k: Field| #[trigger]
            insert_all(acc, m, fs).contains_key(k) <==> acc.contains_key(k) || fs.contains(k),
        forall|k: Field| fs.contains(k) ==> #[trigger] insert_all(acc, m, fs)[k] == m[k],
        forall|k: Field|
            !fs.contains(k) && acc.contains_key(k) ==> #[trigger] insert_all(acc, m, fs)[k]
                == acc[k],
    decreases fs.len(),
{
    if fs.len() > 0 {
        let acc2 = acc.insert(fs[0], m[fs[0]]);
        lemma_insert_all(acc2, m, fs.drop_first());
        assert forall|k: Field| fs.contains(k) implies (k == fs[0] || fs.drop_first().contains(k)) by {
            let i = choose|i: int| 0 <= i < fs.len() && fs[i] == k;
            if i > 0 {
                assert(fs.drop_first()[i - 1] == k);
            }
        }
        assert forall|k: Field| fs.drop_first().contains(k) implies fs.contains(k) by {
            let i = choose|i: int| 0 <= i < fs.drop_first().len() && fs.drop_first()[i] == k;
            assert(fs[i + 1] == k);
        }
        assert(fs.contains(fs[0]));
        let r = insert_all(acc, m, fs);
        assert(r == insert_all(acc2, m, fs.drop_first()));
        assert forall|k: Field| #[trigger]
            r.contains_key(k) <==> acc.contains_key(k) || fs.contains(k) by {
            if fs.contains(k) && !fs.drop_first().contains(k) {
                assert(k == fs[0]);
            }
        }
        assert forall|k: Field| fs.contains(k) implies #[trigger] r[k] == m[k] by {
            if !fs.drop_first().contains(k) {
                assert(k == fs[0]);
            }
        }
        assert forall|k: Field| !fs.contains(k) && acc.contains_key(k) implies #[trigger] r[k]
            == acc[k] by {
            assert(k != fs[0]);
            assert(!fs.drop_first().contains(k));
        }
    }
}

proof fn lemma_code_roundtrip(f: Field)
    ensures
        field_from_code(field_code(f)) == Some(f),
{
}

proof fn lemma_present_fields(m: Map<Field, Seq<u32>>)
    ensures
        forall|k: Field| #[trigger] present_fields(m).contains(k) <==> m.contains_key(k),
        present_fields(m).len() <= 4,
{
    let a = field_if_present(m, Field::Title);
    let b = field_if_present(m, Field::Headers);
    let c = field_if_present(m, Field::Code);
    let e = field_if_present(m, Field::Body);
    let p = present_fields(m);
    assert(p == a + b + c + e);
    assert forall|i: int| 0 <= i < p.len() implies m.contains_key(#[trigger] p[i]) by {
        if i < a.len() {
            assert(p[i] == a[i]);
        } else if i < a.len() + b.len() {
            assert(p[i] == b[i - a.len()]);
        } else if i < a.len() + b.len() + c.len() {
            assert(p[i] == c[i - a.len() - b.len()]);
        } else {
            assert(p[i] == e[i - a.len() - b.len() - c.len()]);
        }
    }
    assert forall|k: Field| m.contains_key(k) implies #[trigger] p.contains(k) by {
        match k {
            Field::Title => {
                assert(p[0] == k);
            },
            Field::Headers => {
                assert(p[a.len() as int] == k);
            },
            Field::Code => {
                assert(p[(a.len() + b.len()) as int] == k);
            },
            Field::Body => {
                assert(p[(a.len() + b.len() + c.len()) as int] == k);
            },
        }
    }
}

proof fn lemma_fields_roundtrip(
    d: Seq<u8>,
    off: int,
    m: Map<Field, Seq<u32>>,
    fs: Seq<Field>,
    acc: Map<Field, Seq<u32>>,
)
    requires
        forall|i: int| 0 <= i < fs.len() ==> m.contains_key(#[trigger] fs[i]),
        field_map_sorted(m),
        field_counts_fit(m),
        0 <= off,
        off + fields_bytes(m, fs).len() <= d.len(),
        d.subrange(off, off + fields_bytes(m, fs).len()) == fields_bytes(m, fs),
    ensures
        parse_fields(d, off, fs.len(), acc) == Some(
            (insert_all(acc, m, fs), off + fields_bytes(m, fs).len()),
        ),
    decreases fs.len(),
{
    if fs.len() > 0 {
        let f = fs[0];
        let ps = m[f];
        let vb = vbyte_spec(ps.len() as u32);
        let pb = positions_bytes(ps, 0);
        let entry = field_entry_bytes(f, ps);
        let rest = fields_bytes(m, fs.drop_first());
        lemma_split(d, off, entry, rest);
        assert(entry == seq![field_code(f)] + (vb + pb));
        lemma_split(d, off, seq![field_code(f)], vb + pb);
        lemma_split(d, off + 1, vb, pb);
        assert(d[off] == d.subrange(off, off + 1)[0]);
        lemma_code_roundtrip(f);
        lemma_vbyte_roundtrip(d, off + 1, ps.len() as u32);
        assert(m.contains_key(f));
        lemma_positions_roundtrip(d, off + 1 + vb.len(), ps, 0);
        assert forall|i: int| 0 <= i < fs.drop_first().len() implies m.contains_key(
            #[trigger] fs.drop_first()[i],
        ) by {
            assert(fs.drop_first()[i] == fs[i + 1]);
        }
        lemma_fields_roundtrip(d, off + entry.len(), m, fs.drop_first(), acc.insert(f, ps));
    }
}

proof fn lemma_field_map_roundtrip(d: Seq<u8>, off: int, m: Map<Field, Seq<u32>>)
    requires
        field_map_sorted(m),
        field_counts_fit(m),
        0 <= off,
        off + field_map_bytes(m).len() <= d.len(),
        d.subrange(off, off + field_map_bytes(m).len()) == field_map_bytes(m),
    ensures
        ({
            let n = present_fields(m).len() as u32;
            let o1 = off + vbyte_spec(n).len();
            &&& vbyte_at(d, off) == Some((n, o1))
            &&& parse_fields(d, o1, n as nat, Map::empty()) == Some(
                (m, off + field_map_bytes(m).len()),
            )
        }),
{
    let fs = present_fields(m);
    lemma_present_fields(m);
    let n = fs.len() as u32;
    let vb = vbyte_spec(n);
    lemma_split(d, off, vb, fields_bytes(m, fs));
    lemma_vbyte_roundtrip(d, off, n);
    assert forall|i: int| 0 <= i < fs.len() implies m.contains_key(#[trigger] fs[i]) by {
        assert(fs.contains(fs[i]));
    }
    lemma_fields_roundtrip(d, off + vb.len(), m, fs, Map::empty());
    lemma_insert_all(Map::empty(), m, fs);
    assert(insert_all(Map::empty(), m, fs) =~= m);
}

proof fn lemma_docs_roundtrip(d: Seq<u8>, off: int, s: DocList, prev: u32, acc: DocList)
    requires
        ids_increasing(s),
        positions_sorted(s),
        forall|i: int| 0 <= i < s.len() ==> field_counts_fit(#[trigger] s[i].1),
        s.len() > 0 ==> prev <= s[0].0,
        s.len() > 0 && acc.len() > 0 ==> prev < s[0].0,
        acc.len() > 0 ==> acc.last().0 == prev,
        0 <= off,
        off + docs_bytes(s, prev).len() <= d.len(),
        d.subrange(off, off + docs_bytes(s, prev).len()) == docs_bytes(s, prev),
    ensures
        parse_docs(d, off, s.len(), prev, acc) == Some((acc + s, off + docs_bytes(s, prev).len())),
    decreases s.len(),
{
    if s.len() == 0 {
        assert(acc + s =~= acc);
    } else {
        let id = s[0].0;
        let m = s[0].1;
        let g = (id - prev) as u32;
        let vb = vbyte_spec(g);
        let fb = field_map_bytes(m);
        let rest = docs_bytes(s.drop_first(), id);
        assert(docs_bytes(s, prev) == vb + fb + rest);
        lemma_split(d, off, vb + fb, rest);
        lemma_split(d, off, vb, fb);
        lemma_vbyte_roundtrip(d, off, g);
        assert(field_map_sorted(m));
        assert(field_counts_fit(m));
        lemma_field_map_roundtrip(d, off + vb.len(), m);
        assert(add_doc(acc, id, m) == acc.push((id, m)));
        let t = s.drop_first();
        assert(ids_increasing(t)) by {
            assert forall|i: int, j: int| 0 <= i < j < t.len() implies #[trigger] t[i].0
                < #[trigger] t[j].0 by {
                assert(s[i + 1].0 < s[j + 1].0);
            }
        }
        assert(positions_sorted(t)) by {
            assert forall|i: int| 0 <= i < t.len() implies field_map_sorted(#[trigger] t[i].1) by {
                assert(t[i] == s[i + 1]);
            }
        }
        assert forall|i: int| 0 <= i < t.len() implies field_counts_fit(#[trigger] t[i].1) by {
            assert(t[i] == s[i + 1]);
        }
        if t.len() > 0 {
            assert(s[0].0 < s[1].0);
        }
        lemma_docs_roundtrip(d, off + vb.len() + fb.len(), t, id, acc.push((id, m)));
        assert(acc.push((id, m)) + t =~= acc + s);
    }
}

/// Decoding what `serialize_postings` wrote gives back the same documents,
/// fields and positions, and consumes exactly the bytes written.
pub proof fn lemma_postings_roundtrip(s: DocList)
    requires
        ids_increasing(s),
        positions_sorted(s),
        counts_fit(s),
    ensures
        parse_postings(postings_bytes(s)) == Some((s, postings_bytes(s).len() as int)),
{
    lemma_postings_roundtrip_prefix(s, seq![]);
    assert(postings_bytes(s) + Seq::<u8>::empty() =~= postings_bytes(s));
}

/// Decoding stops where an encoded postings list ends: with any bytes after
/// it, decoding still gives back exactly the list and the length written.
pub proof fn lemma_postings_roundtrip_prefix(s: DocList, rest: Seq<u8>)
    requires
        ids_increasing(s),
        positions_sorted(s),
        counts_fit(s),
    ensures
        parse_postings(postings_bytes(s) + rest) == Some((s, postings_bytes(s).len() as int)),
{
    let p = postings_bytes(s);
    let d = p + rest;
    let n = s.len() as u32;
    let vb = vbyte_spec(n);
    assert(d.subrange(0, p.len() as int) =~= p);
    lemma_split(d, 0, vb, docs_bytes(s, 0));
    lemma_vbyte_roundtrip(d, 0, n);
    lemma_docs_roundtrip(d, vb.len() as int, s, 0, seq![]);
    assert(Seq::<(u32, Map<Field, Seq<u32>>)>::empty() + s =~= s);
}

} // verus!

verus! {

// ---------------------------------------------------------------------------
// Blocks: a sorted run of terms, each with its postings
// ---------------------------------------------------------------------------

/// The abstract content of a block: `(term, postings)` pairs.
pub type BlockEntries = Seq<(Seq<char>, DocList)>;

/// An in-memory block index: term -> postings, terms in sorted order.
pub type BlockIndex = TermMap<Postings>;

/// The entries of a block index with each postings list taken by its view.
pub open spec fn block_view(e: Seq<(Seq<char>, Postings)>) -> BlockEntries {
    e.map_values(|x: (Seq<char>, Postings)| (x.0, x.1@))
}

/// Every postings list of the index is well-formed with sorted positions.
pub open spec fn postings_all_wf(e: Seq<(Seq<char>, Postings)>) -> bool {
    forall|i: int| 0 <= i < e.len() ==> (#[trigger] e[i].1).wf() && positions_sorted(e[i].1@)
}

/// A block index whose entries can be encoded.
pub open spec fn block_wf(b: &BlockIndex) -> bool {
    b.wf() && postings_all_wf(b@)
}

/// One entry: the term's UTF-8 length and bytes, then the length of its
/// encoded postings and the postings.
pub open spec fn entry_bytes(t: Seq<char>, p: DocList) -> Seq<u8> {
    vbyte_spec(encode_utf8(t).len() as u32) + encode_utf8(t) + vbyte_spec(
        postings_bytes(p).len() as u32,
    ) + postings_bytes(p)
}

pub open spec fn entries_bytes(e: BlockEntries) -> Seq<u8>
    decreases e.len(),
{
    if e.len() == 0 {
        seq![]
    } else {
        entry_bytes(e[0].0, e[0].1) + entries_bytes(e.drop_first())
    }
}

/// A block: the number of entries, then the entries in order.
pub open spec fn block_bytes(e: BlockEntries) -> Seq<u8> {
    vbyte_spec(e.len() as u32) + entries_bytes(e)
}

/// What reading one entry at `off` gives: the term, its postings, and the
/// offset past the entry. `None` where a length runs past the data, the term
/// bytes are not UTF-8, or the postings bytes are not a postings list.
pub open spec fn parse_entry(d: Seq<u8>, off: int) -> Option<((Seq<char>, DocList), int)> {
    match vbyte_at(d, off) {
        None => None,
        Some((tl, o1)) => {
            if o1 + tl > d.len() || !valid_utf8(d.subrange(o1, o1 + tl)) {
                None
            } else {
                let t = decode_utf8(d.subrange(o1, o1 + tl));
                match vbyte_at(d, o1 + tl) {
                    None => None,
                    Some((pl, o2)) => {
                        if o2 + pl > d.len() {
                            None
                        } else {
                            match parse_postings(d.subrange(o2, o2 + pl)) {
                                None => None,
                                Some((p, _)) => Some(((t, p), o2 + pl)),
                            }
                        }
                    },
                }
            }
        },
    }
}

/// What reading `count` entries at `off` gives.
pub open spec fn parse_entries(d: Seq<u8>, off: int, count: nat) -> Option<(BlockEntries, int)>
    decreases count,
{
    if count == 0 {
        Some((seq![], off))
    } else {
        match parse_entry(d, off) {
            None => None,
            Some((x, o1)) => match parse_entries(d, o1, (count - 1) as nat) {
                None => None,
                Some((rest, o2)) => Some((seq![x] + rest, o2)),
            },
        }
    }
}

/// What reading a block gives: its entries in the order they are stored.
pub open spec fn parse_block(d: Seq<u8>) -> Option<BlockEntries> {
    match vbyte_at(d, 0) {
        None => None,
        Some((n, o)) => match parse_entries(d, o, n as nat) {
            None => None,
            Some((e, _)) => Some(e),
        },
    }
}

/// Entries read in order into a map: a term read twice keeps its last
/// postings.
pub open spec fn entries_to_map(e: BlockEntries) -> Map<Seq<char>, DocList>
    decreases e.len(),
{
    if e.len() == 0 {
        Map::empty()
    } else {
        entries_to_map(e.drop_last()).insert(e.last().0, e.last().1)
    }
}

/// A block index as a map from term to postings.
pub open spec fn block_map(b: &BlockIndex) -> Map<Seq<char>, DocList> {
    entries_map(b@).map_values(|p: Postings| p@)
}

/// Every count and length that the block format stores fits in 32 bits.
pub open spec fn block_counts_fit(e: BlockEntries) -> bool {
    &&& e.len() <= u32::MAX
    &&& forall|i: int|
        0 <= i < e.len() ==> {
            &&& counts_fit(#[trigger] e[i].1)
            &&& encode_utf8(e[i].0).len() <= u32::MAX
            &&& postings_bytes(e[i].1).len() <= u32::MAX
        }
}

/// Append `bytes` to `out`.
fn append_bytes(out: &mut Vec<u8>, bytes: &[u8])
    ensures
        final(out)@ == old(out)@ + bytes@,
{
    let mut i: usize = 0;
    while i < bytes.len()
        invariant
            i <= bytes@.len(),
            out@ == old(out)@ + bytes@.subrange(0, i as int),
        decreases bytes@.len() - i,
    {
        out.push(bytes[i]);
        i = i + 1;
        assert(out@ =~= old(out)@ + bytes@.subrange(0, i as int));
    }
    assert(bytes@.subrange(0, i as int) =~= bytes@);
}

proof fn lemma_entries_bytes_unfold(e: BlockEntries, i: int)
    requires
        0 <= i < e.len(),
    ensures
        entries_bytes(e.subrange(i, e.len() as int)) == entry_bytes(e[i].0, e[i].1)
            + entries_bytes(e.subrange(i + 1, e.len() as int)),
{
    let t = e.subrange(i, e.len() as int);
    assert(t.drop_first() =~= e.subrange(i + 1, e.len() as int));
    assert(t[0] == e[i]);
}

/// Encode a block index: the number of terms, then each term in sorted
/// order with its UTF-8 bytes and its encoded postings, each preceded by its
/// length.
pub fn serialize_block(index_map: &BlockIndex) -> (out: Vec<u8>)
    requires
        block_wf(index_map),
    ensures
        out@ == block_bytes(block_view(index_map@)),
{
    let ghost e = block_view(index_map@);
    let mut out: Vec<u8> = Vec::new();
    let n = index_map.len();
    vbyte_encode(n as u32, &mut out);
    let mut i: usize = 0;
    assert(e.subrange(0, n as int) =~= e);
    while i < n
        invariant
            block_wf(index_map),
            e == block_view(index_map@),
            n == e.len(),
            i <= n,
            out@ + entries_bytes(e.subrange(i as int, n as int)) == block_bytes(e),
        decreases n - i,
    {
        let term = index_map.key_at(i);
        let postings = index_map.value_at(i);
        assert(postings.wf() && positions_sorted(postings@));
        let term_bytes = term.as_str().as_bytes();
        proof {
            lemma_entries_bytes_unfold(e, i as int);
        }
        let ghost before = out@;
        vbyte_encode(term_bytes.len() as u32, &mut out);
        append_bytes(&mut out, term_bytes);
        let postings_bytes = serialize_postings(postings);
        vbyte_encode(postings_bytes.len() as u32, &mut out);
        append_bytes(&mut out, postings_bytes.as_slice());
        assert(out@ + entries_bytes(e.subrange(i + 1, n as int)) =~= before + entries_bytes(
            e.subrange(i as int, n as int),
        ));
        i = i + 1;
    }
    assert(entries_bytes(e.subrange(n as int, n as int)) =~= Seq::<u8>::empty());
    assert(out@ =~= block_bytes(e));
    out
}

} // verus!

verus! {

/// Read one block entry at `off`.
fn read_entry(data: &[u8], off: usize) -> (res: Option<(String, Postings, usize)>)
    ensures
        res matches Some(r) ==> parse_entry(data@, off as int) == Some(
            ((r.0@, r.1@), r.2 as int),
        ) && r.1.wf() && positions_sorted(r.1@) && r.2 <= data@.len(),
        res is None ==> parse_entry(data@, off as int) is None,
{
    let (tl, o1) = match vbyte_decode_at(data, off) {
        Some(r) => r,
        None => {
            return None;
        },
    };
    if tl as usize > data.len() - o1 {
        return None;
    }
    let end1 = o1 + tl as usize;
    let term_bytes = vstd::slice::slice_to_vec(&data[o1..end1]);
    let term = match string_from_utf8(term_bytes) {
        Some(t) => t,
        None => {
            return None;
        },
    };
    let (pl, o2) = match vbyte_decode_at(data, end1) {
        Some(r) => r,
        None => {
            return None;
        },
    };
    if pl as usize > data.len() - o2 {
        return None;
    }
    let end2 = o2 + pl as usize;
    match try_deserialize_postings(&data[o2..end2]) {
        Some(p) => Some((term, p, end2)),
        None => None,
    }
}

pub open spec fn prepend_entries(p: BlockEntries, r: Option<(BlockEntries, int)>) -> Option<
    (BlockEntries, int),
> {
    match r {
        Some((s, e)) => Some((p + s, e)),
        None => None,
    }
}

proof fn lemma_prepend_entries_push(
    p: BlockEntries,
    x: (Seq<char>, DocList),
    r: Option<(BlockEntries, int)>,
)
    ensures
        prepend_entries(p, prepend_entries(seq![x], r)) == prepend_entries(p.push(x), r),
{
    match r {
        Some((s, e)) => {
            assert(p + (seq![x] + s) =~= p.push(x) + s);
        },
        None => {},
    }
}

pub(crate) proof fn lemma_insert_keeps_wf(
    old_e: Seq<(Seq<char>, Postings)>,
    new_e: Seq<(Seq<char>, Postings)>,
    k: Seq<char>,
    p: Postings,
)
    requires
        terms_sorted(old_e),
        terms_sorted(new_e),
        entries_map(new_e) == entries_map(old_e).insert(k, p),
        postings_all_wf(old_e),
        p.wf(),
        positions_sorted(p@),
    ensures
        postings_all_wf(new_e),
{
    assert forall|i: int| 0 <= i < new_e.len() implies (#[trigger] new_e[i].1).wf()
        && positions_sorted(new_e[i].1@) by {
        lemma_entries_map_at(new_e, i);
        let t = new_e[i].0;
        if t != k {
            assert(entries_map(old_e).contains_key(t));
            let j = term_index(old_e, t);
            lemma_entries_map_at(old_e, j);
        }
    }
}

pub(crate) proof fn lemma_block_map_insert(old_b: &BlockIndex, new_b: &BlockIndex, k: Seq<char>, p: Postings)
    requires
        entries_map(new_b@) == entries_map(old_b@).insert(k, p),
    ensures
        block_map(new_b) == block_map(old_b).insert(k, p@),
{
    assert(block_map(new_b) =~= block_map(old_b).insert(k, p@));
}

/// Decode a block into an index, or `None` where the data is not a block.
/// Entries are read in order; a term read twice keeps its last postings.
pub fn try_deserialize_block(data: &[u8]) -> (res: Option<BlockIndex>)
    ensures
        res is Some <==> parse_block(data@) is Some,
        res matches Some(b) ==> block_wf(&b) && block_map(&b) == entries_to_map(
            parse_block(data@).unwrap(),
        ),
{
    let (n, o) = match vbyte_decode_at(data, 0) {
        Some(r) => r,
        None => {
            return None;
        },
    };
    let mut block: BlockIndex = TermMap::new();
    let mut off: usize = o;
    let mut i: u32 = 0;
    let ghost total = parse_entries(data@, o as int, n as nat);
    let ghost mut seen: BlockEntries = seq![];
    assert(block_map(&block) =~= entries_to_map(seen));
    assert(seen + total.unwrap().0 =~= total.unwrap().0);
    while i < n
        invariant
            i <= n,
            off <= data@.len(),
            total == parse_entries(data@, o as int, n as nat),
            vbyte_at(data@, 0) == Some((n, o as int)),
            total == prepend_entries(seen, parse_entries(data@, off as int, (n - i) as nat)),
            block_wf(&block),
            block_map(&block) == entries_to_map(seen),
        decreases n - i,
    {
        let (term, postings, next) = match read_entry(data, off) {
            Some(r) => r,
            None => {
                assert(parse_entries(data@, off as int, (n - i) as nat) is None);
                assert(total is None);
                assert(parse_block(data@) is None);
                return None;
            },
        };
        let ghost x = (term@, postings@);
        proof {
            lemma_prepend_entries_push(
                seen,
                x,
                parse_entries(data@, next as int, (n - i - 1) as nat),
            );
        }
        let ghost old_e = block@;
        let ghost old_block = block;
        let ghost pv = postings;
        block.insert(term, postings);
        proof {
            old_block.lemma_sorted();
            block.lemma_sorted();
            lemma_insert_keeps_wf(old_e, block@, x.0, pv);
            lemma_block_map_insert(&old_block, &block, x.0, pv);
            let s2 = seen.push(x);
            assert(s2.drop_last() =~= seen);
            seen = s2;
        }
        off = next;
        i = i + 1;
    }
    assert(seen + Seq::<(Seq<char>, DocList)>::empty() =~= seen);
    Some(block)
}

} // verus!

verus! {

/// Decode a block into an index. Entries are read in order; a term read
/// twice keeps its last postings.
pub fn deserialize_block(data: &[u8]) -> (res: BlockIndex)
    requires
        parse_block(data@) is Some,
    ensures
        block_wf(&res),
        block_map(&res) == entries_to_map(parse_block(data@).unwrap()),
{
    match try_deserialize_block(data) {
        Some(b) => b,
        None => TermMap::new(),
    }
}

/// Whether `data` is a block: every entry it announces can be read.
pub fn block_is_valid(data: &[u8]) -> (res: bool)
    ensures
        res == (parse_block(data@) is Some),
{
    let (n, o) = match vbyte_decode_at(data, 0) {
        Some(r) => r,
        None => {
            return false;
        },
    };
    let mut off: usize = o;
    let mut i: u32 = 0;
    while i < n
        invariant
            i <= n,
            off <= data@.len(),
            vbyte_at(data@, 0) == Some((n, o as int)),
            (parse_entries(data@, o as int, n as nat) is Some) == (parse_entries(
                data@,
                off as int,
                (n - i) as nat,
            ) is Some),
        decreases n - i,
    {
        match read_entry(data, off) {
            Some((_, _, next)) => {
                off = next;
            },
            None => {
                return false;
            },
        }
        i = i + 1;
    }
    true
}

/// Reading `count` entries gives `count` entries.
proof fn lemma_parse_entries_len(d: Seq<u8>, off: int, count: nat)
    ensures
        parse_entries(d, off, count) matches Some(r) ==> r.0.len() == count,
    decreases count,
{
    if count > 0 {
        if let Some((x, o1)) = parse_entry(d, off) {
            lemma_parse_entries_len(d, o1, (count - 1) as nat);
        }
    }
}

/// Reads the entries of one block, one at a time, in stored order.
#[derive(Debug, Clone)]
pub struct BlockReader {
    data: Vec<u8>,
    offset: usize,
    remaining: u32,
}

impl View for BlockReader {
    type V = BlockEntries;

    /// The entries not yet read.
    closed spec fn view(&self) -> BlockEntries {
        parse_entries(self.data@, self.offset as int, self.remaining as nat).unwrap().0
    }
}

impl BlockReader {
    /// The entries still to read can all be read.
    pub closed spec fn wf(&self) -> bool {
        &&& self.offset <= self.data@.len()
        &&& parse_entries(self.data@, self.offset as int, self.remaining as nat) is Some
    }

    /// A reader over block `data`, or `None` where `data` is not a block.
    pub fn try_new(data: Vec<u8>) -> (res: Option<BlockReader>)
        ensures
            res is Some <==> parse_block(data@) is Some,
            res matches Some(r) ==> r.wf() && r@ == parse_block(data@).unwrap(),
    {
        if !block_is_valid(data.as_slice()) {
            return None;
        }
        let (n, o) = match vbyte_decode_at(data.as_slice(), 0) {
            Some(r) => r,
            None => {
                return None;
            },
        };
        Some(BlockReader { data, offset: o, remaining: n })
    }

    /// A reader over block `data`, positioned at its first entry.
    pub fn new(data: Vec<u8>) -> (res: BlockReader)
        requires
            parse_block(data@) is Some,
        ensures
            res.wf(),
            res@ == parse_block(data@).unwrap(),
    {
        let ghost d = data@;
        match BlockReader::try_new(data) {
            Some(r) => r,
            None => BlockReader { data: Vec::new(), offset: 0, remaining: 0 },
        }
    }

    /// Read the next entry: its term and postings, or `None` once every
    /// entry has been read.
    pub fn next_entry(&mut self) -> (res: Option<(String, Postings)>)
        requires
            old(self).wf(),
        ensures
            final(self).wf(),
            old(self)@.len() == 0 ==> res is None && *final(self) == *old(self),
            old(self)@.len() > 0 ==> (res matches Some(r) && (r.0@, r.1@) == old(self)@[0]
                && final(self)@ == old(self)@.drop_first() && r.1.wf() && positions_sorted(r.1@)),
    {
        proof {
            lemma_parse_entries_len(self.data@, self.offset as int, self.remaining as nat);
        }
        if self.remaining == 0 {
            return None;
        }
        let ghost rest = parse_entries(self.data@, self.offset as int, self.remaining as nat);
        match read_entry(self.data.as_slice(), self.offset) {
            Some((term, postings, next)) => {
                self.remaining = self.remaining - 1;
                self.offset = next;
                Some((term, postings))
            },
            None => {
                None
            },
        }
    }
}

} // verus!

verus! {

proof fn lemma_entry_roundtrip(d: Seq<u8>, off: int, t: Seq<char>, p: DocList)
    requires
        ids_increasing(p),
        positions_sorted(p),
        counts_fit(p),
        encode_utf8(t).len() <= u32::MAX,
        postings_bytes(p).len() <= u32::MAX,
        0 <= off,
        off + entry_bytes(t, p).len() <= d.len(),
        d.subrange(off, off + entry_bytes(t, p).len()) == entry_bytes(t, p),
    ensures
        parse_entry(d, off) == Some(((t, p), off + entry_bytes(t, p).len())),
{
    broadcast use vstd::utf8::encode_utf8_valid_utf8, vstd::utf8::encode_utf8_decode_utf8;

    let tb = encode_utf8(t);
    let pb = postings_bytes(p);
    let v1 = vbyte_spec(tb.len() as u32);
    let v2 = vbyte_spec(pb.len() as u32);
    assert(entry_bytes(t, p) == v1 + tb + v2 + pb);
    lemma_split(d, off, v1 + tb + v2, pb);
    lemma_split(d, off, v1 + tb, v2);
    lemma_split(d, off, v1, tb);
    lemma_vbyte_roundtrip(d, off, tb.len() as u32);
    let o1 = off + v1.len();
    assert(d.subrange(o1, o1 + tb.len()) == tb);
    lemma_vbyte_roundtrip(d, o1 + tb.len(), pb.len() as u32);
    let o2 = o1 + tb.len() + v2.len();
    assert(d.subrange(o2, o2 + pb.len()) == pb);
    lemma_postings_roundtrip(p);
}

proof fn lemma_entries_roundtrip(d: Seq<u8>, off: int, e: BlockEntries)
    requires
        block_counts_fit(e),
        forall|i: int| 0 <= i < e.len() ==> ids_increasing(#[trigger] e[i].1) && positions_sorted(e[i].1),
        0 <= off,
        off + entries_bytes(e).len() <= d.len(),
        d.subrange(off, off + entries_bytes(e).len()) == entries_bytes(e),
    ensures
        parse_entries(d, off, e.len()) == Some((e, off + entries_bytes(e).len())),
    decreases e.len(),
{
    if e.len() > 0 {
        let x = entry_bytes(e[0].0, e[0].1);
        let rest = entries_bytes(e.drop_first());
        lemma_split(d, off, x, rest);
        assert(counts_fit(e[0].1));
        assert(ids_increasing(e[0].1) && positions_sorted(e[0].1));
        lemma_entry_roundtrip(d, off, e[0].0, e[0].1);
        let t = e.drop_first();
        assert forall|i: int| 0 <= i < t.len() implies ids_increasing(#[trigger] t[i].1)
            && positions_sorted(t[i].1) by {
            assert(t[i] == e[i + 1]);
        }
        assert(block_counts_fit(t)) by {
            assert forall|i: int| 0 <= i < t.len() implies {
                &&& counts_fit(#[trigger] t[i].1)
                &&& encode_utf8(t[i].0).len() <= u32::MAX
                &&& postings_bytes(t[i].1).len() <= u32::MAX
            } by {
                assert(t[i] == e[i + 1]);
            }
        }
        lemma_entries_roundtrip(d, off + x.len(), t);
        assert(seq![e[0]] + t =~= e);
    }
}

/// Reading back the bytes of a block gives back its entries, in order.
pub proof fn lemma_block_roundtrip(e: BlockEntries)
    requires
        block_counts_fit(e),
        forall|i: int| 0 <= i < e.len() ==> ids_increasing(#[trigger] e[i].1) && positions_sorted(e[i].1),
    ensures
        parse_block(block_bytes(e)) == Some(e),
{
    let d = block_bytes(e);
    let v = vbyte_spec(e.len() as u32);
    assert(d.subrange(0, d.len() as int) =~= d);
    lemma_split(d, 0, v, entries_bytes(e));
    lemma_vbyte_roundtrip(d, 0, e.len() as u32);
    lemma_entries_roundtrip(d, v.len() as int, e);
}

/// Reading entries into a map keeps exactly their terms, and, where the
/// terms are sorted, each term's own postings.
pub proof fn lemma_entries_to_map(e: BlockEntries)
    ensures
        forall|k: Seq<char>| #[trigger] entries_to_map(e).contains_key(k) <==> has_term(e, k),
        terms_sorted(e) ==> forall|i: int|
            0 <= i < e.len() ==> #[trigger] entries_to_map(e)[e[i].0] == e[i].1,
    decreases e.len(),
{
    if e.len() > 0 {
        let f = e.drop_last();
        lemma_entries_to_map(f);
        let n = e.len() - 1;
        assert(entries_to_map(e) == entries_to_map(f).insert(e[n].0, e[n].1));
        assert forall|k: Seq<char>| #[trigger] entries_to_map(e).contains_key(k) <==> has_term(e, k) by {
            if k == e[n].0 {
                assert(e[n].0 == k);
            }
            if has_term(f, k) {
                let j = choose|j: int| 0 <= j < f.len() && #[trigger] f[j].0 == k;
                assert(e[j].0 == k);
            }
            if has_term(e, k) {
                let j = choose|j: int| 0 <= j < e.len() && #[trigger] e[j].0 == k;
                if j < e.len() - 1 {
                    assert(f[j].0 == k);
                }
            }
        }
        if terms_sorted(e) {
            assert(terms_sorted(f));
            assert forall|i: int| 0 <= i < e.len() implies #[trigger] entries_to_map(e)[e[i].0]
                == e[i].1 by {
                if i < n {
                    assert(f[i] == e[i]);
                    assert(chars_lt(e[i].0, e[n].0));
                    lemma_chars_lt_irreflexive(e[i].0);
                    assert(e[i].0 != e[n].0);
                    assert(entries_to_map(f)[f[i].0] == f[i].1);
                }
            }
        }
    }
}

/// Encoding a block index and decoding the bytes gives back the same map
/// from terms to postings.
pub proof fn lemma_block_index_roundtrip(b: &BlockIndex)
    requires
        block_wf(b),
        block_counts_fit(block_view(b@)),
    ensures
        parse_block(block_bytes(block_view(b@))) is Some,
        entries_to_map(parse_block(block_bytes(block_view(b@))).unwrap()) == block_map(b),
{
    let e = block_view(b@);
    b.lemma_sorted();
    assert forall|i: int| 0 <= i < e.len() implies ids_increasing(#[trigger] e[i].1)
        && positions_sorted(e[i].1) by {
        assert(b@[i].1.wf());
    }
    lemma_block_roundtrip(e);
    assert(terms_sorted(e)) by {
        assert forall|i: int, j: int| 0 <= i < j < e.len() implies chars_lt(
            #[trigger] e[i].0,
            #[trigger] e[j].0,
        ) by {
            assert(e[i].0 == b@[i].0 && e[j].0 == b@[j].0);
        }
    }
    lemma_entries_to_map(e);
    let m1 = entries_to_map(e);
    let m2 = block_map(b);
    assert forall|k: Seq<char>| m1.contains_key(k) <==> m2.contains_key(k) by {
        if has_term(e, k) {
            let j = choose|j: int| 0 <= j < e.len() && #[trigger] e[j].0 == k;
            assert(b@[j].0 == k);
        }
        if has_term(b@, k) {
            let j = choose|j: int| 0 <= j < b@.len() && #[trigger] b@[j].0 == k;
            assert(e[j].0 == k);
        }
    }
    assert forall|k: Seq<char>| #[trigger] m1.contains_key(k) implies m1[k] == m2[k] by {
        let j = choose|j: int| 0 <= j < e.len() && #[trigger] e[j].0 == k;
        lemma_entries_map_at(b@, j);
    }
    assert(m1 =~= m2);
}

/// A reader made with `BlockReader::new` over the bytes that
/// `serialize_block` writes for `b` starts with exactly `b`'s entries, in
/// strictly increasing term order, each term with its postings; since each
/// `next_entry` call returns the first entry left and drops it, the calls
/// give the terms of `b` one by one in that order, and `None` from then on.
pub proof fn lemma_reader_over_block(b: &BlockIndex)
    requires
        block_wf(b),
        block_counts_fit(block_view(b@)),
    ensures
        parse_block(block_bytes(block_view(b@))) == Some(block_view(b@)),
        terms_sorted(block_view(b@)),
        block_view(b@).len() == b@.len(),
        forall|i: int| 0 <= i < b@.len() ==> #[trigger] block_view(b@)[i] == (b@[i].0, b@[i].1@),
{
    let e = block_view(b@);
    b.lemma_sorted();
    assert forall|i: int| 0 <= i < e.len() implies ids_increasing(#[trigger] e[i].1)
        && positions_sorted(e[i].1) by {
        assert(b@[i].1.wf());
    }
    lemma_block_roundtrip(e);
    assert forall|i: int, j: int| 0 <= i < j < e.len() implies chars_lt(
        #[trigger] e[i].0,
        #[trigger] e[j].0,
    ) by {
        assert(e[i].0 == b@[i].0 && e[j].0 == b@[j].0);
    }
}

} // verus!
