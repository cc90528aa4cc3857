//! Tokenizer for technical documentation.
//!
//! Token characters are ASCII letters and digits plus the keep list
//! `. - _ : / ' @ *`; every other character separates tokens. Curly quotes
//! and Latin ligatures are first normalized to ASCII. Each run of token
//! characters has its edge punctuation trimmed (but not `*` or `/`), is
//! dropped if empty or longer than 64 characters, and is otherwise indexed as
//! itself plus its underscore and CamelCase pieces, all lower-cased.

use vstd::prelude::*;
use crate::text::{ascii_lower, string_from_chars, str_chars, to_ascii_lower};

verus! {

/// Longest token kept, in characters (token characters are ASCII, so this is
/// also the length in bytes).
pub const MAX_TOKEN_LEN: usize = 64;

// ---------------------------------------------------------------------------
// Character classes
// ---------------------------------------------------------------------------

/// The characters that a curly quote or Latin ligature is replaced by; every
/// other character stands for itself.
pub open spec fn normalize_char(c: char) -> Seq<char> {
    if c == '\u{2018}' || c == '\u{2019}' {
        seq!['\'']
    } else if c == '\u{201C}' || c == '\u{201D}' {
        seq!['"']
    } else if c == '\u{FB00}' {
        seq!['f', 'f']
    } else if c == '\u{FB01}' {
        seq!['f', 'i']
    } else if c == '\u{FB02}' {
        seq!['f', 'l']
    } else if c == '\u{FB03}' {
        seq!['f', 'f', 'i']
    } else if c == '\u{FB04}' {
        seq!['f', 'f', 'l']
    } else {
        seq![c]
    }
}

pub open spec fn is_ascii_upper(c: char) -> bool {
    'A' <= c && c <= 'Z'
}

pub open spec fn is_ascii_lower_letter(c: char) -> bool {
    'a' <= c && c <= 'z'
}

pub open spec fn is_ascii_digit(c: char) -> bool {
    '0' <= c && c <= '9'
}

/// The connector characters kept inside tokens.
pub open spec fn is_keep_char(c: char) -> bool {
    c == '.' || c == '-' || c == '_' || c == ':' || c == '/' || c == '\'' || c == '@' || c == '*'
}

/// Characters that make up tokens: ASCII letters and digits, and the keep
/// list.
pub open spec fn is_token_char_spec(c: char) -> bool {
    is_ascii_upper(c) || is_ascii_lower_letter(c) || is_ascii_digit(c) || is_keep_char(c)
}

/// Keep-list characters that only count inside a token; `*` and `/` are not
/// among them.
pub open spec fn is_edge_char(c: char) -> bool {
    c == '.' || c == '-' || c == '_' || c == ':' || c == '\'' || c == '@'
}

/// Normalize curly punctuation and Latin ligatures to ASCII:
/// `Some(replacement)` for those characters, `None` for any other.
fn normalize_special(c: char) -> (res: Option<Vec<char>>)
    ensures
        res matches Some(v) ==> v@ == normalize_char(c),
        res is None ==> normalize_char(c) == seq![c],
{
    if c == '\u{2018}' || c == '\u{2019}' {
        Some(vec!['\''])
    } else if c == '\u{201C}' || c == '\u{201D}' {
        Some(vec!['"'])
    } else if c == '\u{FB00}' {
        Some(vec!['f', 'f'])
    } else if c == '\u{FB01}' {
        Some(vec!['f', 'i'])
    } else if c == '\u{FB02}' {
        Some(vec!['f', 'l'])
    } else if c == '\u{FB03}' {
        Some(vec!['f', 'f', 'i'])
    } else if c == '\u{FB04}' {
        Some(vec!['f', 'f', 'l'])
    } else {
        None
    }
}

/// Whether `c` is a token character.
fn is_token_char(c: char) -> (res: bool)
    ensures
        res == is_token_char_spec(c),
{
    ('A' <= c && c <= 'Z') || ('a' <= c && c <= 'z') || ('0' <= c && c <= '9') || c == '.' || c
        == '-' || c == '_' || c == ':' || c == '/' || c == '\'' || c == '@' || c == '*'
}

fn is_edge(c: char) -> (res: bool)
    ensures
        res == is_edge_char(c),
{
    c == '.' || c == '-' || c == '_' || c == ':' || c == '\'' || c == '@'
}

// ---------------------------------------------------------------------------
// Trimming
// ---------------------------------------------------------------------------

/// Drop leading edge characters.
pub open spec fn trim_start(s: Seq<char>) -> Seq<char>
    decreases s.len(),
{
    if s.len() > 0 && is_edge_char(s[0]) {
        trim_start(s.drop_first())
    } else {
        s
    }
}

/// Drop trailing edge characters.
pub open spec fn trim_end(s: Seq<char>) -> Seq<char>
    decreases s.len(),
{
    if s.len() > 0 && is_edge_char(s.last()) {
        trim_end(s.drop_last())
    } else {
        s
    }
}

/// A token with its edge characters trimmed from both ends.
pub open spec fn trim_edges(s: Seq<char>) -> Seq<char> {
    trim_end(trim_start(s))
}

proof fn lemma_trim_start_skip(s: Seq<char>, i: int)
    requires
        0 <= i <= s.len(),
        forall|k: int| 0 <= k < i ==> is_edge_char(#[trigger] s[k]),
    ensures
        trim_start(s) == trim_start(s.skip(i)),
    decreases i,
{
    if i > 0 {
        assert(s.skip(1) =~= s.drop_first());
        lemma_trim_start_skip(s.drop_first(), i - 1);
        assert(s.drop_first().skip(i - 1) =~= s.skip(i));
    } else {
        assert(s.skip(0) =~= s);
    }
}

proof fn lemma_trim_end_take(s: Seq<char>, j: int)
    requires
        0 <= j <= s.len(),
        forall|k: int| j <= k < s.len() ==> is_edge_char(#[trigger] s[k]),
    ensures
        trim_end(s) == trim_end(s.take(j)),
    decreases s.len() - j,
{
    if j < s.len() {
        assert(s.take(s.len() - 1) =~= s.drop_last());
        lemma_trim_end_take(s.drop_last(), j);
        assert(s.drop_last().take(j) =~= s.take(j));
    } else {
        assert(s.take(j) =~= s);
    }
}

/// Trim edge characters from both ends of a token: `cause:` becomes
/// `cause`, while `s3:Get*` and `/api` keep their `*` and `/`.
fn trim_keep_chars(token: &Vec<char>) -> (res: Vec<char>)
    ensures
        res@ == trim_edges(token@),
{
    let n = token.len();
    let mut start: usize = 0;
    while start < n && is_edge(token[start])
        invariant
            n == token@.len(),
            start <= n,
            forall|k: int| 0 <= k < start ==> is_edge_char(#[trigger] token@[k]),
        decreases n - start,
    {
        start = start + 1;
    }
    proof {
        lemma_trim_start_skip(token@, start as int);
    }
    let ghost rest = token@.skip(start as int);
    assert(start < n ==> !is_edge_char(rest[0]));
    assert(trim_start(token@) == rest) by {
        if rest.len() > 0 {
            assert(!is_edge_char(rest[0]));
        }
    }
    let mut end: usize = n;
    while end > start && is_edge(token[end - 1])
        invariant
            n == token@.len(),
            start <= end <= n,
            forall|k: int| end <= k < n ==> is_edge_char(#[trigger] token@[k]),
        decreases end - start,
    {
        end = end - 1;
    }
    proof {
        assert forall|k: int| (end - start) <= k < rest.len() implies is_edge_char(#[trigger] rest[k]) by {
            assert(rest[k] == token@[start + k]);
        }
        lemma_trim_end_take(rest, end - start);
        let r = rest.take(end - start);
        if r.len() > 0 {
            assert(r.last() == token@[end - 1]);
        }
    }
    let mut out: Vec<char> = Vec::new();
    let mut i: usize = start;
    while i < end
        invariant
            start <= i <= end <= n,
            n == token@.len(),
            out@ == token@.subrange(start as int, i as int),
        decreases end - i,
    {
        out.push(token[i]);
        i = i + 1;
        assert(out@ =~= token@.subrange(start as int, i as int));
    }
    assert(out@ =~= rest.take(end - start));
    out
}

} // verus!

verus! {

// ---------------------------------------------------------------------------
// CamelCase and underscore pieces
// ---------------------------------------------------------------------------

/// The contents of a vector of character vectors.
pub open spec fn vv(v: Seq<Vec<char>>) -> Seq<Seq<char>> {
    v.map_values(|x: Vec<char>| x@)
}

/// A CamelCase boundary before index `i`: a lower-case letter or digit
/// followed by an upper-case letter (`n|I` in `RunInstances`), or an
/// upper-case letter that ends an acronym and starts a word (`L|D` in
/// `XMLData`).
pub open spec fn is_boundary(s: Seq<char>, i: int) -> bool {
    &&& 0 < i < s.len()
    &&& ((is_ascii_lower_letter(s[i - 1]) || is_ascii_digit(s[i - 1])) && is_ascii_upper(s[i]) || (i
        + 1 < s.len() && is_ascii_upper(s[i - 1]) && is_ascii_upper(s[i]) && is_ascii_lower_letter(
        s[i + 1],
    )))
}

/// The pieces of `s` from index `i` on, `cur` being the piece built so far:
/// a new piece starts at each boundary.
pub open spec fn camel_pieces(s: Seq<char>, i: int, cur: Seq<char>) -> Seq<Seq<char>>
    decreases s.len() - i,
{
    if i < 0 || i >= s.len() {
        if cur.len() > 0 {
            seq![cur]
        } else {
            seq![]
        }
    } else if is_boundary(s, i) && cur.len() > 0 {
        seq![cur] + camel_pieces(s, i + 1, seq![s[i]])
    } else {
        camel_pieces(s, i + 1, cur.push(s[i]))
    }
}

/// The CamelCase pieces of `s`, or none where `s` has no boundary.
pub open spec fn camel_split(s: Seq<char>) -> Seq<Seq<char>> {
    let p = camel_pieces(s, 0, seq![]);
    if p.len() > 1 {
        p
    } else {
        seq![]
    }
}

fn boundary_at(s: &Vec<char>, i: usize) -> (res: bool)
    requires
        0 < i < s@.len(),
    ensures
        res == is_boundary(s@, i as int),
{
    let p = s[i - 1];
    let c = s[i];
    let lower_to_upper = (('a' <= p && p <= 'z') || ('0' <= p && p <= '9')) && ('A' <= c && c
        <= 'Z');
    let acronym_end = i < s.len() - 1 && ('A' <= p && p <= 'Z') && ('A' <= c && c <= 'Z') && (
    'a' <= s[i + 1] && s[i + 1] <= 'z');
    lower_to_upper || acronym_end
}

/// Split a string on CamelCase boundaries. Returns the pieces only if a
/// split occurred; otherwise none (the caller keeps the whole string).
/// `RunInstances` gives `Run`, `Instances`; `getXMLData` gives `get`, `XML`,
/// `Data`; `API` and `bucket` give nothing.
fn camelcase_split(s: &Vec<char>) -> (res: Vec<Vec<char>>)
    ensures
        vv(res@) == camel_split(s@),
{
    let ghost total = camel_pieces(s@, 0, seq![]);
    let mut result: Vec<Vec<char>> = Vec::new();
    let mut current: Vec<char> = Vec::new();
    let mut i: usize = 0;
    assert(vv(result@) + total =~= total);
    while i < s.len()
        invariant
            i <= s@.len(),
            total == camel_pieces(s@, 0, seq![]),
            vv(result@) + camel_pieces(s@, i as int, current@) == total,
            i > 0 ==> current@.len() > 0,
        decreases s@.len() - i,
    {
        let c = s[i];
        let b = i > 0 && boundary_at(s, i);
        let ghost before = vv(result@);
        if b && current.len() > 0 {
            result.push(current);
            current = Vec::new();
            current.push(c);
            assert(vv(result@) =~= before + seq![vv(result@).last()]);
            assert(vv(result@) + camel_pieces(s@, i + 1, current@) =~= before + camel_pieces(
                s@,
                i as int,
                vv(result@).last(),
            ));
        } else {
            current.push(c);
        }
        i = i + 1;
    }
    let ghost before = vv(result@);
    if current.len() > 0 {
        result.push(current);
        assert(vv(result@) =~= before + camel_pieces(s@, i as int, vv(result@).last()));
    } else {
        assert(vv(result@) =~= before + camel_pieces(s@, i as int, seq![]));
    }
    if result.len() > 1 {
        result
    } else {
        let empty: Vec<Vec<char>> = Vec::new();
        assert(vv(empty@) =~= Seq::<Seq<char>>::empty());
        empty
    }
}

} // verus!

verus! {

/// The non-empty pieces of `s` between underscores, from index `i` on, `cur`
/// being the piece built so far.
pub open spec fn underscore_parts(s: Seq<char>, i: int, cur: Seq<char>) -> Seq<Seq<char>>
    decreases s.len() - i,
{
    if i < 0 || i >= s.len() {
        if cur.len() > 0 {
            seq![cur]
        } else {
            seq![]
        }
    } else if s[i] == '_' {
        (if cur.len() > 0 {
            seq![cur]
        } else {
            seq![]
        }) + underscore_parts(s, i + 1, seq![])
    } else {
        underscore_parts(s, i + 1, cur.push(s[i]))
    }
}

/// The non-empty pieces of `s` between underscores.
pub open spec fn parts_of(s: Seq<char>) -> Seq<Seq<char>> {
    underscore_parts(s, 0, seq![])
}

/// Splitting on underscores changed something.
pub open spec fn underscore_changed(s: Seq<char>) -> bool {
    let p = parts_of(s);
    p.len() > 1 || (p.len() == 1 && p[0] != s)
}

/// For each part: the part itself where the underscore split changed
/// something, then its CamelCase pieces.
pub open spec fn part_pieces(parts: Seq<Seq<char>>, changed: bool) -> Seq<Seq<char>>
    decreases parts.len(),
{
    if parts.len() == 0 {
        seq![]
    } else {
        (if changed {
            seq![parts[0]]
        } else {
            seq![]
        }) + camel_split(parts[0]) + part_pieces(parts.drop_first(), changed)
    }
}

/// A token followed by its underscore and CamelCase pieces.
pub open spec fn compound_pieces(s: Seq<char>) -> Seq<Seq<char>> {
    seq![s] + part_pieces(parts_of(s), underscore_changed(s))
}

fn copy_chars(s: &Vec<char>) -> (res: Vec<char>)
    ensures
        res@ == s@,
{
    vstd::slice::slice_to_vec(s.as_slice())
}

/// The non-empty pieces of `s` between underscores.
fn split_underscores(s: &Vec<char>) -> (res: Vec<Vec<char>>)
    ensures
        vv(res@) == parts_of(s@),
{
    let ghost total = parts_of(s@);
    let mut result: Vec<Vec<char>> = Vec::new();
    let mut current: Vec<char> = Vec::new();
    let mut i: usize = 0;
    assert(vv(result@) + total =~= total);
    while i < s.len()
        invariant
            i <= s@.len(),
            total == parts_of(s@),
            vv(result@) + underscore_parts(s@, i as int, current@) == total,
        decreases s@.len() - i,
    {
        let c = s[i];
        let ghost before = vv(result@);
        if c == '_' {
            if current.len() > 0 {
                result.push(current);
                current = Vec::new();
                assert(vv(result@) + underscore_parts(s@, i + 1, current@) =~= before
                    + underscore_parts(s@, i as int, vv(result@).last()));
            } else {
                assert(underscore_parts(s@, i as int, current@) == Seq::<Seq<char>>::empty()
                    + underscore_parts(s@, i + 1, Seq::<char>::empty()));
                assert(current@ =~= Seq::<char>::empty());
                assert(vv(result@) + underscore_parts(s@, i + 1, current@) =~= before
                    + underscore_parts(s@, i as int, current@));
            }
        } else {
            current.push(c);
        }
        i = i + 1;
    }
    let ghost before = vv(result@);
    if current.len() > 0 {
        result.push(current);
        assert(vv(result@) =~= before + underscore_parts(s@, i as int, vv(result@).last()));
    } else {
        assert(vv(result@) =~= before + underscore_parts(s@, i as int, seq![]));
    }
    result
}

proof fn lemma_part_pieces_unfold(parts: Seq<Seq<char>>, k: int, changed: bool)
    requires
        0 <= k < parts.len(),
    ensures
        part_pieces(parts.skip(k), changed) == (if changed {
            seq![parts[k]]
        } else {
            seq![]
        }) + camel_split(parts[k]) + part_pieces(parts.skip(k + 1), changed),
{
    assert(parts.skip(k).drop_first() =~= parts.skip(k + 1));
    assert(parts.skip(k)[0] == parts[k]);
}

/// Split a token on underscores and CamelCase: the token itself, then for
/// each non-empty underscore part the part (if the underscore split changed
/// anything) and its CamelCase pieces. `API_RunInstances` gives
/// `API_RunInstances`, `API`, `RunInstances`, `Run`, `Instances`.
fn split_compound(token: &Vec<char>) -> (res: Vec<Vec<char>>)
    ensures
        vv(res@) == compound_pieces(token@),
{
    let mut pieces: Vec<Vec<char>> = Vec::new();
    pieces.push(copy_chars(token));
    let parts = split_underscores(token);
    let ghost ps = vv(parts@);
    let changed = parts.len() > 1 || (parts.len() == 1 && !crate::text::chars_equal(&parts[0], token));
    assert(changed == underscore_changed(token@)) by {
        if parts@.len() == 1 {
            assert(ps[0] == parts@[0]@);
        }
    }
    let mut k: usize = 0;
    assert(ps.skip(0) =~= ps);
    assert(vv(pieces@) =~= seq![token@]);
    while k < parts.len()
        invariant
            ps == vv(parts@),
            ps == parts_of(token@),
            changed == underscore_changed(token@),
            k <= parts@.len(),
            vv(pieces@) + part_pieces(ps.skip(k as int), changed) == compound_pieces(token@),
        decreases parts@.len() - k,
    {
        let part = &parts[k];
        proof {
            lemma_part_pieces_unfold(ps, k as int, changed);
        }
        let ghost before = vv(pieces@);
        if changed {
            pieces.push(copy_chars(part));
        }
        let ghost mid = vv(pieces@);
        assert(mid =~= before + (if changed {
            seq![ps[k as int]]
        } else {
            seq![]
        }));
        let mut camel = camelcase_split(part);
        let ghost cv = vv(camel@);
        pieces.append(&mut camel);
        assert(vv(pieces@) =~= mid + cv);
        assert(vv(pieces@) + part_pieces(ps.skip(k + 1), changed) =~= before + part_pieces(
            ps.skip(k as int),
            changed,
        ));
        k = k + 1;
    }
    assert(part_pieces(ps.skip(k as int), changed) =~= Seq::<Seq<char>>::empty());
    assert(vv(pieces@) =~= compound_pieces(token@));
    pieces
}

} // verus!

verus! {

// ---------------------------------------------------------------------------
// Tokens
// ---------------------------------------------------------------------------

/// The contents of a vector of strings.
pub open spec fn strs(v: Seq<String>) -> Seq<Seq<char>> {
    v.map_values(|s: String| s@)
}

/// ASCII lower-casing of every character.
pub open spec fn lower_seq(s: Seq<char>) -> Seq<char> {
    s.map_values(|c: char| ascii_lower(c))
}

/// Lower-case each piece, keeping those of 1 to 64 characters.
pub open spec fn keep_tokens(ps: Seq<Seq<char>>) -> Seq<Seq<char>>
    decreases ps.len(),
{
    if ps.len() == 0 {
        seq![]
    } else {
        let l = lower_seq(ps[0]);
        (if l.len() > 0 && l.len() <= 64 {
            seq![l]
        } else {
            seq![]
        }) + keep_tokens(ps.drop_first())
    }
}

/// The tokens that one run of token characters yields: none if its trimmed
/// form is empty or longer than 64 characters, else the lower-cased token
/// and its pieces.
pub open spec fn emit(run: Seq<char>) -> Seq<Seq<char>> {
    let t = trim_edges(run);
    if t.len() == 0 || t.len() > 64 {
        seq![]
    } else {
        keep_tokens(compound_pieces(t))
    }
}

/// The tokens of `cs`, `cur` being the run of token characters read just
/// before it: each non-token character ends the current run.
pub open spec fn scan(cs: Seq<char>, cur: Seq<char>) -> Seq<Seq<char>>
    decreases cs.len(),
{
    if cs.len() == 0 {
        emit(cur)
    } else if is_token_char_spec(cs[0]) {
        scan(cs.drop_first(), cur.push(cs[0]))
    } else {
        emit(cur) + scan(cs.drop_first(), seq![])
    }
}

/// The text with curly quotes and ligatures replaced.
pub open spec fn normalize_all(cs: Seq<char>) -> Seq<char>
    decreases cs.len(),
{
    if cs.len() == 0 {
        seq![]
    } else {
        normalize_char(cs[0]) + normalize_all(cs.drop_first())
    }
}

/// The tokens of a text, in order.
pub open spec fn tokenize(text: Seq<char>) -> Seq<Seq<char>> {
    scan(normalize_all(text), seq![])
}

fn lower_chars(s: &Vec<char>) -> (res: Vec<char>)
    ensures
        res@ == lower_seq(s@),
{
    let mut out: Vec<char> = Vec::new();
    let mut i: usize = 0;
    while i < s.len()
        invariant
            i <= s@.len(),
            out@ == lower_seq(s@.take(i as int)),
        decreases s@.len() - i,
    {
        out.push(to_ascii_lower(s[i]));
        i = i + 1;
        assert(out@ =~= lower_seq(s@.take(i as int)));
    }
    assert(s@.take(i as int) =~= s@);
    out
}

proof fn lemma_keep_tokens_unfold(ps: Seq<Seq<char>>, k: int)
    requires
        0 <= k < ps.len(),
    ensures
        keep_tokens(ps.skip(k)) == (if lower_seq(ps[k]).len() > 0 && lower_seq(ps[k]).len() <= 64 {
            seq![lower_seq(ps[k])]
        } else {
            seq![]
        }) + keep_tokens(ps.skip(k + 1)),
{
    assert(ps.skip(k).drop_first() =~= ps.skip(k + 1));
    assert(ps.skip(k)[0] == ps[k]);
}

/// Process one run of token characters: trim it, drop it if empty or too
/// long, else append the lower-cased token and its pieces to `tokens`.
fn emit_run(run: &Vec<char>, tokens: &mut Vec<String>)
    ensures
        strs(final(tokens)@) == strs(old(tokens)@) + emit(run@),
{
    let trimmed = trim_keep_chars(run);
    if trimmed.len() == 0 || trimmed.len() > MAX_TOKEN_LEN {
        assert(strs(tokens@) =~= strs(old(tokens)@) + emit(run@));
        return;
    }
    let pieces = split_compound(&trimmed);
    let ghost ps = vv(pieces@);
    let mut k: usize = 0;
    assert(ps.skip(0) =~= ps);
    assert(strs(tokens@) + keep_tokens(ps.skip(0)) =~= strs(old(tokens)@) + emit(run@));
    while k < pieces.len()
        invariant
            ps == vv(pieces@),
            ps == compound_pieces(trim_edges(run@)),
            k <= pieces@.len(),
            strs(tokens@) + keep_tokens(ps.skip(k as int)) == strs(old(tokens)@) + emit(run@),
        decreases pieces@.len() - k,
    {
        proof {
            lemma_keep_tokens_unfold(ps, k as int);
        }
        let lower = lower_chars(&pieces[k]);
        let ghost before = strs(tokens@);
        if lower.len() > 0 && lower.len() <= MAX_TOKEN_LEN {
            tokens.push(string_from_chars(lower.as_slice()));
            assert(strs(tokens@) =~= before.push(lower@));
        }
        assert(strs(tokens@) + keep_tokens(ps.skip(k + 1)) =~= before + keep_tokens(
            ps.skip(k as int),
        ));
        k = k + 1;
    }
    assert(keep_tokens(ps.skip(k as int)) =~= Seq::<Seq<char>>::empty());
    assert(strs(tokens@) =~= strs(old(tokens)@) + emit(run@));
}

fn normalize_text(text: &Vec<char>) -> (res: Vec<char>)
    ensures
        res@ == normalize_all(text@),
{
    let mut out: Vec<char> = Vec::new();
    let mut i: usize = 0;
    assert(text@.skip(0) =~= text@);
    assert(out@ + normalize_all(text@.skip(0)) =~= normalize_all(text@));
    while i < text.len()
        invariant
            i <= text@.len(),
            out@ + normalize_all(text@.skip(i as int)) == normalize_all(text@),
        decreases text@.len() - i,
    {
        let c = text[i];
        proof {
            assert(text@.skip(i as int).drop_first() =~= text@.skip(i + 1));
            assert(text@.skip(i as int)[0] == c);
        }
        let ghost before = out@;
        match normalize_special(c) {
            Some(rep) => {
                let mut j: usize = 0;
                while j < rep.len()
                    invariant
                        j <= rep@.len(),
                        out@ == before + rep@.take(j as int),
                    decreases rep@.len() - j,
                {
                    out.push(rep[j]);
                    j = j + 1;
                    assert(out@ =~= before + rep@.take(j as int));
                }
                assert(rep@.take(j as int) =~= rep@);
            },
            None => {
                out.push(c);
            },
        }
        assert(out@ + normalize_all(text@.skip(i + 1)) =~= before + normalize_all(
            text@.skip(i as int),
        ));
        i = i + 1;
    }
    assert(normalize_all(text@.skip(i as int)) =~= Seq::<char>::empty());
    assert(out@ =~= normalize_all(text@));
    out
}

/// Tokenize a document into a flat list of lower-cased terms, in text order
/// (see the module documentation for the rules).
pub fn split_string(content: String) -> (res: Vec<String>)
    ensures
        strs(res@) == tokenize(content@),
{
    let raw = str_chars(content.as_str());
    let cs = normalize_text(&raw);
    let ghost total = tokenize(content@);
    let mut tokens: Vec<String> = Vec::new();
    let mut current: Vec<char> = Vec::new();
    let mut i: usize = 0;
    assert(cs@.skip(0) =~= cs@);
    assert(strs(tokens@) + scan(cs@.skip(0), current@) =~= total);
    while i < cs.len()
        invariant
            i <= cs@.len(),
            total == tokenize(content@),
            cs@ == normalize_all(content@),
            strs(tokens@) + scan(cs@.skip(i as int), current@) == total,
        decreases cs@.len() - i,
    {
        let c = cs[i];
        proof {
            assert(cs@.skip(i as int).drop_first() =~= cs@.skip(i + 1));
            assert(cs@.skip(i as int)[0] == c);
        }
        let ghost before = strs(tokens@);
        if is_token_char(c) {
            current.push(c);
        } else {
            let ghost cur = current@;
            emit_run(&current, &mut tokens);
            current = Vec::new();
            assert(strs(tokens@) + scan(cs@.skip(i + 1), current@) =~= before + scan(
                cs@.skip(i as int),
                cur,
            ));
        }
        i = i + 1;
    }
    let ghost before = strs(tokens@);
    emit_run(&current, &mut tokens);
    assert(cs@.skip(i as int) =~= Seq::<char>::empty());
    assert(strs(tokens@) =~= total);
    tokens
}

} // verus!

verus! {

// ---------------------------------------------------------------------------
// Tokens grouped by the run they come from
// ---------------------------------------------------------------------------

/// The contents of a vector of token groups.
pub open spec fn groups_view(v: Seq<Vec<String>>) -> Seq<Seq<Seq<char>>> {
    v.map_values(|g: Vec<String>| strs(g@))
}

/// One group per run of token characters that yields tokens: the token
/// followed by its pieces.
pub open spec fn scan_groups(cs: Seq<char>, cur: Seq<char>) -> Seq<Seq<Seq<char>>>
    decreases cs.len(),
{
    if cs.len() == 0 {
        if emit(cur).len() > 0 {
            seq![emit(cur)]
        } else {
            seq![]
        }
    } else if is_token_char_spec(cs[0]) {
        scan_groups(cs.drop_first(), cur.push(cs[0]))
    } else {
        (if emit(cur).len() > 0 {
            seq![emit(cur)]
        } else {
            seq![]
        }) + scan_groups(cs.drop_first(), seq![])
    }
}

/// The token groups of a text, in order: each group is a compound token
/// followed by its pieces, which all stand at the same position.
pub open spec fn tokenize_groups(text: Seq<char>) -> Seq<Seq<Seq<char>>> {
    scan_groups(normalize_all(text), seq![])
}

/// All tokens of the groups, in order.
pub open spec fn flatten_groups(g: Seq<Seq<Seq<char>>>) -> Seq<Seq<char>>
    decreases g.len(),
{
    if g.len() == 0 {
        seq![]
    } else {
        g[0] + flatten_groups(g.drop_first())
    }
}

proof fn lemma_flatten_concat(a: Seq<Seq<Seq<char>>>, b: Seq<Seq<Seq<char>>>)
    ensures
        flatten_groups(a + b) == flatten_groups(a) + flatten_groups(b),
    decreases a.len(),
{
    if a.len() == 0 {
        assert(a + b =~= b);
        assert(flatten_groups(a) + flatten_groups(b) =~= flatten_groups(b));
    } else {
        assert((a + b).drop_first() =~= a.drop_first() + b);
        lemma_flatten_concat(a.drop_first(), b);
        assert(flatten_groups(a + b) =~= flatten_groups(a) + flatten_groups(b));
    }
}

proof fn lemma_flatten_group(x: Seq<Seq<char>>)
    ensures
        flatten_groups(if x.len() > 0 {
            seq![x]
        } else {
            seq![]
        }) == x,
{
    if x.len() > 0 {
        let g = seq![x];
        assert(g[0] == x);
        assert(g.drop_first() =~= Seq::<Seq<Seq<char>>>::empty());
        assert(flatten_groups(g.drop_first()) == Seq::<Seq<char>>::empty());
        assert(flatten_groups(g) == x + flatten_groups(g.drop_first()));
        assert(x + Seq::<Seq<char>>::empty() =~= x);
    } else {
        let g = Seq::<Seq<Seq<char>>>::empty();
        assert(flatten_groups(g) == Seq::<Seq<char>>::empty());
        assert(x =~= Seq::<Seq<char>>::empty());
    }
}

proof fn lemma_scan_groups_flatten(cs: Seq<char>, cur: Seq<char>)
    ensures
        flatten_groups(scan_groups(cs, cur)) == scan(cs, cur),
    decreases cs.len(),
{
    if cs.len() == 0 {
        lemma_flatten_group(emit(cur));
    } else if is_token_char_spec(cs[0]) {
        lemma_scan_groups_flatten(cs.drop_first(), cur.push(cs[0]));
    } else {
        let g = if emit(cur).len() > 0 {
            seq![emit(cur)]
        } else {
            seq![]
        };
        lemma_scan_groups_flatten(cs.drop_first(), seq![]);
        lemma_flatten_concat(g, scan_groups(cs.drop_first(), seq![]));
        lemma_flatten_group(emit(cur));
    }
}

/// The tokens of a text are its token groups laid end to end.
pub proof fn lemma_groups_flatten_to_tokens(text: Seq<char>)
    ensures
        flatten_groups(tokenize_groups(text)) == tokenize(text),
{
    lemma_scan_groups_flatten(normalize_all(text), seq![]);
}

fn push_group(run: &Vec<char>, groups: &mut Vec<Vec<String>>)
    ensures
        groups_view(final(groups)@) == groups_view(old(groups)@) + (if emit(run@).len() > 0 {
            seq![emit(run@)]
        } else {
            seq![]
        }),
{
    let mut g: Vec<String> = Vec::new();
    emit_run(run, &mut g);
    assert(strs(g@) =~= emit(run@));
    let ghost before = groups_view(groups@);
    if g.len() > 0 {
        groups.push(g);
        assert(groups_view(groups@) =~= before + seq![emit(run@)]);
    } else {
        assert(groups_view(groups@) =~= before + Seq::<Seq<Seq<char>>>::empty());
    }
}

/// Tokenize a document into groups: each run of token characters that
/// yields tokens gives one group, the lower-cased token followed by its
/// underscore and CamelCase pieces. Laid end to end the groups are exactly
/// the tokens of `split_string`.
pub fn split_string_groups(content: String) -> (res: Vec<Vec<String>>)
    ensures
        groups_view(res@) == tokenize_groups(content@),
        flatten_groups(groups_view(res@)) == tokenize(content@),
{
    let raw = str_chars(content.as_str());
    let cs = normalize_text(&raw);
    let ghost total = tokenize_groups(content@);
    let mut groups: Vec<Vec<String>> = Vec::new();
    let mut current: Vec<char> = Vec::new();
    let mut i: usize = 0;
    assert(cs@.skip(0) =~= cs@);
    assert(groups_view(groups@) + scan_groups(cs@.skip(0), current@) =~= total);
    while i < cs.len()
        invariant
            i <= cs@.len(),
            total == tokenize_groups(content@),
            cs@ == normalize_all(content@),
            groups_view(groups@) + scan_groups(cs@.skip(i as int), current@) == total,
        decreases cs@.len() - i,
    {
        let c = cs[i];
        proof {
            assert(cs@.skip(i as int).drop_first() =~= cs@.skip(i + 1));
            assert(cs@.skip(i as int)[0] == c);
        }
        let ghost before = groups_view(groups@);
        if is_token_char(c) {
            current.push(c);
        } else {
            let ghost cur = current@;
            push_group(&current, &mut groups);
            current = Vec::new();
            assert(groups_view(groups@) + scan_groups(cs@.skip(i + 1), current@) =~= before
                + scan_groups(cs@.skip(i as int), cur));
        }
        i = i + 1;
    }
    push_group(&current, &mut groups);
    assert(cs@.skip(i as int) =~= Seq::<char>::empty());
    assert(groups_view(groups@) =~= total);
    proof {
        lemma_groups_flatten_to_tokens(content@);
    }
    groups
}

/// Every character of `s` is a token character.
pub open spec fn all_token_chars(s: Seq<char>) -> bool {
    forall|k: int| 0 <= k < s.len() ==> is_token_char_spec(#[trigger] s[k])
}

/// Every piece consists of token characters.
pub open spec fn all_pieces_token_chars(ps: Seq<Seq<char>>) -> bool {
    forall|k: int| 0 <= k < ps.len() ==> all_token_chars(#[trigger] ps[k])
}

/// A well-shaped token: 1 to 64 characters, each a lower-case ASCII letter,
/// a digit or one of `. - _ : / ' @ *`.
pub open spec fn token_shape(t: Seq<char>) -> bool {
    &&& 1 <= t.len() <= MAX_TOKEN_LEN
    &&& all_token_chars(t)
    &&& forall|k: int| 0 <= k < t.len() ==> !is_ascii_upper(#[trigger] t[k])
}

proof fn lemma_trim_keeps_chars(s: Seq<char>)
    requires
        all_token_chars(s),
    ensures
        all_token_chars(trim_start(s)),
        all_token_chars(trim_end(s)),
        all_token_chars(trim_edges(s)),
    decreases s.len(),
{
    if s.len() > 0 {
        lemma_trim_keeps_chars(s.drop_first());
        lemma_trim_keeps_chars(s.drop_last());
        lemma_trim_end_keeps(trim_start(s));
    }
}

proof fn lemma_trim_end_keeps(s: Seq<char>)
    requires
        all_token_chars(s),
    ensures
        all_token_chars(trim_end(s)),
    decreases s.len(),
{
    if s.len() > 0 {
        lemma_trim_end_keeps(s.drop_last());
    }
}

proof fn lemma_camel_pieces_chars(s: Seq<char>, i: int, cur: Seq<char>)
    requires
        all_token_chars(s),
        all_token_chars(cur),
    ensures
        all_pieces_token_chars(camel_pieces(s, i, cur)),
    decreases s.len() - i,
{
    if i < 0 || i >= s.len() {
    } else if is_boundary(s, i) && cur.len() > 0 {
        lemma_camel_pieces_chars(s, i + 1, seq![s[i]]);
        let r = camel_pieces(s, i + 1, seq![s[i]]);
        assert forall|k: int| 0 <= k < (seq![cur] + r).len() implies all_token_chars(
            #[trigger] (seq![cur] + r)[k],
        ) by {
            if k > 0 {
                assert((seq![cur] + r)[k] == r[k - 1]);
            }
        }
    } else {
        lemma_camel_pieces_chars(s, i + 1, cur.push(s[i]));
    }
}

proof fn lemma_underscore_parts_chars(s: Seq<char>, i: int, cur: Seq<char>)
    requires
        all_token_chars(s),
        all_token_chars(cur),
    ensures
        all_pieces_token_chars(underscore_parts(s, i, cur)),
    decreases s.len() - i,
{
    if i < 0 || i >= s.len() {
    } else if s[i] == '_' {
        lemma_underscore_parts_chars(s, i + 1, seq![]);
        let a: Seq<Seq<char>> = if cur.len() > 0 {
            seq![cur]
        } else {
            seq![]
        };
        let r = underscore_parts(s, i + 1, seq![]);
        assert forall|k: int| 0 <= k < (a + r).len() implies all_token_chars(#[trigger] (a + r)[k]) by {
            if k >= a.len() {
                assert((a + r)[k] == r[k - a.len()]);
            }
        }
    } else {
        lemma_underscore_parts_chars(s, i + 1, cur.push(s[i]));
    }
}

proof fn lemma_part_pieces_chars(parts: Seq<Seq<char>>, changed: bool)
    requires
        all_pieces_token_chars(parts),
    ensures
        all_pieces_token_chars(part_pieces(parts, changed)),
    decreases parts.len(),
{
    if parts.len() > 0 {
        let rest = parts.drop_first();
        assert(all_pieces_token_chars(rest)) by {
            assert forall|k: int| 0 <= k < rest.len() implies all_token_chars(#[trigger] rest[k]) by {
                assert(rest[k] == parts[k + 1]);
            }
        }
        lemma_part_pieces_chars(rest, changed);
        assert(all_token_chars(parts[0]));
        lemma_camel_pieces_chars(parts[0], 0, seq![]);
        let a: Seq<Seq<char>> = if changed {
            seq![parts[0]]
        } else {
            seq![]
        };
        let b = camel_split(parts[0]);
        let c = part_pieces(rest, changed);
        assert forall|k: int| 0 <= k < (a + b + c).len() implies all_token_chars(
            #[trigger] (a + b + c)[k],
        ) by {
            if k < a.len() {
            } else if k < a.len() + b.len() {
                assert((a + b + c)[k] == b[k - a.len()]);
            } else {
                assert((a + b + c)[k] == c[k - a.len() - b.len()]);
            }
        }
    }
}

proof fn lemma_keep_tokens_shape(ps: Seq<Seq<char>>)
    requires
        all_pieces_token_chars(ps),
    ensures
        forall|k: int| 0 <= k < keep_tokens(ps).len() ==> token_shape(#[trigger] keep_tokens(ps)[k]),
    decreases ps.len(),
{
    if ps.len() > 0 {
        let rest = ps.drop_first();
        assert(all_pieces_token_chars(rest)) by {
            assert forall|k: int| 0 <= k < rest.len() implies all_token_chars(#[trigger] rest[k]) by {
                assert(rest[k] == ps[k + 1]);
            }
        }
        lemma_keep_tokens_shape(rest);
        let l = lower_seq(ps[0]);
        assert(all_token_chars(ps[0]));
        let a: Seq<Seq<char>> = if l.len() > 0 && l.len() <= 64 {
            seq![l]
        } else {
            seq![]
        };
        let r = keep_tokens(rest);
        assert(keep_tokens(ps) == a + r);
        assert forall|k: int| 0 <= k < (a + r).len() implies token_shape(#[trigger] (a + r)[k]) by {
            if k < a.len() {
                assert forall|j: int| 0 <= j < l.len() implies is_token_char_spec(#[trigger] l[j])
                    && !is_ascii_upper(l[j]) by {
                    assert(l[j] == ascii_lower(ps[0][j]));
                    assert(is_token_char_spec(ps[0][j]));
                }
            } else {
                assert((a + r)[k] == r[k - a.len()]);
            }
        }
    }
}

proof fn lemma_emit_shape(run: Seq<char>)
    requires
        all_token_chars(run),
    ensures
        forall|k: int| 0 <= k < emit(run).len() ==> token_shape(#[trigger] emit(run)[k]),
{
    let t = trim_edges(run);
    if !(t.len() == 0 || t.len() > 64) {
        lemma_trim_keeps_chars(run);
        lemma_underscore_parts_chars(t, 0, seq![]);
        lemma_part_pieces_chars(parts_of(t), underscore_changed(t));
        let ps = compound_pieces(t);
        let r = part_pieces(parts_of(t), underscore_changed(t));
        assert forall|k: int| 0 <= k < ps.len() implies all_token_chars(#[trigger] ps[k]) by {
            if k > 0 {
                assert(ps[k] == r[k - 1]);
            }
        }
        lemma_keep_tokens_shape(ps);
    }
}

proof fn lemma_scan_shape(cs: Seq<char>, cur: Seq<char>)
    requires
        all_token_chars(cur),
    ensures
        forall|k: int| 0 <= k < scan(cs, cur).len() ==> token_shape(#[trigger] scan(cs, cur)[k]),
    decreases cs.len(),
{
    if cs.len() == 0 {
        lemma_emit_shape(cur);
    } else if is_token_char_spec(cs[0]) {
        let c2 = cur.push(cs[0]);
        assert forall|k: int| 0 <= k < c2.len() implies is_token_char_spec(#[trigger] c2[k]) by {
            if k < cur.len() {
                assert(c2[k] == cur[k]);
            }
        }
        lemma_scan_shape(cs.drop_first(), c2);
        assert(scan(cs, cur) == scan(cs.drop_first(), c2));
    } else {
        lemma_emit_shape(cur);
        lemma_scan_shape(cs.drop_first(), seq![]);
        let a = emit(cur);
        let r = scan(cs.drop_first(), seq![]);
        assert(scan(cs, cur) == a + r);
        assert forall|k: int| 0 <= k < (a + r).len() implies token_shape(#[trigger] (a + r)[k]) by {
            if k >= a.len() {
                assert((a + r)[k] == r[k - a.len()]);
            }
        }
    }
}

/// Every token has 1 to 64 characters, each a lower-case ASCII letter, a
/// digit or one of the kept connectors `. - _ : / ' @ *`.
pub proof fn lemma_tokens_shape(text: Seq<char>)
    ensures
        forall|k: int| 0 <= k < tokenize(text).len() ==> token_shape(#[trigger] tokenize(text)[k]),
{
    lemma_scan_shape(normalize_all(text), seq![]);
}

/// The pieces laid end to end.
pub open spec fn joined(ps: Seq<Seq<char>>) -> Seq<char>
    decreases ps.len(),
{
    if ps.len() == 0 {
        seq![]
    } else {
        ps[0] + joined(ps.drop_first())
    }
}

proof fn lemma_joined_prepend(x: Seq<char>, r: Seq<Seq<char>>, j: int)
    requires
        0 <= j <= r.len(),
    ensures
        joined(seq![x] + r) == x + joined(r),
        joined((seq![x] + r).take(j + 1)) == x + joined(r.take(j)),
{
    assert((seq![x] + r).drop_first() =~= r);
    assert((seq![x] + r).take(j + 1).drop_first() =~= r.take(j));
    assert((seq![x] + r).take(j + 1)[0] == x);
}

proof fn lemma_camel_pieces_joined(s: Seq<char>, i: int, cur: Seq<char>)
    requires
        0 <= i <= s.len(),
    ensures
        joined(camel_pieces(s, i, cur)) == cur + s.skip(i),
    decreases s.len() - i,
{
    if i >= s.len() {
        assert(s.skip(i) =~= Seq::<char>::empty());
        if cur.len() > 0 {
            assert(seq![cur].drop_first() =~= Seq::<Seq<char>>::empty());
            assert(joined(seq![cur]) == cur + joined(Seq::<Seq<char>>::empty()));
            assert(cur + Seq::<char>::empty() =~= cur);
        } else {
            assert(cur =~= Seq::<char>::empty());
        }
        assert(cur + s.skip(i) =~= cur);
    } else if is_boundary(s, i) && cur.len() > 0 {
        lemma_camel_pieces_joined(s, i + 1, seq![s[i]]);
        lemma_joined_prepend(cur, camel_pieces(s, i + 1, seq![s[i]]), 0);
        assert(cur + (seq![s[i]] + s.skip(i + 1)) =~= cur + s.skip(i));
    } else {
        lemma_camel_pieces_joined(s, i + 1, cur.push(s[i]));
        assert(cur.push(s[i]) + s.skip(i + 1) =~= cur + s.skip(i));
    }
}

proof fn lemma_camel_pieces_cut(s: Seq<char>, i: int, cur: Seq<char>, b: int)
    requires
        0 <= i <= b < s.len(),
        is_boundary(s, b),
        b > i || cur.len() > 0,
    ensures
        exists|j: int|
            0 <= j <= camel_pieces(s, i, cur).len() && #[trigger] joined(camel_pieces(s, i, cur).take(j)).len()
                == cur.len() + (b - i),
    decreases s.len() - i,
{
    let p = camel_pieces(s, i, cur);
    if is_boundary(s, i) && cur.len() > 0 {
        let r = camel_pieces(s, i + 1, seq![s[i]]);
        if b == i {
            lemma_joined_prepend(cur, r, 0);
            assert(r.take(0) =~= Seq::<Seq<char>>::empty());
            assert(joined(p.take(1)).len() == cur.len() + (b - i));
        } else {
            lemma_camel_pieces_cut(s, i + 1, seq![s[i]], b);
            let j = choose|j: int| 0 <= j <= r.len() && #[trigger] joined(r.take(j)).len() == 1 + (b - i - 1);
            lemma_joined_prepend(cur, r, j);
            assert(joined(p.take(j + 1)).len() == cur.len() + (b - i));
        }
    } else {
        lemma_camel_pieces_cut(s, i + 1, cur.push(s[i]), b);
    }
}

/// CamelCase splitting cuts a token into pieces that lay end to end give it
/// back, and cuts it before every upper-case letter that follows a
/// lower-case letter or a digit, and before every upper-case letter that
/// ends an acronym and starts a word (an upper-case letter before it, a
/// lower-case letter after it).
pub proof fn lemma_camel_split_cuts(s: Seq<char>, b: int)
    requires
        0 < b < s.len(),
        ((is_ascii_lower_letter(s[b - 1]) || is_ascii_digit(s[b - 1])) && is_ascii_upper(s[b])) || (b + 1
            < s.len() && is_ascii_upper(s[b - 1]) && is_ascii_upper(s[b]) && is_ascii_lower_letter(s[b + 1])),
    ensures
        joined(camel_split(s)) == s,
        exists|j: int|
            0 < j < camel_split(s).len() && #[trigger] joined(camel_split(s).take(j)).len() == b,
{
    let p = camel_pieces(s, 0, seq![]);
    lemma_camel_pieces_joined(s, 0, seq![]);
    assert(Seq::<char>::empty() + s.skip(0) =~= s);
    lemma_camel_pieces_cut(s, 0, seq![], b);
    let j = choose|j: int| 0 <= j <= p.len() && #[trigger] joined(p.take(j)).len() == 0 + (b - 0);
    if j == 0 {
        assert(p.take(0) =~= Seq::<Seq<char>>::empty());
    }
    if j == p.len() {
        assert(p.take(j) =~= p);
    }
    assert(p.len() > 1);
}

} // verus!
