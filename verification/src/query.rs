//! Query preparation: the typed line split into lower-cased words, then
//! every word the dictionary lacks replaced by its best spelling suggestion,
//! or dropped where there is none.

use vstd::prelude::*;
use crate::block_merge::{TermEntry, TermIndex};
use crate::cleanup::strs;
use crate::spell_check::{is_suggestion, ranks_before, spell_corrector};
use crate::term_map::entries_map;
use crate::text::{chars_equal, string_from_chars, str_chars};
use crate::three_gram_index::{gram_map, GramIndex};

verus! {

/// What query term `q` becomes: itself where the dictionary holds it; else a
/// best-ranked spelling suggestion, where there is one; else nothing.
pub open spec fn corrected(
    gm: Map<Seq<char>, Seq<Seq<char>>>,
    dm: Map<Seq<char>, TermEntry>,
    q: Seq<char>,
    c: Option<Seq<char>>,
) -> bool {
    if dm.contains_key(q) {
        c == Some(q)
    } else if exists|t: Seq<char>| #[trigger] is_suggestion(gm, dm, q, t) {
        &&& c is Some
        &&& is_suggestion(gm, dm, q, c.unwrap())
        &&& forall|u: Seq<char>| #[trigger] is_suggestion(gm, dm, q, u) ==> ranks_before(dm, q, c.unwrap(), u)
    } else {
        c is None
    }
}

/// The terms present, in order.
pub open spec fn kept(cs: Seq<Option<Seq<char>>>) -> Seq<Seq<char>>
    decreases cs.len(),
{
    if cs.len() == 0 {
        seq![]
    } else {
        let r = kept(cs.drop_last());
        match cs.last() {
            Some(t) => r.push(t),
            None => r,
        }
    }
}

/// Spell-correct a query: a term the dictionary holds stays; any other term
/// is replaced by its first (best-ranked) suggestion, or dropped where it
/// has none. Among suggestions of equal rank the one taken is whichever the
/// suggestion list puts first.
pub fn correct_query(query_list: Vec<String>, gram_index: &GramIndex, term_index: &TermIndex) -> (res: Vec<String>)
    requires
        gram_index.wf(),
        term_index.wf(),
    ensures
        exists|cs: Seq<Option<Seq<char>>>|
            {
                &&& cs.len() == query_list@.len()
                &&& forall|i: int|
                    0 <= i < cs.len() ==> corrected(
                        gram_map(gram_index),
                        entries_map(term_index@),
                        query_list@[i]@,
                        #[trigger] cs[i],
                    )
                &&& strs(res@) == kept(cs)
            },
{
    let ghost gm = gram_map(gram_index);
    let ghost dm = entries_map(term_index@);
    let ghost mut cs: Seq<Option<Seq<char>>> = seq![];
    let mut res: Vec<String> = Vec::new();
    let mut i: usize = 0;
    while i < query_list.len()
        invariant
            gram_index.wf(),
            term_index.wf(),
            gm == gram_map(gram_index),
            dm == entries_map(term_index@),
            i <= query_list@.len(),
            cs.len() == i,
            forall|j: int| 0 <= j < i ==> corrected(gm, dm, query_list@[j]@, #[trigger] cs[j]),
            strs(res@) == kept(cs),
        decreases query_list@.len() - i,
    {
        let q = &query_list[i];
        let ghost old_cs = cs;
        if term_index.contains_key(q.as_str()) {
            proof {
                cs = cs.push(Some(q@));
            }
            res.push(q.clone());
        } else {
            let suggestions = spell_corrector(q.as_str(), gram_index, term_index);
            if suggestions.len() > 0 {
                let best = suggestions[0].clone();
                proof {
                    let t = best@;
                    assert(strs(suggestions@)[0] == t);
                    assert(strs(suggestions@).contains(t));
                    assert(is_suggestion(gm, dm, q@, t));
                    assert forall|u: Seq<char>| #[trigger] is_suggestion(gm, dm, q@, u) implies ranks_before(
                        dm,
                        q@,
                        t,
                        u,
                    ) by {
                        assert(strs(suggestions@).contains(u));
                        let j = choose|j: int| 0 <= j < suggestions@.len() && strs(suggestions@)[j] == u;
                        if j > 0 {
                            assert(ranks_before(dm, q@, strs(suggestions@)[0], strs(suggestions@)[j]));
                        }
                    }
                    cs = cs.push(Some(t));
                }
                res.push(best);
            } else {
                proof {
                    assert forall|t: Seq<char>| !#[trigger] is_suggestion(gm, dm, q@, t) by {
                        if is_suggestion(gm, dm, q@, t) {
                            assert(strs(suggestions@).contains(t));
                        }
                    }
                    cs = cs.push(None);
                }
            }
        }
        proof {
            assert(cs.drop_last() =~= old_cs);
            assert(strs(res@) =~= kept(cs));
        }
        i = i + 1;
    }
    res
}

/// Unicode lower-casing of a string (`str::to_lowercase`).
pub uninterp spec fn lowercase_of(s: Seq<char>) -> Seq<char>;

/// Lower-case a string as `str::to_lowercase` does (full Unicode case
/// mapping, which may change the number of characters). The result is
/// named, not spelled out.
#[verifier::external_body]
fn to_lowercase(s: &str) -> (res: String)
    ensures
        res@ == lowercase_of(s@),
{
    s.to_lowercase()
}

/// The characters with the Unicode `White_Space` property, which is what
/// `char::is_whitespace` tests.
pub open spec fn is_white_space(c: char) -> bool {
    ('\u{9}' <= c && c <= '\u{d}') || c == ' ' || c == '\u{85}' || c == '\u{a0}' || c == '\u{1680}' || (
    '\u{2000}' <= c && c <= '\u{200a}') || c == '\u{2028}' || c == '\u{2029}' || c == '\u{202f}' || c
        == '\u{205f}' || c == '\u{3000}'
}

fn white_space(c: char) -> (res: bool)
    ensures
        res == is_white_space(c),
{
    ('\u{9}' <= c && c <= '\u{d}') || c == ' ' || c == '\u{85}' || c == '\u{a0}' || c == '\u{1680}' || (
    '\u{2000}' <= c && c <= '\u{200a}') || c == '\u{2028}' || c == '\u{2029}' || c == '\u{202f}' || c
        == '\u{205f}' || c == '\u{3000}'
}

/// `s` without its leading and trailing white space.
pub open spec fn trim_white(s: Seq<char>) -> Seq<char>
    decreases s.len(),
{
    if s.len() > 0 && is_white_space(s[0]) {
        trim_white(s.drop_first())
    } else if s.len() > 0 && is_white_space(s.last()) {
        trim_white(s.drop_last())
    } else {
        s
    }
}

/// The words of `cs` (maximal runs of non-white-space characters), `cur`
/// being the word read just before it.
pub open spec fn words_from(cs: Seq<char>, cur: Seq<char>) -> Seq<Seq<char>>
    decreases cs.len(),
{
    if cs.len() == 0 {
        if cur.len() > 0 {
            seq![cur]
        } else {
            seq![]
        }
    } else if is_white_space(cs[0]) {
        (if cur.len() > 0 {
            seq![cur]
        } else {
            seq![]
        }) + words_from(cs.drop_first(), seq![])
    } else {
        words_from(cs.drop_first(), cur.push(cs[0]))
    }
}

/// The words of `s`, in order.
pub open spec fn words(s: Seq<char>) -> Seq<Seq<char>> {
    words_from(s, seq![])
}

/// The line, trimmed and lower-cased, asks to stop: it is `quit`, `exit` or
/// empty.
pub open spec fn is_stop_line(low: Seq<char>) -> bool {
    low == "quit"@ || low == "exit"@ || low.len() == 0
}

fn trim_white_chars(s: &Vec<char>) -> (res: Vec<char>)
    ensures
        res@ == trim_white(s@),
{
    let n = s.len();
    let mut start: usize = 0;
    let mut end: usize = n;
    assert(s@.subrange(0, n as int) =~= s@);
    while start < end && (white_space(s[start]) || white_space(s[end - 1]))
        invariant
            n == s@.len(),
            start <= end <= n,
            trim_white(s@) == trim_white(s@.subrange(start as int, end as int)),
        decreases end - start,
    {
        let ghost t = s@.subrange(start as int, end as int);
        if white_space(s[start]) {
            assert(t[0] == s@[start as int]);
            assert(t.drop_first() =~= s@.subrange(start + 1, end as int));
            start = start + 1;
        } else {
            assert(t[0] == s@[start as int]);
            assert(t.last() == s@[end - 1]);
            assert(t.drop_last() =~= s@.subrange(start as int, end - 1));
            end = end - 1;
        }
    }
    let ghost t = s@.subrange(start as int, end as int);
    if start < end {
        assert(t[0] == s@[start as int]);
        assert(t.last() == s@[end - 1]);
    }
    let mut out: Vec<char> = Vec::new();
    let mut i: usize = start;
    while i < end
        invariant
            start <= i <= end <= n,
            n == s@.len(),
            out@ == s@.subrange(start as int, i as int),
        decreases end - i,
    {
        out.push(s[i]);
        i = i + 1;
        assert(out@ =~= s@.subrange(start as int, i as int));
    }
    out
}

/// Split `cs` into its words.
fn split_words(cs: &Vec<char>) -> (res: Vec<String>)
    ensures
        strs(res@) == words(cs@),
{
    let mut out: Vec<String> = Vec::new();
    let mut cur: Vec<char> = Vec::new();
    let mut i: usize = 0;
    assert(cs@.skip(0) =~= cs@);
    while i < cs.len()
        invariant
            i <= cs@.len(),
            strs(out@) + words_from(cs@.skip(i as int), cur@) == words(cs@),
        decreases cs@.len() - i,
    {
        let c = cs[i];
        assert(cs@.skip(i as int).drop_first() =~= cs@.skip(i + 1));
        assert(cs@.skip(i as int)[0] == c);
        let ghost before = strs(out@);
        if white_space(c) {
            if cur.len() > 0 {
                let w = string_from_chars(cur.as_slice());
                out.push(w);
                assert(strs(out@) =~= before + seq![cur@]);
            } else {
                assert(strs(out@) =~= before + Seq::<Seq<char>>::empty());
            }
            cur = Vec::new();
        } else {
            cur.push(c);
        }
        i = i + 1;
    }
    assert(cs@.skip(i as int) =~= Seq::<char>::empty());
    if cur.len() > 0 {
        let ghost before = strs(out@);
        let w = string_from_chars(cur.as_slice());
        out.push(w);
        assert(strs(out@) =~= before + seq![cur@]);
    } else {
        assert(strs(out@) =~= strs(out@) + Seq::<Seq<char>>::empty());
    }
    out
}

/// The words of a trimmed, lower-cased query line, or `None` where the line
/// asks to stop.
pub fn query_words(low: &str) -> (res: Option<Vec<String>>)
    ensures
        res is None <==> is_stop_line(low@),
        res matches Some(ws) ==> strs(ws@) == words(low@),
{
    let low_chars = str_chars(low);
    let quit = str_chars("quit");
    let exit = str_chars("exit");
    if chars_equal(&low_chars, &quit) || chars_equal(&low_chars, &exit) || low_chars.len() == 0 {
        return None;
    }
    Some(split_words(&low_chars))
}

/// Read a typed query line: trimmed and lower-cased, the line `quit`,
/// `exit` or an empty line asks to stop (`None`); any other line gives its
/// words.
pub fn parse_query(line: &str) -> (res: Option<Vec<String>>)
    ensures
        res is None <==> is_stop_line(lowercase_of(trim_white(line@))),
        res matches Some(ws) ==> strs(ws@) == words(lowercase_of(trim_white(line@))),
{
    let trimmed_chars = trim_white_chars(&str_chars(line));
    let trimmed = string_from_chars(trimmed_chars.as_slice());
    let low = to_lowercase(trimmed.as_str());
    query_words(low.as_str())
}

} // verus!
