//! Markdown field extraction: title (first H1), headers (H2-H4), code
//! (fenced blocks and inline spans) and body (the rest), with markdown
//! emphasis stripped from every field but code. The pattern matching is the
//! `regex` crate's; what this module adds is the order in which the patterns
//! are applied and how their results are put together.

use vstd::prelude::*;
use crate::cleanup::strs;
use crate::text::{str_chars, string_from_chars};

verus! {

#[verifier::external_type_specification]
#[verifier::external_body]
pub struct ExRegex(regex::Regex);

/// What `Regex::replace_all` returns: `text` with every non-overlapping
/// match of `pattern` replaced by `rep` (where `$n` stands for group `n`).
pub uninterp spec fn regex_replace_all(pattern: Seq<char>, text: Seq<char>, rep: Seq<char>) -> Seq<char>;

/// What `Regex::captures_iter` yields, each match taken by its capture group
/// 1: the text of group 1 of each successive non-overlapping match of
/// `pattern` in `text` (empty where the group took no part in the match).
pub uninterp spec fn regex_group1_matches(pattern: Seq<char>, text: Seq<char>) -> Seq<Seq<char>>;

/// What `Regex::captures` returns, taken by its capture group 1: `None`
/// where `pattern` does not match `text`, else the text of group 1 of the
/// leftmost-first match (empty where the group took no part).
pub uninterp spec fn regex_first_group1(pattern: Seq<char>, text: Seq<char>) -> Option<Seq<char>>;

/// Whether `Regex::new` accepts `pattern`: it parses, and its compiled form
/// stays within the crate's fixed default size limits.
pub uninterp spec fn regex_accepts(pattern: Seq<char>) -> bool;

/// A compiled regular expression together with its source pattern.
pub struct Pattern {
    source: String,
    re: regex::Regex,
}

impl View for Pattern {
    type V = Seq<char>;

    /// The pattern the expression was compiled from.
    closed spec fn view(&self) -> Seq<char> {
        self.source@
    }
}

/// Compile `pattern` (`Regex::new`); `None` where the crate rejects it.
/// Which patterns it accepts is named, not described.
#[verifier::external_body]
fn compile(pattern: &str) -> (res: Option<Pattern>)
    ensures
        res is Some <==> regex_accepts(pattern@),
        res matches Some(p) ==> p@ == pattern@,
{
    match regex::Regex::new(pattern) {
        Ok(re) => Some(Pattern { source: pattern.to_string(), re }),
        Err(_) => None,
    }
}

/// `Regex::replace_all`: replace every non-overlapping match of the pattern
/// in `text` by `rep`. The result is named, not described.
#[verifier::external_body]
fn replace_all(p: &Pattern, text: &str, rep: &str) -> (res: String)
    ensures
        res@ == regex_replace_all(p@, text@, rep@),
{
    p.re.replace_all(text, rep).into_owned()
}

/// `Regex::captures_iter`: the text of capture group 1 of each match, in
/// order (empty where the group took no part). The result is named, not
/// described.
#[verifier::external_body]
fn group1_matches(p: &Pattern, text: &str) -> (res: Vec<String>)
    ensures
        strs(res@) == regex_group1_matches(p@, text@),
{
    p.re.captures_iter(text).map(|c| c.get(1).map_or(String::new(), |m| m.as_str().to_string())).collect()
}

/// `Regex::captures`: the text of capture group 1 of the first match, or
/// `None` where there is no match. The result is named, not described.
#[verifier::external_body]
fn first_group1(p: &Pattern, text: &str) -> (res: Option<String>)
    ensures
        match res {
            Some(s) => regex_first_group1(p@, text@) == Some(s@),
            None => regex_first_group1(p@, text@) is None,
        },
{
    p.re.captures(text).map(|c| c.get(1).map_or(String::new(), |m| m.as_str().to_string()))
}

/// Anchor tags `<a name="..."></a>`.
pub const ANCHOR: &'static str = r#"<a\s+name="[^"]*"\s*></a>"#;
/// Images `![alt](url)`.
pub const IMAGE: &'static str = r"!\[[^\]]*\]\([^)]*\)";
/// Links `[text](url)`; group 1 is the text.
pub const LINK: &'static str = r"\[([^\]]+)\]\([^)]*\)";
/// Fenced code blocks; group 1 is the code.
pub const FENCED: &'static str = r"(?s)```[^\n]*\n(.*?)```";
/// Inline code spans; group 1 is the code.
pub const INLINE_CODE: &'static str = r"`([^`\n]+)`";
/// H1 lines; group 1 is the heading text.
pub const H1: &'static str = r"(?m)^#\s+(.+?)\s*$";
/// H2, H3 and H4 lines; group 1 is the heading text.
pub const H234: &'static str = r"(?m)^#{2,4}\s+(.+?)\s*$";
/// Bold markers `**` and `__`.
pub const EMPHASIS_DOUBLE: &'static str = r"\*\*|__";
/// A lone `*` or `_` not inside a word.
pub const EMPHASIS_SINGLE: &'static str = r"(^|[^A-Za-z0-9_])[*_]($|[^A-Za-z0-9_])";

/// The compiled patterns of field extraction.
pub struct FieldPatterns {
    anchor: Pattern,
    image: Pattern,
    link: Pattern,
    fenced: Pattern,
    inline_code: Pattern,
    h1: Pattern,
    h234: Pattern,
    emphasis_double: Pattern,
    emphasis_single: Pattern,
}

impl FieldPatterns {
    /// Each pattern was compiled from its source above.
    pub closed spec fn wf(&self) -> bool {
        &&& self.anchor@ == ANCHOR@
        &&& self.image@ == IMAGE@
        &&& self.link@ == LINK@
        &&& self.fenced@ == FENCED@
        &&& self.inline_code@ == INLINE_CODE@
        &&& self.h1@ == H1@
        &&& self.h234@ == H234@
        &&& self.emphasis_double@ == EMPHASIS_DOUBLE@
        &&& self.emphasis_single@ == EMPHASIS_SINGLE@
    }

    /// Compile the patterns; `None` exactly when the regex crate rejects one.
    pub fn new() -> (res: Option<FieldPatterns>)
        ensures
            res is Some <==> (regex_accepts(ANCHOR@) && regex_accepts(IMAGE@) && regex_accepts(LINK@)
                && regex_accepts(FENCED@) && regex_accepts(INLINE_CODE@) && regex_accepts(H1@)
                && regex_accepts(H234@) && regex_accepts(EMPHASIS_DOUBLE@) && regex_accepts(
                EMPHASIS_SINGLE@,
            )),
            res matches Some(p) ==> p.wf(),
    {
        let anchor = compile(ANCHOR)?;
        let image = compile(IMAGE)?;
        let link = compile(LINK)?;
        let fenced = compile(FENCED)?;
        let inline_code = compile(INLINE_CODE)?;
        let h1 = compile(H1)?;
        let h234 = compile(H234)?;
        let emphasis_double = compile(EMPHASIS_DOUBLE)?;
        let emphasis_single = compile(EMPHASIS_SINGLE)?;
        Some(
            FieldPatterns {
                anchor,
                image,
                link,
                fenced,
                inline_code,
                h1,
                h234,
                emphasis_double,
                emphasis_single,
            },
        )
    }
}

/// The parts joined, with `sep` between consecutive parts.
pub open spec fn join_with(parts: Seq<Seq<char>>, sep: Seq<char>) -> Seq<char>
    decreases parts.len(),
{
    if parts.len() == 0 {
        seq![]
    } else if parts.len() == 1 {
        parts[0]
    } else {
        join_with(parts.drop_last(), sep) + sep + parts.last()
    }
}

/// Join strings with a separator between consecutive ones
/// (`[String]::join`).
pub fn join_strings(parts: &Vec<String>, sep: &str) -> (res: String)
    ensures
        res@ == join_with(strs(parts@), sep@),
{
    let ghost ps = strs(parts@);
    let sc = str_chars(sep);
    let mut out: Vec<char> = Vec::new();
    let mut i: usize = 0;
    while i < parts.len()
        invariant
            i <= parts@.len(),
            ps == strs(parts@),
            sc@ == sep@,
            out@ == join_with(ps.take(i as int), sep@),
        decreases parts@.len() - i,
    {
        let ghost before = out@;
        if i > 0 {
            let mut k: usize = 0;
            while k < sc.len()
                invariant
                    k <= sc@.len(),
                    out@ == before + sc@.take(k as int),
                decreases sc@.len() - k,
            {
                out.push(sc[k]);
                k = k + 1;
                assert(out@ =~= before + sc@.take(k as int));
            }
            assert(sc@.take(k as int) =~= sc@);
        }
        let ghost mid = out@;
        let pc = str_chars(parts[i].as_str());
        let mut k: usize = 0;
        while k < pc.len()
            invariant
                k <= pc@.len(),
                out@ == mid + pc@.take(k as int),
            decreases pc@.len() - k,
        {
            out.push(pc[k]);
            k = k + 1;
            assert(out@ =~= mid + pc@.take(k as int));
        }
        assert(pc@.take(k as int) =~= pc@);
        assert(ps[i as int] == pc@);
        assert(ps.take(i + 1).drop_last() =~= ps.take(i as int));
        assert(ps.take(i + 1).last() == ps[i as int]);
        if i == 0 {
            assert(ps.take(1).len() == 1);
            assert(out@ =~= join_with(ps.take(i + 1), sep@));
        } else {
            assert(out@ =~= join_with(ps.take(i + 1), sep@));
        }
        i = i + 1;
    }
    assert(ps.take(i as int) =~= ps);
    string_from_chars(out.as_slice())
}

/// The four text fields of a document.
pub struct ExtractedFields {
    pub title: String,
    pub headers: String,
    pub code: String,
    pub body: String,
}

/// Bold markers replaced by a space, then lone `*` and `_` removed (keeping
/// what surrounds them).
pub open spec fn strip_emphasis_spec(s: Seq<char>) -> Seq<char> {
    regex_replace_all(EMPHASIS_SINGLE@, regex_replace_all(EMPHASIS_DOUBLE@, s, " "@), "$1 $2"@)
}

/// The text with anchors and images replaced by a space.
pub open spec fn stripped_media(raw: Seq<char>) -> Seq<char> {
    regex_replace_all(IMAGE@, regex_replace_all(ANCHOR@, raw, " "@), " "@)
}

/// The text with fenced blocks replaced by a space.
pub open spec fn without_fenced(raw: Seq<char>) -> Seq<char> {
    regex_replace_all(FENCED@, stripped_media(raw), " "@)
}

/// The text with fenced blocks and inline code replaced by a space.
pub open spec fn without_code(raw: Seq<char>) -> Seq<char> {
    regex_replace_all(INLINE_CODE@, without_fenced(raw), " "@)
}

/// Code: the fenced blocks, then the inline spans, joined by newlines.
pub open spec fn code_spec(raw: Seq<char>) -> Seq<char> {
    join_with(
        regex_group1_matches(FENCED@, stripped_media(raw)) + regex_group1_matches(
            INLINE_CODE@,
            without_fenced(raw),
        ),
        "\n"@,
    )
}

/// Title: the text of the first H1, emphasis stripped; empty if none.
pub open spec fn title_spec(raw: Seq<char>) -> Seq<char> {
    strip_emphasis_spec(
        match regex_first_group1(H1@, without_code(raw)) {
            Some(t) => t,
            None => seq![],
        },
    )
}

/// Headers: the texts of all H2-H4 lines joined by spaces, emphasis
/// stripped.
pub open spec fn headers_spec(raw: Seq<char>) -> Seq<char> {
    strip_emphasis_spec(join_with(regex_group1_matches(H234@, without_code(raw)), " "@))
}

/// Body: the text without code and heading lines, links reduced to their
/// text, emphasis stripped.
pub open spec fn body_spec(raw: Seq<char>) -> Seq<char> {
    strip_emphasis_spec(
        regex_replace_all(
            LINK@,
            regex_replace_all(H234@, regex_replace_all(H1@, without_code(raw), " "@), " "@),
            "$1"@,
        ),
    )
}

/// Emphasis is stripped from every field but code, and from each of them
/// in the same way: the title is the stripped text of the first H1, the
/// headers the stripped H2-H4 texts joined by spaces, the body the stripped
/// rest (heading lines removed, links reduced to their text); the code field
/// is the fenced blocks and inline spans joined by newlines, not stripped.
pub proof fn lemma_emphasis_stripped_outside_code(raw: Seq<char>)
    ensures
        title_spec(raw) == strip_emphasis_spec(
            match regex_first_group1(H1@, without_code(raw)) {
                Some(t) => t,
                None => seq![],
            },
        ),
        headers_spec(raw) == strip_emphasis_spec(
            join_with(regex_group1_matches(H234@, without_code(raw)), " "@),
        ),
        body_spec(raw) == strip_emphasis_spec(
            regex_replace_all(
                LINK@,
                regex_replace_all(H234@, regex_replace_all(H1@, without_code(raw), " "@), " "@),
                "$1"@,
            ),
        ),
        code_spec(raw) == join_with(
            regex_group1_matches(FENCED@, stripped_media(raw)) + regex_group1_matches(
                INLINE_CODE@,
                without_fenced(raw),
            ),
            "\n"@,
        ),
{
}

fn strip_emphasis(p: &FieldPatterns, s: &str) -> (res: String)
    requires
        p.wf(),
    ensures
        res@ == strip_emphasis_spec(s@),
{
    let t = replace_all(&p.emphasis_double, s, " ");
    replace_all(&p.emphasis_single, t.as_str(), "$1 $2")
}

/// Split a markdown document into title, headers, code and body. Code is
/// pulled out first (fenced blocks, then inline spans) so that it never
/// reaches the other fields, and keeps its `*` and `_`.
pub fn extract_fields(raw: &str, p: &FieldPatterns) -> (res: ExtractedFields)
    requires
        p.wf(),
    ensures
        res.title@ == title_spec(raw@),
        res.headers@ == headers_spec(raw@),
        res.code@ == code_spec(raw@),
        res.body@ == body_spec(raw@),
{
    // 1. strip anchors and images
    let text = replace_all(&p.anchor, raw, " ");
    let text = replace_all(&p.image, text.as_str(), " ");
    // 2. pull out fenced code blocks, then inline code
    let mut code_parts = group1_matches(&p.fenced, text.as_str());
    let text_no_fenced = replace_all(&p.fenced, text.as_str(), " ");
    let mut inline = group1_matches(&p.inline_code, text_no_fenced.as_str());
    let ghost fenced_v = strs(code_parts@);
    let ghost inline_v = strs(inline@);
    code_parts.append(&mut inline);
    assert(strs(code_parts@) =~= fenced_v + inline_v);
    let text_no_code = replace_all(&p.inline_code, text_no_fenced.as_str(), " ");
    // 3. title: the first H1
    let title_raw = match first_group1(&p.h1, text_no_code.as_str()) {
        Some(t) => t,
        None => String::new(),
    };
    // 4. headers: all H2-H4
    let header_parts = group1_matches(&p.h234, text_no_code.as_str());
    let headers_raw = join_strings(&header_parts, " ");
    // 5. body: the rest, heading lines removed, links reduced to their text
    let body_text = replace_all(&p.h1, text_no_code.as_str(), " ");
    let body_text = replace_all(&p.h234, body_text.as_str(), " ");
    let body_text = replace_all(&p.link, body_text.as_str(), "$1");
    // 6. emphasis stripped from every field but code
    ExtractedFields {
        title: strip_emphasis(p, title_raw.as_str()),
        headers: strip_emphasis(p, headers_raw.as_str()),
        code: join_strings(&code_parts, "\n"),
        body: strip_emphasis(p, body_text.as_str()),
    }
}

} // verus!
