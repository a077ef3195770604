//! Command-line options of the single-video tool, and file-name sanitizing.

use vstd::prelude::*;
use crate::text::string_from;
use crate::text::chars_of;

verus! {

/// Options of the single-video tool: a YouTube URL, optional overrides for the
/// artist and the title, the output directory, a file of URLs, a marker up to
/// which titles are cut, and whether that file holds "url | title | artist"
/// lines.
pub struct Args {
    /// YouTube URL
    pub url: Option<String>,
    /// Override artist
    pub artist: Option<String>,
    /// Override title
    pub title: Option<String>,
    /// Output directory
    pub output: String,
    /// File to read urls from
    pub input_file: Option<String>,
    /// Strips anything before this character for titles; does not affect the artist
    pub strip_until: Option<char>,
    /// Parse the input file as "url | title | artist" per line
    pub file_overrides: bool,
}

/// The characters that file names may not hold: `< > : " / \ | ? *`.
pub open spec fn is_reserved(c: char) -> bool {
    c == '<' || c == '>' || c == ':' || c == '"' || c == '/' || c == '\\' || c == '|' || c == '?'
        || c == '*'
}

/// A reserved character becomes `_`; any other stays.
pub open spec fn sanitize_char(c: char) -> char {
    if is_reserved(c) {
        '_'
    } else {
        c
    }
}

/// `s` with every reserved character replaced by `_`.
pub open spec fn sanitized(s: Seq<char>) -> Seq<char> {
    s.map_values(|c: char| sanitize_char(c))
}

/// Replaces each of `< > : " / \ | ? *` in `input` by `_`.
pub fn sanitize(input: &str) -> (r: String)
    ensures
        r@ == sanitized(input@),
        r@.len() == input@.len(),
        forall|i: int|
            0 <= i < input@.len() ==> #[trigger] r@[i] == (if input@[i] == '<' || input@[i] == '>'
                || input@[i] == ':' || input@[i] == '"' || input@[i] == '/' || input@[i] == '\\'
                || input@[i] == '|' || input@[i] == '?' || input@[i] == '*' {
                '_'
            } else {
                input@[i]
            }),
{
    let v = chars_of(input);
    let mut out: Vec<char> = Vec::new();
    let n = v.len();
    for i in 0..n
        invariant
            n == v@.len(),
            out@ == sanitized(v@.take(i as int)),
    {
        let c = v[i];
        let d = if c == '<' || c == '>' || c == ':' || c == '"' || c == '/' || c == '\\' || c == '|'
            || c == '?' || c == '*' {
            '_'
        } else {
            c
        };
        out.push(d);
        assert(sanitized(v@.take(i + 1)) =~= sanitized(v@.take(i as int)).push(d));
    }
    assert(v@.take(n as int) =~= v@);
    string_from(out.as_slice())
}

/// A sanitized name holds no reserved character, and keeps its length and
/// every other character.
pub proof fn lemma_sanitized_clean(s: Seq<char>)
    ensures
        sanitized(s).len() == s.len(),
        forall|i: int| 0 <= i < s.len() ==> !is_reserved(#[trigger] sanitized(s)[i]),
        forall|i: int| 0 <= i < s.len() && !is_reserved(s[i]) ==> #[trigger] sanitized(s)[i] == s[i],
{
}

/// Sanitizing twice gives what sanitizing once gives.
pub proof fn lemma_sanitize_idempotent(s: Seq<char>)
    ensures
        sanitized(sanitized(s)) == sanitized(s),
{
    assert(sanitized(sanitized(s)) =~= sanitized(s));
}

/// Sanitizing changes exactly the characters `<`, `>`, `:`, `"`, `/`, `\`,
/// `|`, `?` and `*`, each into `_`, and keeps every other character where it
/// stands.
pub proof fn lemma_sanitized_chars(s: Seq<char>)
    ensures
        sanitized(s).len() == s.len(),
        forall|i: int|
            0 <= i < s.len() && (s[i] == '<' || s[i] == '>' || s[i] == ':' || s[i] == '"' || s[i]
                == '/' || s[i] == '\\' || s[i] == '|' || s[i] == '?' || s[i] == '*') ==> #[trigger] sanitized(s)[i]
                == '_',
        forall|i: int|
            0 <= i < s.len() && s[i] != '<' && s[i] != '>' && s[i] != ':' && s[i] != '"' && s[i]
                != '/' && s[i] != '\\' && s[i] != '|' && s[i] != '?' && s[i] != '*' ==> #[trigger] sanitized(s)[i]
                == s[i],
{
}

} // verus!
