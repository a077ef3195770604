//! Title clean-up: removal of noise markers such as "(Official Video)", the
//! best-guess split of "Artist - Title" strings, and trimming up to a marker.

use vstd::prelude::*;
use vstd::utf8::{decode_utf8, valid_utf8};
use crate::text::{
    byte_len, bytes_before, chars_of, collapse_whitespace, collapse_ws, contains_seq, find,
    find_chars, index_at_byte, is_boundary, is_last_index, keep_non_empty, last_index,
    lemma_byte_len_mono, lemma_byte_len_step, non_empty, opt_view, rfind_char, sep_pred,
    split_by, split_chars, string_from, trim, trim_all, trim_chars, trim_each, trim_str, utf8_width,
    views, lemma_collapse_idempotent, lemma_trim_subrange, lemma_split_pieces,
    lemma_non_empty_members, is_ws, lemma_collapse_shorter, lemma_collapse_shape, is_collapsed,
    lemma_split_substrings, lemma_non_empty_none, occurs_at, trim_end, lemma_trim_idempotent,
    lemma_byte_len_concat, lemma_split_span, lemma_split_no_sep, lemma_split_concat,
    lemma_split_nonempty, lemma_find_some, is_first_occurrence,
};

verus! {

/// Names what `str::to_lowercase` returns for a string with the characters `s`.
pub uninterp spec fn lowercase(s: Seq<char>) -> Seq<char>;

/// `str::to_lowercase`. Its documentation defines the result by the Unicode
/// `Lowercase` mapping, with context rules (a final sigma); the contract only
/// names the result: it is `lowercase` of the argument's characters.
#[verifier::external_body]
fn to_lowercase(s: &str) -> (r: String)
    ensures
        r@ == lowercase(s@),
{
    s.to_lowercase()
}

/// The character index of byte offset `b` in `s`, when `b` is a boundary.
pub open spec fn boundary_index(s: Seq<char>, b: int) -> int {
    choose|i: int| 0 <= i <= s.len() && byte_len(s.take(i)) == b
}

/// A boundary has exactly one character index.
pub proof fn lemma_boundary_index(s: Seq<char>, i: int)
    requires
        0 <= i <= s.len(),
    ensures
        boundary_index(s, byte_len(s.take(i)) as int) == i,
{
    let b = byte_len(s.take(i)) as int;
    let k = boundary_index(s, b);
    assert(0 <= k <= s.len() && byte_len(s.take(k)) == b);
    if k < i {
        lemma_byte_len_mono(s, k, i);
    } else if i < k {
        lemma_byte_len_mono(s, i, k);
    }
}

/// What removing the first case-insensitive occurrence of `pattern` from
/// `input` gives: the occurrence is searched in the lowercase of `input`, and
/// the byte range it starts at, as long as `pattern` is in bytes, is cut out of
/// `input` itself. `None` where that range does not fall on character
/// boundaries of `input`, which is where `String::replace_range` panics.
pub open spec fn removal(input: Seq<char>, pattern: Seq<char>) -> Option<Seq<char>> {
    let lower = lowercase(input);
    match find(lower, lowercase(pattern)) {
        None => Some(input),
        Some(k) => {
            let start = byte_len(lower.take(k)) as int;
            let end = start + byte_len(pattern);
            if is_boundary(input, start) && is_boundary(input, end) {
                Some(
                    input.take(boundary_index(input, start)) + input.skip(
                        boundary_index(input, end),
                    ),
                )
            } else {
                None
            }
        },
    }
}

/// Removes the first case-insensitive occurrence of `pattern`, or reports
/// that the removal would cut a character.
fn removal_checked(input: &str, pattern: &str) -> (r: Option<Vec<char>>)
    ensures
        r matches Some(v) ==> removal(input@, pattern@) == Some(v@),
        r is None ==> removal(input@, pattern@) is None,
{
    let lower = chars_of(to_lowercase(input).as_str());
    let pat = chars_of(to_lowercase(pattern).as_str());
    let inp = chars_of(input);
    match find_chars(lower.as_slice(), pat.as_slice()) {
        None => Some(inp),
        Some(k) => {
            let pchars = chars_of(pattern);
            let start = bytes_before(lower.as_slice(), k);
            let plen = bytes_before(pchars.as_slice(), pchars.len());
            proof {
                assert(pchars@.take(pchars@.len() as int) =~= pchars@);
                lemma_byte_len_mono(lower@, 0, k as int);
                lemma_byte_len_mono(pchars@, 0, pchars@.len() as int);
                assert(lower@.take(0).len() == 0);
                assert(pchars@.take(0).len() == 0);
            }
            let end = start + plen;
            let si = index_at_byte(inp.as_slice(), start);
            let ei = index_at_byte(inp.as_slice(), end);
            match (si, ei) {
                (Some(i), Some(j)) => {
                    proof {
                        lemma_boundary_index(inp@, i as int);
                        lemma_boundary_index(inp@, j as int);
                    }
                    let mut out: Vec<char> = Vec::new();
                    let mut q: usize = 0;
                    while q < i
                        invariant
                            i <= inp@.len(),
                            q <= i,
                            out@ == inp@.take(q as int),
                        decreases i - q,
                    {
                        out.push(inp[q]);
                        assert(inp@.take(q + 1) =~= inp@.take(q as int).push(inp@[q as int]));
                        q = q + 1;
                    }
                    let mut q: usize = j;
                    while q < inp.len()
                        invariant
                            i <= inp@.len(),
                            j <= q <= inp@.len(),
                            out@ == inp@.take(i as int) + inp@.subrange(j as int, q as int),
                        decreases inp@.len() - q,
                    {
                        out.push(inp[q]);
                        assert(inp@.subrange(j as int, q + 1) =~= inp@.subrange(
                            j as int,
                            q as int,
                        ).push(inp@[q as int]));
                        q = q + 1;
                    }
                    assert(inp@.subrange(j as int, inp@.len() as int) =~= inp@.skip(j as int));
                    Some(out)
                },
                _ => None,
            }
        },
    }
}

/// The noise markers that titles are cleaned of, in the order they are tried.
pub open spec fn noise_patterns() -> Seq<Seq<char>> {
    seq![
        "(official audio)"@,
        "(official video)"@,
        "(official music video)"@,
        "[official audio]"@,
        "[official video]"@,
        "[lyrics]"@,
        "(lyrics)"@,
    ]
}

/// The noise markers, as string slices.
fn noise_pattern_list() -> (v: Vec<&'static str>)
    ensures
        v@.len() == noise_patterns().len(),
        forall|i: int| 0 <= i < v@.len() ==> #[trigger] v@[i]@ == noise_patterns()[i],
{
    let mut v: Vec<&'static str> = Vec::new();
    v.push("(official audio)");
    v.push("(official video)");
    v.push("(official music video)");
    v.push("[official audio]");
    v.push("[official video]");
    v.push("[lyrics]");
    v.push("(lyrics)");
    v
}

/// The markers of `pats` are removed in turn from `s`, each only when its
/// lowercase occurs in `lower`, the lowercase of the string before any removal.
/// `None` where a removal panics.
pub open spec fn noise_steps(lower: Seq<char>, s: Seq<char>, pats: Seq<Seq<char>>) -> Option<
    Seq<char>,
>
    decreases pats.len(),
{
    if pats.len() == 0 {
        Some(s)
    } else if contains_seq(lower, lowercase(pats[0])) {
        match removal(s, pats[0]) {
            Some(t) => noise_steps(lower, t, pats.drop_first()),
            None => None,
        }
    } else {
        noise_steps(lower, s, pats.drop_first())
    }
}

/// `s` with the noise markers removed, before its whitespace is collapsed.
pub open spec fn noise_removed(s: Seq<char>) -> Option<Seq<char>> {
    noise_steps(lowercase(s), s, noise_patterns())
}

/// What `strip_noise` returns for `s`: the markers removed, then the words
/// joined by single spaces. `None` where the removal panics.
pub open spec fn stripped_noise(s: Seq<char>) -> Option<Seq<char>> {
    match noise_removed(s) {
        Some(t) => Some(collapse_ws(t)),
        None => None,
    }
}

/// `s` with the noise markers removed, or `None` where a removal panics.
fn noise_removed_checked(s: &str) -> (r: Option<Vec<char>>)
    ensures
        r matches Some(v) ==> noise_removed(s@) == Some(v@),
        r is None ==> noise_removed(s@) is None,
{
    let lower = chars_of(to_lowercase(s).as_str());
    let pats = noise_pattern_list();
    let ghost all = noise_patterns();
    let mut cur = string_from(chars_of(s).as_slice());
    assert(all.skip(0) =~= all);
    let n = pats.len();
    for i in 0..n
        invariant
            n == pats@.len(),
            n == all.len(),
            all == noise_patterns(),
            lower@ == lowercase(s@),
            forall|q: int| 0 <= q < pats@.len() ==> #[trigger] pats@[q]@ == all[q],
            noise_removed(s@) == noise_steps(lower@, cur@, all.skip(i as int)),
    {
        let p = pats[i];
        let ghost rest = all.skip(i as int);
        assert(rest[0] == p@);
        assert(rest.drop_first() =~= all.skip(i + 1));
        let lp = chars_of(to_lowercase(p).as_str());
        if find_chars(lower.as_slice(), lp.as_slice()).is_some() {
            match removal_checked(cur.as_str(), p) {
                Some(v) => {
                    cur = string_from(v.as_slice());
                },
                None => {
                    return None;
                },
            }
        }
    }
    assert(all.skip(n as int).len() == 0);
    Some(chars_of(cur.as_str()))
}

/// Removes the noise markers from `s` and collapses its whitespace: the words
/// of what is left are joined by single spaces.
pub fn strip_noise(s: &str) -> (r: String)
    requires
        stripped_noise(s@) is Some,
    ensures
        stripped_noise(s@) == Some(r@),
{
    match noise_removed_checked(s) {
        Some(v) => string_from(collapse_whitespace(v.as_slice()).as_slice()),
        None => String::new(),
    }
}

/// Whether `strip_noise` can clean `s`: false exactly where a marker removal
/// would cut a character, which is where the cleaning panics.
pub fn strip_noise_is_defined(s: &str) -> (b: bool)
    ensures
        b == (stripped_noise(s@) is Some),
{
    noise_removed_checked(s).is_some()
}

/// `strip_noise`, or `None` where it would panic.
pub fn try_strip_noise(s: &str) -> (r: Option<String>)
    ensures
        r matches Some(t) ==> stripped_noise(s@) == Some(t@),
        r is None ==> stripped_noise(s@) is None,
{
    if strip_noise_is_defined(s) {
        Some(strip_noise(s))
    } else {
        None
    }
}

// ---------------------------------------------------------------------------
// Best-guess split of "Artist - Title"

/// The characters at which a title is split: `|`, `-` and `:`.
pub open spec fn title_seps() -> Seq<char> {
    seq!['|', '-', ':']
}

/// The trimmed, non-empty pieces of `s` between title separators.
pub open spec fn title_parts(s: Seq<char>) -> Seq<Seq<char>> {
    non_empty(trim_all(split_by(s, sep_pred(title_seps(), false))))
}

/// The first of `parts` whose lowercase differs from `artist_lower`.
pub open spec fn first_unlike(parts: Seq<Seq<char>>, artist_lower: Seq<char>) -> Option<Seq<char>>
    decreases parts.len(),
{
    if parts.len() == 0 {
        None
    } else if lowercase(parts[0]) != artist_lower {
        Some(parts[0])
    } else {
        first_unlike(parts.drop_first(), artist_lower)
    }
}

/// The last of `parts`, or the empty string when there is none.
pub open spec fn last_or_empty(parts: Seq<Seq<char>>) -> Seq<char> {
    if parts.len() == 0 {
        Seq::<char>::empty()
    } else {
        parts.last()
    }
}

/// The best guess at the title in `s`: its only piece when there is one;
/// otherwise the first piece that is not the artist (compared in lowercase);
/// otherwise the last piece, or the empty string.
pub open spec fn best_guess(s: Seq<char>, artist: Option<Seq<char>>) -> Seq<char> {
    let parts = title_parts(s);
    if parts.len() == 1 {
        parts[0]
    } else {
        match artist {
            Some(a) => match first_unlike(parts, lowercase(a)) {
                Some(p) => p,
                None => last_or_empty(parts),
            },
            None => last_or_empty(parts),
        }
    }
}

/// Guesses the title in a string such as "Artist - Title": the pieces
/// between `|`, `-` and `:` are trimmed and empty ones dropped; a single piece
/// is the title; otherwise the first piece that is not the artist, else the
/// last piece.
pub fn split_best_guess(s: &str, artist: Option<&str>) -> (r: String)
    ensures
        r@ == best_guess(s@, opt_view(artist)),
{
    let v = chars_of(s);
    let mut seps: Vec<char> = Vec::new();
    seps.push('|');
    seps.push('-');
    seps.push(':');
    assert(seps@ =~= title_seps());
    let pieces = split_chars(v.as_slice(), seps.as_slice(), false);
    let trimmed = trim_each(&pieces);
    let parts = keep_non_empty(&trimmed);
    let ghost ps = views(parts@);
    assert(ps == title_parts(s@));
    if parts.len() == 1 {
        return string_from(parts[0].as_slice());
    }
    if let Some(a) = artist {
        let al = to_lowercase(a);
        let m = parts.len();
        assert(ps.skip(0) =~= ps);
        for i in 0..m
            invariant
                m == parts@.len(),
                ps == views(parts@),
                al@ == lowercase(a@),
                ps == title_parts(s@),
                ps.len() != 1,
                artist == Some(a),
                first_unlike(ps, al@) == first_unlike(ps.skip(i as int), al@),
        {
            let p = string_from(parts[i].as_slice());
            let pl = to_lowercase(p.as_str());
            assert(ps.skip(i as int)[0] == p@);
            assert(ps.skip(i as int).drop_first() =~= ps.skip(i + 1));
            if !(pl == al) {
                return p;
            }
        }
        assert(ps.skip(m as int).len() == 0);
    }
    if parts.len() == 0 {
        String::new()
    } else {
        string_from(parts[parts.len() - 1].as_slice())
    }
}

// ---------------------------------------------------------------------------
// Stripping up to the last marker

/// `s` after the last occurrence of `c`, trimmed; `s` itself when `c` does not
/// occur or occurs only as the last character.
pub open spec fn until_last(s: Seq<char>, c: char) -> Seq<char> {
    match last_index(s, c) {
        Some(k) => if k + 1 < s.len() {
            trim(s.skip(k + 1))
        } else {
            s
        },
        None => s,
    }
}

/// How `until_last` relates to byte offsets, in which `str::rfind` and
/// slicing count: with `k` the last index of `c` and `b` its byte offset, the
/// offset `b` plus the width of `c` is the character boundary just after the
/// marker, and it lies before the end exactly when `k + 1` does.
pub proof fn lemma_until_last_bytes(s: Seq<char>, c: char, k: int)
    requires
        is_last_index(s, c, k),
    ensures
        byte_len(s.take(k + 1)) == byte_len(s.take(k)) + utf8_width(c),
        is_boundary(s, (byte_len(s.take(k)) + utf8_width(c)) as int),
        byte_len(s.take(k)) + utf8_width(c) < byte_len(s) <==> k + 1 < s.len(),
{
    lemma_byte_len_step(s, k);
    assert(s.take(s.len() as int) =~= s);
    lemma_byte_len_mono(s, k + 1, s.len() as int);
    assert(0 <= k + 1 <= s.len() && byte_len(s.take(k + 1)) == byte_len(s.take(k)) + utf8_width(c));
}

/// Keeps what follows the last `c` in `s` (the whole marker, however many
/// bytes it takes, is stripped with everything before it), trimmed; keeps `s`
/// when `c` does not occur or ends `s`.
pub fn strip_until_last(s: &str, c: char) -> (r: String)
    ensures
        r@ == until_last(s@, c),
{
    let v = chars_of(s);
    match rfind_char(v.as_slice(), c) {
        Some(k) => {
            if k < v.len() - 1 {
                let mut rest: Vec<char> = Vec::new();
                let mut q = k + 1;
                while q < v.len()
                    invariant
                        k + 1 <= q <= v@.len(),
                        rest@ == v@.subrange(k + 1, q as int),
                    decreases v@.len() - q,
                {
                    rest.push(v[q]);
                    assert(v@.subrange(k + 1, q + 1) =~= v@.subrange(k + 1, q as int).push(
                        v@[q as int],
                    ));
                    q = q + 1;
                }
                assert(rest@ =~= v@.skip(k + 1));
                string_from(trim_chars(rest.as_slice()).as_slice())
            } else {
                string_from(v.as_slice())
            }
        },
        None => string_from(v.as_slice()),
    }
}

// ---------------------------------------------------------------------------
// Whole titles

/// What `normalize_title` returns: the raw title trimmed and cleaned of noise,
/// the best guess at the title taken, and, with a marker, what follows its
/// last occurrence. `None` where removing a noise marker panics.
pub open spec fn normalized_title(raw: Seq<char>, artist: Option<Seq<char>>, strip_until: Option<
    char,
>) -> Option<Seq<char>> {
    match stripped_noise(trim(raw)) {
        None => None,
        Some(t) => {
            let g = best_guess(t, artist);
            match strip_until {
                None => Some(g),
                Some(c) => Some(until_last(g, c)),
            }
        },
    }
}

/// Cleans a raw video title: trims it, removes noise markers, guesses the
/// title part of "Artist - Title", and, with a marker, keeps what follows its
/// last occurrence.
pub fn normalize_title(raw: &str, artist: Option<&str>, strip_until: Option<char>) -> (r: String)
    requires
        normalized_title(raw@, opt_view(artist), strip_until) is Some,
    ensures
        normalized_title(raw@, opt_view(artist), strip_until) == Some(r@),
{
    let t = trim_str(raw);
    let t = strip_noise(t.as_str());
    let t = split_best_guess(t.as_str(), artist);
    match strip_until {
        Some(c) => strip_until_last(t.as_str(), c),
        None => t,
    }
}

/// Whether `normalize_title` can clean `raw`: false exactly where removing a
/// noise marker would panic.
pub fn normalize_title_is_defined(raw: &str, artist: Option<&str>, strip_until: Option<char>) -> (b:
    bool)
    ensures
        b == (normalized_title(raw@, opt_view(artist), strip_until) is Some),
{
    let t = trim_str(raw);
    strip_noise_is_defined(t.as_str())
}

/// `normalize_title`, or `None` where it would panic.
pub fn try_normalize_title(raw: &str, artist: Option<&str>, strip_until: Option<char>) -> (r:
    Option<String>)
    ensures
        r matches Some(t) ==> normalized_title(raw@, opt_view(artist), strip_until) == Some(t@),
        r is None ==> normalized_title(raw@, opt_view(artist), strip_until) is None,
{
    if normalize_title_is_defined(raw, artist, strip_until) {
        Some(normalize_title(raw, artist, strip_until))
    } else {
        None
    }
}

// ---------------------------------------------------------------------------
// URLs reported by yt-dlp

/// Names what `String::from_utf8_lossy` returns for the given bytes.
pub uninterp spec fn lossy_utf8(bytes: Seq<u8>) -> Seq<char>;

/// `String::from_utf8_lossy`: the bytes decoded as UTF-8, each invalid
/// sequence replaced by U+FFFD. Its documentation promises that valid UTF-8 is
/// decoded as is; what replaces invalid input is only named.
#[verifier::external_body]
fn from_utf8_lossy(bytes: &[u8]) -> (s: String)
    ensures
        s@ == lossy_utf8(bytes@),
        valid_utf8(bytes@) ==> s@ == decode_utf8(bytes@),
{
    String::from_utf8_lossy(bytes).into_owned()
}

/// Why yt-dlp gave no normalized URL.
pub enum UrlOutputError {
    /// yt-dlp failed; its error output, decoded.
    Failed(String),
    /// yt-dlp printed nothing but whitespace.
    Empty,
}

/// The normalized URL that yt-dlp printed: its output decoded and trimmed.
/// A failed run gives its error output; an empty answer is an error too.
pub fn url_from_output(success: bool, stdout: &[u8], stderr: &[u8]) -> (r: Result<
    String,
    UrlOutputError,
>)
    ensures
        !success ==> (r matches Err(UrlOutputError::Failed(e)) && e@ == lossy_utf8(stderr@)),
        success && trim(lossy_utf8(stdout@)).len() == 0 ==> r matches Err(UrlOutputError::Empty),
        success && trim(lossy_utf8(stdout@)).len() > 0 ==> (r matches Ok(u) && u@ == trim(
            lossy_utf8(stdout@),
        )),
{
    if !success {
        return Err(UrlOutputError::Failed(from_utf8_lossy(stderr)));
    }
    let out = from_utf8_lossy(stdout);
    let cleaned = trim_str(out.as_str());
    if cleaned.as_str().is_empty() {
        Err(UrlOutputError::Empty)
    } else {
        Ok(cleaned)
    }
}

// ---------------------------------------------------------------------------
// Laws

/// A cleaned title has its whitespace collapsed already: no leading, trailing
/// or repeated whitespace.
pub proof fn lemma_strip_noise_normalized(s: Seq<char>)
    requires
        stripped_noise(s) is Some,
    ensures
        collapse_ws(stripped_noise(s).unwrap()) == stripped_noise(s).unwrap(),
{
    lemma_collapse_idempotent(noise_removed(s).unwrap());
}

/// When none of `pats` occurs, no removal happens.
proof fn lemma_noise_steps_none(lower: Seq<char>, s: Seq<char>, pats: Seq<Seq<char>>)
    requires
        forall|k: int| 0 <= k < pats.len() ==> !contains_seq(lower, lowercase(#[trigger] pats[k])),
    ensures
        noise_steps(lower, s, pats) == Some(s),
    decreases pats.len(),
{
    if pats.len() > 0 {
        assert forall|k: int| 0 <= k < pats.drop_first().len() implies !contains_seq(
            lower,
            lowercase(#[trigger] pats.drop_first()[k]),
        ) by {
            assert(pats.drop_first()[k] == pats[k + 1]);
        }
        assert(!contains_seq(lower, lowercase(pats[0])));
        lemma_noise_steps_none(lower, s, pats.drop_first());
    }
}

/// A title in which no noise marker occurs only has its whitespace collapsed.
pub proof fn lemma_noise_free(s: Seq<char>)
    requires
        forall|k: int|
            0 <= k < noise_patterns().len() ==> !contains_seq(
                lowercase(s),
                lowercase(#[trigger] noise_patterns()[k]),
            ),
    ensures
        stripped_noise(s) == Some(collapse_ws(s)),
{
    lemma_noise_steps_none(lowercase(s), s, noise_patterns());
}

/// The first piece unlike the artist is one of the pieces.
proof fn lemma_first_unlike_member(parts: Seq<Seq<char>>, al: Seq<char>)
    ensures
        first_unlike(parts, al) matches Some(p) ==> parts.contains(p),
    decreases parts.len(),
{
    if parts.len() > 0 && lowercase(parts[0]) == al {
        lemma_first_unlike_member(parts.drop_first(), al);
        if let Some(p) = first_unlike(parts, al) {
            let j = choose|j: int| 0 <= j < parts.drop_first().len() && parts.drop_first()[j] == p;
            assert(parts[j + 1] == p);
        }
    } else if parts.len() > 0 {
        assert(parts[0] == parts[0]);
    }
}

/// The guessed title is one of the trimmed, non-empty pieces of `s` between
/// `|`, `-` and `:`; it occurs in `s`, is trimmed, holds none of those
/// separators, and is empty exactly when no piece holds anything but
/// whitespace.
pub proof fn lemma_best_guess_part(s: Seq<char>, artist: Option<Seq<char>>)
    ensures
        title_parts(s).len() == 0 ==> best_guess(s, artist).len() == 0,
        title_parts(s).len() > 0 ==> title_parts(s).contains(best_guess(s, artist)),
        forall|i: int|
            0 <= i < best_guess(s, artist).len() ==> !title_seps().contains(
                #[trigger] best_guess(s, artist)[i],
            ),
        contains_seq(s, best_guess(s, artist)),
        trim(best_guess(s, artist)) == best_guess(s, artist),
        best_guess(s, artist).len() == 0 <==> forall|k: int|
            0 <= k < split_by(s, sep_pred(title_seps(), false)).len() ==> trim(
                #[trigger] split_by(s, sep_pred(title_seps(), false))[k],
            ).len() == 0,
{
    let parts = title_parts(s);
    let g = best_guess(s, artist);
    let p = sep_pred(title_seps(), false);
    let pieces = split_by(s, p);
    lemma_non_empty_none(trim_all(pieces));
    assert forall|k: int| 0 <= k < pieces.len() implies (#[trigger] trim_all(pieces)[k]) == trim(
        pieces[k],
    ) by {}
    if (forall|k: int| 0 <= k < pieces.len() ==> trim(#[trigger] pieces[k]).len() == 0) {
        assert forall|k: int| 0 <= k < trim_all(pieces).len() implies (
        #[trigger] trim_all(pieces)[k]).len() == 0 by {
            assert(trim(pieces[k]).len() == 0);
        }
    }
    if parts.len() == 0 {
        assert(s.subrange(0, 0) =~= g);
        assert(occurs_at(s, g, 0));
        assert(trim_end(g) == g);
        assert forall|k: int| 0 <= k < pieces.len() implies trim(#[trigger] pieces[k]).len()
            == 0 by {
            assert(trim_all(pieces)[k].len() == 0);
        }
    }
    if parts.len() > 0 {
        if parts.len() != 1 {
            if let Some(a) = artist {
                lemma_first_unlike_member(parts, lowercase(a));
            }
        }
        assert(parts.contains(g)) by {
            if parts.len() == 1 || g == parts.last() {
                if parts.len() == 1 {
                    assert(parts[0] == g);
                } else {
                    assert(parts[parts.len() - 1] == g);
                }
            }
        }
        // The guess lies in some trimmed piece, whose characters come from a piece.
        lemma_split_pieces(s, p);
        lemma_split_substrings(s, p);
        lemma_non_empty_members(trim_all(pieces));
        let j = choose|j: int| 0 <= j < parts.len() && parts[j] == g;
        let m = choose|m: int| 0 <= m < trim_all(pieces).len() && trim_all(pieces)[m] == parts[j];
        lemma_trim_subrange(pieces[m]);
        let (a0, b0) = choose|a0: int, b0: int|
            0 <= a0 <= b0 <= pieces[m].len() && trim(pieces[m]) == pieces[m].subrange(a0, b0) && (
            forall|k: int| 0 <= k < a0 ==> is_ws(#[trigger] pieces[m][k])) && (forall|k: int|
                b0 <= k < pieces[m].len() ==> is_ws(#[trigger] pieces[m][k]));
        assert forall|i: int| 0 <= i < g.len() implies !title_seps().contains(#[trigger] g[i]) by {
            assert(g[i] == pieces[m][a0 + i]);
            assert(!p(pieces[m][a0 + i]));
        }
        assert(contains_seq(s, pieces[m]));
        let o = choose|o: int| occurs_at(s, pieces[m], o);
        assert(s.subrange(o + a0, o + a0 + g.len()) =~= g) by {
            assert forall|i: int| 0 <= i < g.len() implies s.subrange(o + a0, o + a0 + g.len())[i]
                == g[i] by {
                assert(s[o + a0 + i] == s.subrange(o, o + pieces[m].len())[a0 + i]);
            }
        }
        assert(occurs_at(s, g, o + a0));
        lemma_trim_idempotent(pieces[m]);
        assert(g.len() > 0);
        if forall|k: int| 0 <= k < pieces.len() ==> trim(#[trigger] pieces[k]).len() == 0 {
            assert(trim(pieces[m]).len() == 0);
        }
    }
}

/// Stripping up to a marker that does not occur keeps the title.
pub proof fn lemma_until_last_absent(s: Seq<char>, c: char)
    requires
        !s.contains(c),
    ensures
        until_last(s, c) == s,
{
    if exists|i: int| is_last_index(s, c, i) {
        let i = choose|i: int| is_last_index(s, c, i);
        assert(s[i] == c);
    }
}

/// Stripping up to a marker that occurs before the end leaves no marker.
pub proof fn lemma_until_last_removes_marker(s: Seq<char>, c: char, k: int)
    requires
        is_last_index(s, c, k),
        k + 1 < s.len(),
    ensures
        !until_last(s, c).contains(c),
{
    let q = choose|q: int| is_last_index(s, c, q);
    assert(q == k) by {
        if q < k {
        } else if k < q {
        }
    }
    let rest = s.skip(k + 1);
    lemma_trim_subrange(rest);
    let (a0, b0) = choose|a0: int, b0: int|
        0 <= a0 <= b0 <= rest.len() && trim(rest) == rest.subrange(a0, b0) && (forall|j: int|
            0 <= j < a0 ==> is_ws(#[trigger] rest[j])) && (forall|j: int|
            b0 <= j < rest.len() ==> is_ws(#[trigger] rest[j]));
    let t = until_last(s, c);
    assert forall|i: int| 0 <= i < t.len() implies t[i] != c by {
        assert(t[i] == s[k + 1 + a0 + i]);
    }
}

/// A removal never lengthens the input, in characters or in bytes.
proof fn lemma_removal_shorter(input: Seq<char>, pattern: Seq<char>)
    requires
        removal(input, pattern) is Some,
    ensures
        removal(input, pattern).unwrap().len() <= input.len(),
        byte_len(removal(input, pattern).unwrap()) <= byte_len(input),
{
    let lower = lowercase(input);
    if let Some(k) = find(lower, lowercase(pattern)) {
        let start = byte_len(lower.take(k)) as int;
        let end = start + byte_len(pattern);
        let i = boundary_index(input, start);
        let j = boundary_index(input, end);
        if j < i {
            lemma_byte_len_mono(input, j, i);
        }
        lemma_byte_len_mono(input, i, j);
        lemma_byte_len_concat(input.take(i), input.skip(j));
        lemma_byte_len_concat(input.take(j), input.skip(j));
        assert(input.take(j) + input.skip(j) =~= input);
    }
}

/// Removing markers step by step never lengthens the input.
proof fn lemma_noise_steps_shorter(lower: Seq<char>, s: Seq<char>, pats: Seq<Seq<char>>)
    requires
        noise_steps(lower, s, pats) is Some,
    ensures
        noise_steps(lower, s, pats).unwrap().len() <= s.len(),
        byte_len(noise_steps(lower, s, pats).unwrap()) <= byte_len(s),
    decreases pats.len(),
{
    if pats.len() > 0 {
        if contains_seq(lower, lowercase(pats[0])) {
            lemma_removal_shorter(s, pats[0]);
            lemma_noise_steps_shorter(lower, removal(s, pats[0]).unwrap(), pats.drop_first());
        } else {
            lemma_noise_steps_shorter(lower, s, pats.drop_first());
        }
    }
}

/// The split of titles cuts at `|`, `-` and `:` and at no other character.
proof fn lemma_title_sep_chars(c: char)
    ensures
        sep_pred(title_seps(), false)(c) <==> (c == '|' || c == '-' || c == ':'),
{
    let t = title_seps();
    if c == '|' || c == '-' || c == ':' {
        if c == '|' {
            assert(t[0] == c);
        } else if c == '-' {
            assert(t[1] == c);
        } else {
            assert(t[2] == c);
        }
    }
    if t.contains(c) {
        let k = choose|k: int| 0 <= k < t.len() && t[k] == c;
        assert(k == 0 || k == 1 || k == 2);
    }
}

/// A non-empty guessed title is a stretch of the input between two of the
/// characters `|`, `-`, `:` (or the ends of the input), holding none of them,
/// trimmed: the returned indices delimit that stretch.
pub proof fn lemma_best_guess_span(s: Seq<char>, artist: Option<Seq<char>>) -> (ij: (int, int))
    requires
        best_guess(s, artist).len() > 0,
    ensures
        0 <= ij.0 <= ij.1 <= s.len(),
        ij.0 == 0 || s[ij.0 - 1] == '|' || s[ij.0 - 1] == '-' || s[ij.0 - 1] == ':',
        ij.1 == s.len() || s[ij.1] == '|' || s[ij.1] == '-' || s[ij.1] == ':',
        forall|m: int| ij.0 <= m < ij.1 ==> #[trigger] s[m] != '|' && s[m] != '-' && s[m] != ':',
        best_guess(s, artist) == trim(s.subrange(ij.0, ij.1)),
{
    let g = best_guess(s, artist);
    let p = sep_pred(title_seps(), false);
    let pieces = split_by(s, p);
    let parts = title_parts(s);
    lemma_best_guess_part(s, artist);
    assert(parts.len() > 0);
    lemma_non_empty_members(trim_all(pieces));
    let j = choose|j: int| 0 <= j < parts.len() && parts[j] == g;
    assert(trim_all(pieces).contains(parts[j]));
    let k = choose|k: int| 0 <= k < trim_all(pieces).len() && trim_all(pieces)[k] == parts[j];
    assert(trim_all(pieces)[k] == trim(pieces[k]));
    let (i, e) = lemma_split_span(s, p, k);
    lemma_split_pieces(s, p);
    if i > 0 {
        lemma_title_sep_chars(s[i - 1]);
    }
    if e < s.len() {
        lemma_title_sep_chars(s[e]);
    }
    assert forall|m: int| i <= m < e implies #[trigger] s[m] != '|' && s[m] != '-' && s[m] != ':' by {
        assert(pieces[k][m - i] == s[m]);
        assert(!p(pieces[k][m - i]));
        lemma_title_sep_chars(s[m]);
    }
    (i, e)
}

/// "Artist - Title" with one `-` and no `|` or `:`: with no artist, or an
/// artist equal, up to case, to the first piece, the guess is the trimmed
/// second piece; with another artist it is the trimmed first piece ("Title -
/// Artist"); either way the piece is kept whole, whatever other characters it
/// holds.
pub proof fn lemma_best_guess_two_pieces(a: Seq<char>, b: Seq<char>, artist: Option<Seq<char>>)
    requires
        forall|i: int| 0 <= i < a.len() ==> #[trigger] a[i] != '|' && a[i] != '-' && a[i] != ':',
        forall|i: int| 0 <= i < b.len() ==> #[trigger] b[i] != '|' && b[i] != '-' && b[i] != ':',
        trim(a).len() > 0,
        trim(b).len() > 0,
    ensures
        artist is None ==> best_guess(a + seq!['-'] + b, artist) == trim(b),
        artist matches Some(x) ==> best_guess(a + seq!['-'] + b, artist) == if lowercase(x)
            == lowercase(trim(a)) {
            trim(b)
        } else {
            trim(a)
        },
{
    let p = sep_pred(title_seps(), false);
    lemma_title_sep_chars('-');
    assert forall|i: int| 0 <= i < a.len() implies !p(#[trigger] a[i]) by {
        lemma_title_sep_chars(a[i]);
    }
    assert forall|i: int| 0 <= i < b.len() implies !p(#[trigger] b[i]) by {
        lemma_title_sep_chars(b[i]);
    }
    lemma_split_no_sep(a, p);
    lemma_split_no_sep(b, p);
    lemma_split_concat(a, '-', b, p);
    let s = a + seq!['-'] + b;
    assert(split_by(s, p) =~= seq![a, b]);
    let ta = trim(a);
    let tb = trim(b);
    assert(trim_all(split_by(s, p)) =~= seq![ta, tb]);
    assert(seq![ta, tb].drop_last() =~= seq![ta]);
    assert(seq![ta].drop_last() =~= Seq::<Seq<char>>::empty());
    assert(non_empty(Seq::<Seq<char>>::empty()) =~= Seq::<Seq<char>>::empty());
    assert(non_empty(seq![ta]) =~= seq![ta]);
    assert(non_empty(seq![ta, tb]) =~= seq![ta, tb]);
    let parts = title_parts(s);
    assert(parts =~= seq![ta, tb]);
    if let Some(x) = artist {
        assert(parts.drop_first() =~= seq![tb]);
        if lowercase(ta) != lowercase(x) {
            assert(first_unlike(parts, lowercase(x)) == Some(ta));
        }
        assert(seq![tb].drop_first() =~= Seq::<Seq<char>>::empty());
        if lowercase(tb) != lowercase(x) {
            assert(first_unlike(seq![tb], lowercase(x)) == Some(tb));
        } else {
            assert(first_unlike(Seq::<Seq<char>>::empty(), lowercase(x)) is None);
            assert(first_unlike(seq![tb], lowercase(x)) is None);
        }
        if lowercase(ta) == lowercase(x) {
            assert(first_unlike(parts, lowercase(x)) == first_unlike(seq![tb], lowercase(x)));
        }
    }
}

/// A title without `|`, `-` or `:` that is not blank is its own guess,
/// trimmed, whatever the artist.
pub proof fn lemma_best_guess_single(s: Seq<char>, artist: Option<Seq<char>>)
    requires
        forall|i: int| 0 <= i < s.len() ==> #[trigger] s[i] != '|' && s[i] != '-' && s[i] != ':',
        trim(s).len() > 0,
    ensures
        best_guess(s, artist) == trim(s),
{
    let p = sep_pred(title_seps(), false);
    assert forall|i: int| 0 <= i < s.len() implies !p(#[trigger] s[i]) by {
        lemma_title_sep_chars(s[i]);
    }
    lemma_split_no_sep(s, p);
    assert(trim_all(seq![s]) =~= seq![trim(s)]);
    assert(seq![trim(s)].drop_last() =~= Seq::<Seq<char>>::empty());
    assert(non_empty(Seq::<Seq<char>>::empty()) =~= Seq::<Seq<char>>::empty());
    assert(non_empty(seq![trim(s)]) =~= seq![trim(s)]);
}

// ---------------------------------------------------------------------------
// Noise markers on ASCII titles

/// An ASCII capital letter.
pub open spec fn is_ascii_upper(c: char) -> bool {
    65 <= c as u32 <= 90
}

/// Every character of `s` is ASCII.
pub open spec fn is_ascii(s: Seq<char>) -> bool {
    forall|i: int| 0 <= i < s.len() ==> ((#[trigger] s[i]) as u32) < 0x80
}

/// `l` is `t` with each ASCII capital letter replaced by its small letter and
/// every other character kept.
pub open spec fn ascii_lowered(t: Seq<char>, l: Seq<char>) -> bool {
    &&& l.len() == t.len()
    &&& forall|i: int|
        0 <= i < t.len() ==> if is_ascii_upper(#[trigger] t[i]) {
            l[i] as u32 == t[i] as u32 + 32
        } else {
            l[i] == t[i]
        }
}

/// `str::to_lowercase` lowercases ASCII text letter by letter: the Unicode
/// `Lowercase` mapping, by which std defines it, takes `A`..`Z` to `a`..`z`
/// and leaves every other ASCII character as it is.
pub open spec fn lowercase_is_ascii_on_ascii() -> bool {
    forall|t: Seq<char>| #![trigger lowercase(t)] is_ascii(t) ==> ascii_lowered(t, lowercase(t))
}

/// `v` is `m` with some of its small letters written as capitals.
pub open spec fn case_variant(v: Seq<char>, m: Seq<char>) -> bool {
    &&& v.len() == m.len()
    &&& forall|i: int|
        0 <= i < m.len() ==> #[trigger] v[i] == m[i] || (97 <= m[i] as u32 <= 122 && v[i] as u32
            + 32 == m[i] as u32)
}

spec fn opens(c: char) -> bool {
    c == '(' || c == '['
}

spec fn closes(c: char) -> bool {
    c == ')' || c == ']'
}

/// A marker opens with a bracket, closes with one, holds no other bracket,
/// and is ASCII without capitals.
spec fn marker_shape(m: Seq<char>) -> bool {
    &&& m.len() >= 2
    &&& opens(m[0])
    &&& closes(m[m.len() - 1])
    &&& forall|i: int| 0 < i < m.len() - 1 ==> !opens(#[trigger] m[i]) && !closes(m[i])
    &&& forall|i: int| 0 <= i < m.len() ==> ((#[trigger] m[i]) as u32) < 0x80 && !is_ascii_upper(m[i])
}

proof fn lemma_marker_shapes()
    ensures
        forall|k: int| 0 <= k < noise_patterns().len() ==> marker_shape(#[trigger] noise_patterns()[k]),
{
    reveal_strlit("(official audio)");
    reveal_strlit("(official video)");
    reveal_strlit("(official music video)");
    reveal_strlit("[official audio]");
    reveal_strlit("[official video]");
    reveal_strlit("[lyrics]");
    reveal_strlit("(lyrics)");
    assert(marker_shape("(official audio)"@));
    assert(marker_shape("(official video)"@));
    assert(marker_shape("(official music video)"@));
    assert(marker_shape("[official audio]"@));
    assert(marker_shape("[official video]"@));
    assert(marker_shape("[lyrics]"@));
    assert(marker_shape("(lyrics)"@));
}

/// ASCII text takes one byte per character.
proof fn lemma_ascii_byte_len(t: Seq<char>)
    requires
        is_ascii(t),
    ensures
        byte_len(t) == t.len(),
    decreases t.len(),
{
    if t.len() > 0 {
        let d = t.drop_last();
        assert forall|i: int| 0 <= i < d.len() implies ((#[trigger] d[i]) as u32) < 0x80 by {
            assert(d[i] == t[i]);
        }
        lemma_ascii_byte_len(d);
        assert((t[t.len() - 1] as u32) < 0x80);
    }
}

/// Once `w` is reached, markers that occur in `lower` only if they are `m`,
/// which leaves `w` as it is, change nothing more.
proof fn lemma_steps_fixed(lower: Seq<char>, w: Seq<char>, m: Seq<char>, pats: Seq<Seq<char>>)
    requires
        forall|k: int|
            0 <= k < pats.len() && contains_seq(lower, lowercase(#[trigger] pats[k])) ==> pats[k]
                == m,
        removal(w, m) == Some(w),
    ensures
        noise_steps(lower, w, pats) == Some(w),
    decreases pats.len(),
{
    if pats.len() > 0 {
        let rest = pats.drop_first();
        assert forall|k: int|
            0 <= k < rest.len() && contains_seq(lower, lowercase(#[trigger] rest[k])) implies rest[k]
            == m by {
            assert(rest[k] == pats[k + 1]);
        }
        lemma_steps_fixed(lower, w, m, rest);
        if contains_seq(lower, lowercase(pats[0])) {
            assert(pats[0] == m);
        }
    }
}

/// When `m` is among the markers and is the only one that occurs in `lower`,
/// the steps remove `m` from `s` once and end at `w`.
proof fn lemma_steps_once(
    lower: Seq<char>,
    s: Seq<char>,
    w: Seq<char>,
    m: Seq<char>,
    pats: Seq<Seq<char>>,
)
    requires
        forall|k: int|
            0 <= k < pats.len() && contains_seq(lower, lowercase(#[trigger] pats[k])) ==> pats[k]
                == m,
        contains_seq(lower, lowercase(m)),
        removal(s, m) == Some(w),
        removal(w, m) == Some(w),
        pats.contains(m),
    ensures
        noise_steps(lower, s, pats) == Some(w),
    decreases pats.len(),
{
    let rest = pats.drop_first();
    assert forall|k: int|
        0 <= k < rest.len() && contains_seq(lower, lowercase(#[trigger] rest[k])) implies rest[k]
        == m by {
        assert(rest[k] == pats[k + 1]);
    }
    if pats[0] == m {
        lemma_steps_fixed(lower, w, m, rest);
    } else {
        let k = choose|k: int| 0 <= k < pats.len() && pats[k] == m;
        assert(rest[k - 1] == m);
        lemma_steps_once(lower, s, w, m, rest);
    }
}

/// Two characters with the same code are the same character.
proof fn lemma_char_code(a: char, b: char)
    requires
        a as u32 == b as u32,
    ensures
        a == b,
{
    vstd::utf8::char_u32_cast(a, a as u32);
    vstd::utf8::char_u32_cast(b, b as u32);
}

/// The lowercase of ASCII text without `(` or `[` followed by a case variant
/// of a marker: no opening bracket before the marker, and the marker itself
/// in small letters after it.
proof fn lemma_marked_lowercase(w: Seq<char>, m: Seq<char>, v: Seq<char>)
    requires
        lowercase_is_ascii_on_ascii(),
        marker_shape(m),
        case_variant(v, m),
        is_ascii(w),
        forall|i: int| 0 <= i < w.len() ==> #[trigger] w[i] != '(' && w[i] != '[',
    ensures
        is_ascii(w + v),
        lowercase(w + v).len() == w.len() + m.len(),
        forall|j: int| 0 <= j < w.len() ==> !opens(#[trigger] lowercase(w + v)[j]),
        lowercase(w + v).subrange(w.len() as int, (w.len() + m.len()) as int) == m,
        is_ascii(lowercase(w + v)),
{
    let n = w.len() as int;
    let s = w + v;
    assert forall|i: int| 0 <= i < s.len() implies ((#[trigger] s[i]) as u32) < 0x80 by {
        if i < n {
            assert(s[i] == w[i]);
        } else {
            assert(s[i] == v[i - n]);
            assert((m[i - n] as u32) < 0x80);
        }
    }
    let lo = lowercase(s);
    assert(ascii_lowered(s, lo));
    assert forall|j: int| 0 <= j < n implies !opens(#[trigger] lo[j]) && (lo[j] as u32) < 0x80 by {
        assert(s[j] == w[j]);
        if is_ascii_upper(s[j]) {
            assert(lo[j] as u32 == s[j] as u32 + 32);
        } else {
            assert(lo[j] == w[j]);
        }
    }
    assert forall|j: int| 0 <= j < m.len() implies #[trigger] lo[n + j] == m[j] by {
        assert(s[n + j] == v[j]);
        if v[j] == m[j] {
            assert(!is_ascii_upper(m[j]));
        } else {
            assert(is_ascii_upper(s[n + j]));
            lemma_char_code(lo[n + j], m[j]);
        }
    }
    assert(lo.subrange(n, n + m.len()) =~= m) by {
        assert forall|j: int| 0 <= j < m.len() implies lo.subrange(n, n + m.len())[j] == m[j] by {
            assert(lo[n + j] == m[j]);
        }
    }
    assert forall|i: int| 0 <= i < lo.len() implies ((#[trigger] lo[i]) as u32) < 0x80 by {
        if i < n {
            assert((lo[i] as u32) < 0x80);
        } else {
            assert(lo[n + (i - n)] == m[i - n]);
        }
    }
}

/// In such a lowercase title, a marker occurs only if it is `m`.
proof fn lemma_only_marker(lo: Seq<char>, n: int, m: Seq<char>, q: Seq<char>)
    requires
        marker_shape(m),
        marker_shape(q),
        0 <= n,
        lo.len() == n + m.len(),
        forall|j: int| 0 <= j < n ==> !opens(#[trigger] lo[j]),
        lo.subrange(n, n + m.len()) == m,
        contains_seq(lo, q),
    ensures
        q == m,
{
    let i = choose|i: int| occurs_at(lo, q, i);
    assert(lo.subrange(i, i + q.len())[0] == lo[i]);
    assert(opens(lo[i]));
    assert(i >= n);
    assert(lo.subrange(n, n + m.len())[i - n] == lo[i]);
    assert(i == n);
    let e = q.len() - 1;
    assert(lo.subrange(i, i + q.len())[e] == lo[n + e]);
    assert(lo.subrange(n, n + m.len())[e] == lo[n + e]);
    assert(e == m.len() - 1);
    assert forall|j: int| 0 <= j < q.len() implies q[j] == m[j] by {
        assert(lo.subrange(i, i + q.len())[j] == lo[n + j]);
        assert(lo.subrange(n, n + m.len())[j] == lo[n + j]);
    }
    assert(q =~= m);
}

/// Cutting the marker out of `w + v`, found right after `w` in the
/// lowercase, leaves `w`; cutting it out of `w` leaves `w`.
proof fn lemma_marker_removed(w: Seq<char>, m: Seq<char>, v: Seq<char>)
    requires
        lowercase_is_ascii_on_ascii(),
        marker_shape(m),
        lowercase(m) == m,
        case_variant(v, m),
        is_ascii(w),
        forall|i: int| 0 <= i < w.len() ==> #[trigger] w[i] != '(' && w[i] != '[',
    ensures
        removal(w + v, m) == Some(w),
        removal(w, m) == Some(w),
        contains_seq(lowercase(w + v), m),
{
    let n = w.len() as int;
    let s = w + v;
    lemma_marked_lowercase(w, m, v);
    let lo = lowercase(s);
    assert(occurs_at(lo, m, n));
    assert forall|j: int| 0 <= j < n implies !occurs_at(lo, m, j) by {
        if occurs_at(lo, m, j) {
            assert(lo.subrange(j, j + m.len())[0] == lo[j]);
        }
    }
    assert(is_first_occurrence(lo, m, n));
    lemma_find_some(lo, m, n);
    assert(is_ascii(lo.take(n))) by {
        assert forall|i: int| 0 <= i < lo.take(n).len() implies ((#[trigger] lo.take(n)[i]) as u32)
            < 0x80 by {
            assert(lo.take(n)[i] == lo[i]);
        }
    }
    lemma_ascii_byte_len(lo.take(n));
    assert(is_ascii(s.take(n))) by {
        assert forall|i: int| 0 <= i < s.take(n).len() implies ((#[trigger] s.take(n)[i]) as u32)
            < 0x80 by {
            assert(s.take(n)[i] == s[i]);
        }
    }
    lemma_ascii_byte_len(s.take(n));
    assert(is_ascii(m));
    lemma_ascii_byte_len(m);
    assert(s.take(s.len() as int) =~= s);
    lemma_ascii_byte_len(s);
    lemma_boundary_index(s, n);
    lemma_boundary_index(s, s.len() as int);
    assert(is_boundary(s, n));
    assert(is_boundary(s, s.len() as int));
    assert(s.take(n) + s.skip(s.len() as int) =~= w);
    // The marker does not occur in the lowercase of `w`.
    let lw = lowercase(w);
    assert(ascii_lowered(w, lw));
    assert forall|j: int| 0 <= j < lw.len() implies !opens(#[trigger] lw[j]) by {
        if is_ascii_upper(w[j]) {
            assert(lw[j] as u32 == w[j] as u32 + 32);
        } else {
            assert(lw[j] == w[j]);
        }
    }
    assert forall|j: int| !is_first_occurrence(lw, m, j) by {
        if is_first_occurrence(lw, m, j) {
            assert(lw.subrange(j, j + m.len())[0] == lw[j]);
        }
    }
}

/// A title made of ASCII text without `(` or `[`, followed by one of the
/// markers "(official audio)", "(official video)", "(official music video)",
/// "[official audio]", "[official video]", "[lyrics]" or "(lyrics)" in any
/// mix of ASCII cases, is cleaned to the words of the text joined by single
/// spaces. The law rests on `str::to_lowercase` lowercasing ASCII text letter
/// by letter, which is its first requirement.
pub proof fn lemma_strip_noise_marker(w: Seq<char>, m: Seq<char>, v: Seq<char>)
    requires
        lowercase_is_ascii_on_ascii(),
        m == "(official audio)"@ || m == "(official video)"@ || m == "(official music video)"@ || m
            == "[official audio]"@ || m == "[official video]"@ || m == "[lyrics]"@ || m
            == "(lyrics)"@,
        case_variant(v, m),
        is_ascii(w),
        forall|i: int| 0 <= i < w.len() ==> #[trigger] w[i] != '(' && w[i] != '[',
    ensures
        stripped_noise(w + v) == Some(collapse_ws(w)),
{
    let pats = noise_patterns();
    lemma_marker_shapes();
    let idx: int = if m == "(official audio)"@ {
        0
    } else if m == "(official video)"@ {
        1
    } else if m == "(official music video)"@ {
        2
    } else if m == "[official audio]"@ {
        3
    } else if m == "[official video]"@ {
        4
    } else if m == "[lyrics]"@ {
        5
    } else {
        6
    };
    assert(pats[idx] == m);
    assert(marker_shape(m));
    // Each marker is its own lowercase.
    assert forall|k: int| 0 <= k < pats.len() implies lowercase(#[trigger] pats[k]) == pats[k] by {
        let q = pats[k];
        assert(marker_shape(q));
        assert(ascii_lowered(q, lowercase(q)));
        assert(lowercase(q) =~= q);
    }
    assert(lowercase(m) == m);
    lemma_marked_lowercase(w, m, v);
    lemma_marker_removed(w, m, v);
    let lo = lowercase(w + v);
    let n = w.len() as int;
    assert forall|k: int|
        0 <= k < pats.len() && contains_seq(lo, lowercase(#[trigger] pats[k])) implies pats[k]
        == m by {
        lemma_only_marker(lo, n, m, pats[k]);
    }
    assert(pats.contains(m));
    lemma_steps_once(lo, w + v, w, m, pats);
}

/// A cleaned title is trimmed, its only whitespace is single spaces between
/// words, and it is no longer than the title, in characters or in bytes.
pub proof fn lemma_strip_noise_shape(s: Seq<char>)
    requires
        stripped_noise(s) is Some,
    ensures
        trim(stripped_noise(s).unwrap()) == stripped_noise(s).unwrap(),
        is_collapsed(stripped_noise(s).unwrap()),
        stripped_noise(s).unwrap().len() <= s.len(),
        byte_len(stripped_noise(s).unwrap()) <= byte_len(s),
{
    lemma_noise_steps_shorter(lowercase(s), s, noise_patterns());
    lemma_collapse_shorter(noise_removed(s).unwrap());
    lemma_collapse_shape(noise_removed(s).unwrap());
}

} // verus!
