//! Entries to download: parsing of "url | title | artist" lines, the lines of
//! an input file, and the listing printed before the downloads start.

use vstd::prelude::*;
use crate::text::{
    chars_of, keep_non_empty, lemma_split_concat, lemma_split_no_sep, lemma_split_nonempty,
    non_empty, opt_string_view, sep_pred, split_by, split_chars, string_from, string_views,
    strings_from, trim, trim_all, trim_each, views, lemma_non_empty_members,
    lemma_trim_idempotent,
};

verus! {

/// A URL to download, with the title, artist and album that override what
/// the video's metadata would give.
pub struct UrlEntry {
    pub url: String,
    pub title: Option<String>,
    pub artist: Option<String>,
    pub album: Option<String>,
}

/// The plain value of a `UrlEntry`.
pub struct EntryView {
    pub url: Seq<char>,
    pub title: Option<Seq<char>>,
    pub artist: Option<Seq<char>>,
    pub album: Option<Seq<char>>,
}

impl View for UrlEntry {
    type V = EntryView;

    open spec fn view(&self) -> EntryView {
        EntryView {
            url: self.url@,
            title: opt_string_view(self.title),
            artist: opt_string_view(self.artist),
            album: opt_string_view(self.album),
        }
    }
}

/// The views of a sequence of entries.
pub open spec fn entry_views(v: Seq<UrlEntry>) -> Seq<EntryView> {
    v.map_values(|e: UrlEntry| e@)
}

/// A copy of an optional string.
pub fn copy_opt(o: &Option<String>) -> (r: Option<String>)
    ensures
        opt_string_view(r) == opt_string_view(*o),
{
    match o {
        Some(s) => Some(s.clone()),
        None => None,
    }
}

impl UrlEntry {
    /// A copy of this entry.
    pub fn copy(&self) -> (r: UrlEntry)
        ensures
            r@ == self@,
    {
        UrlEntry {
            url: self.url.clone(),
            title: copy_opt(&self.title),
            artist: copy_opt(&self.artist),
            album: copy_opt(&self.album),
        }
    }
}

/// The separator of override lines: `|`.
pub open spec fn override_sep() -> spec_fn(char) -> bool {
    sep_pred(seq!['|'], false)
}

/// The piece at index `i`, when there is one and it is not empty.
pub open spec fn field_at(parts: Seq<Seq<char>>, i: int) -> Option<Seq<char>> {
    if 0 <= i < parts.len() && parts[i].len() > 0 {
        Some(parts[i])
    } else {
        None
    }
}

/// What an override line "url | title | artist" gives: the trimmed pieces
/// between `|`; the first is the URL, the second and third the title and the
/// artist when they are not empty; further pieces are ignored.
pub open spec fn parsed_override(line: Seq<char>) -> EntryView {
    let parts = trim_all(split_by(line, override_sep()));
    EntryView {
        url: parts[0],
        title: field_at(parts, 1),
        artist: field_at(parts, 2),
        album: None,
    }
}

/// Parses a line "url | title | artist" of an input file.
pub fn parse_override_line(line: &str) -> (r: UrlEntry)
    ensures
        r@ == parsed_override(line@),
{
    let v = chars_of(line);
    let mut seps: Vec<char> = Vec::new();
    seps.push('|');
    assert(seps@ =~= seq!['|']);
    let pieces = split_chars(v.as_slice(), seps.as_slice(), false);
    proof {
        lemma_split_nonempty(v@, override_sep());
    }
    let parts = trim_each(&pieces);
    let ghost ps = views(parts@);
    assert(ps == trim_all(split_by(line@, override_sep())));
    let url = string_from(parts[0].as_slice());
    let title = if parts.len() > 1 && parts[1].len() > 0 {
        Some(string_from(parts[1].as_slice()))
    } else {
        None
    };
    let artist = if parts.len() > 2 && parts[2].len() > 0 {
        Some(string_from(parts[2].as_slice()))
    } else {
        None
    };
    UrlEntry { url, title, artist, album: None }
}

/// Each of `u`, `t`, `a` holds no `|`.
pub open spec fn no_pipe(s: Seq<char>) -> bool {
    forall|i: int| 0 <= i < s.len() ==> s[i] != '|'
}

/// A line "url | title | artist" gives back its three fields, trimmed, the
/// title and the artist only when they are not empty.
pub proof fn lemma_override_fields(u: Seq<char>, t: Seq<char>, a: Seq<char>)
    requires
        no_pipe(u),
        no_pipe(t),
        no_pipe(a),
    ensures
        parsed_override(u + seq!['|'] + t + seq!['|'] + a) == (EntryView {
            url: trim(u),
            title: if trim(t).len() > 0 {
                Some(trim(t))
            } else {
                None
            },
            artist: if trim(a).len() > 0 {
                Some(trim(a))
            } else {
                None
            },
            album: None,
        }),
{
    let p = override_sep();
    assert(p('|')) by {
        assert(seq!['|'][0] == '|');
    }
    lemma_no_pipe_split(u);
    lemma_no_pipe_split(t);
    lemma_no_pipe_split(a);
    lemma_split_concat(u + seq!['|'] + t, '|', a, p);
    lemma_split_concat(u, '|', t, p);
    let parts = split_by(u + seq!['|'] + t + seq!['|'] + a, p);
    assert(parts =~= seq![u, t, a]);
    assert(trim_all(parts) =~= seq![trim(u), trim(t), trim(a)]);
}

/// A line without `|` is a URL alone, trimmed.
pub proof fn lemma_override_url_only(u: Seq<char>)
    requires
        no_pipe(u),
    ensures
        parsed_override(u) == (EntryView { url: trim(u), title: None, artist: None, album: None }),
{
    lemma_no_pipe_split(u);
    assert(trim_all(split_by(u, override_sep())) =~= seq![trim(u)]);
}

/// A line "url | title" gives the URL and the title, trimmed, the title only
/// when it is not empty, and no artist.
pub proof fn lemma_override_title_only(u: Seq<char>, t: Seq<char>)
    requires
        no_pipe(u),
        no_pipe(t),
    ensures
        parsed_override(u + seq!['|'] + t) == (EntryView {
            url: trim(u),
            title: if trim(t).len() > 0 {
                Some(trim(t))
            } else {
                None
            },
            artist: None,
            album: None,
        }),
{
    let p = override_sep();
    assert(p('|')) by {
        assert(seq!['|'][0] == '|');
    }
    lemma_no_pipe_split(u);
    lemma_no_pipe_split(t);
    lemma_split_concat(u, '|', t, p);
    let parts = split_by(u + seq!['|'] + t, p);
    assert(parts =~= seq![u, t]);
    assert(trim_all(parts) =~= seq![trim(u), trim(t)]);
}

/// Pieces after the third are ignored: a line "url | title | artist | ..."
/// gives the same URL, title and artist whatever follows the third `|`.
pub proof fn lemma_override_extra_fields(u: Seq<char>, t: Seq<char>, a: Seq<char>, rest: Seq<char>)
    requires
        no_pipe(u),
        no_pipe(t),
        no_pipe(a),
    ensures
        parsed_override(u + seq!['|'] + t + seq!['|'] + a + seq!['|'] + rest) == (EntryView {
            url: trim(u),
            title: if trim(t).len() > 0 {
                Some(trim(t))
            } else {
                None
            },
            artist: if trim(a).len() > 0 {
                Some(trim(a))
            } else {
                None
            },
            album: None,
        }),
{
    let p = override_sep();
    assert(p('|')) by {
        assert(seq!['|'][0] == '|');
    }
    lemma_no_pipe_split(u);
    lemma_no_pipe_split(t);
    lemma_no_pipe_split(a);
    let head = u + seq!['|'] + t + seq!['|'] + a;
    lemma_split_concat(head, '|', rest, p);
    lemma_split_concat(u + seq!['|'] + t, '|', a, p);
    lemma_split_concat(u, '|', t, p);
    lemma_split_nonempty(rest, p);
    let parts = split_by(head + seq!['|'] + rest, p);
    assert(split_by(head, p) =~= seq![u, t, a]);
    assert(parts.len() >= 4);
    assert(parts[0] == u && parts[1] == t && parts[2] == a);
    let tp = trim_all(parts);
    assert(tp[0] == trim(u) && tp[1] == trim(t) && tp[2] == trim(a));
}

/// Splitting a sequence without `|` at `|` gives the sequence alone.
proof fn lemma_no_pipe_split(s: Seq<char>)
    requires
        no_pipe(s),
    ensures
        split_by(s, override_sep()) == seq![s],
{
    let p = override_sep();
    assert forall|i: int| 0 <= i < s.len() implies !p(#[trigger] s[i]) by {
        assert(s[i] != '|');
        if seq!['|'].contains(s[i]) {
            let k = choose|k: int| 0 <= k < 1 && seq!['|'][k] == s[i];
            assert(seq!['|'][k] == '|');
        }
    }
    lemma_split_no_sep(s, p);
}

/// The lines of a file, each trimmed, the empty ones left out. Splitting at
/// `\n` and trimming gives what `str::lines` and trimming give: `lines` also
/// drops a `\r` before each `\n`, which trimming removes anyway.
pub open spec fn non_empty_lines(content: Seq<char>) -> Seq<Seq<char>> {
    non_empty(trim_all(split_by(content, sep_pred(seq!['\n'], false))))
}

/// The trimmed, non-empty lines of `content`.
pub fn trimmed_lines(content: &str) -> (r: Vec<String>)
    ensures
        string_views(r@) == non_empty_lines(content@),
{
    let v = chars_of(content);
    let mut seps: Vec<char> = Vec::new();
    seps.push('\n');
    assert(seps@ =~= seq!['\n']);
    let pieces = split_chars(v.as_slice(), seps.as_slice(), false);
    let trimmed = trim_each(&pieces);
    let kept = keep_non_empty(&trimmed);
    strings_from(&kept)
}

/// A field of the listing: the value, or `?` when there is none.
pub open spec fn or_unknown(o: Option<Seq<char>>) -> Seq<char> {
    match o {
        Some(s) => s,
        None => "?"@,
    }
}

/// The listing line of one entry: "title - artist (url)" and a newline.
pub open spec fn entry_line(e: EntryView) -> Seq<char> {
    or_unknown(e.title) + " - "@ + or_unknown(e.artist) + " ("@ + e.url + ")"@ + "\n"@
}

/// The listing of `entries`: one line each, in order.
pub open spec fn listing(entries: Seq<EntryView>) -> Seq<char>
    decreases entries.len(),
{
    if entries.len() == 0 {
        Seq::<char>::empty()
    } else {
        listing(entries.drop_last()) + entry_line(entries.last())
    }
}

/// A listing of entries for display.
pub trait EntryList {
    /// One line "title - artist (url)" per entry, with `?` for a missing field.
    fn list_entries(&self) -> String;
}

/// Appends a field of the listing: the value, or `?`.
fn push_field(out: &mut String, o: &Option<String>)
    ensures
        final(out)@ == old(out)@ + or_unknown(opt_string_view(*o)),
{
    match o {
        Some(s) => out.append(s.as_str()),
        None => out.append("?"),
    }
}

impl EntryList for [UrlEntry] {
    fn list_entries(&self) -> (r: String)
        ensures
            r@ == listing(entry_views(self@)),
    {
        let ghost es = entry_views(self@);
        let mut result = String::new();
        let n = self.len();
        assert(es.take(0).len() == 0);
        for i in 0..n
            invariant
                n == self@.len(),
                es == entry_views(self@),
                result@ == listing(es.take(i as int)),
        {
            let e = &self[i];
            let ghost before = result@;
            push_field(&mut result, &e.title);
            result.append(" - ");
            push_field(&mut result, &e.artist);
            result.append(" (");
            result.append(e.url.as_str());
            result.append(")");
            result.append("\n");
            assert(es.take(i + 1).drop_last() =~= es.take(i as int));
            assert(es.take(i + 1).last() == e@);
            assert(result@ =~= before + entry_line(e@));
        }
        assert(es.take(n as int) =~= es);
        result
    }
}

/// The lines read from a file are non-empty and trimmed.
pub proof fn lemma_lines_trimmed(content: Seq<char>)
    ensures
        forall|k: int|
            0 <= k < non_empty_lines(content).len() ==> (#[trigger] non_empty_lines(content)[k]).len()
                > 0 && trim(non_empty_lines(content)[k]) == non_empty_lines(content)[k],
{
    let pieces = split_by(content, sep_pred(seq!['\n'], false));
    let t = trim_all(pieces);
    lemma_non_empty_members(t);
    assert forall|k: int| 0 <= k < non_empty_lines(content).len() implies (
    #[trigger] non_empty_lines(content)[k]).len() > 0 && trim(non_empty_lines(content)[k])
        == non_empty_lines(content)[k] by {
        let l = non_empty_lines(content)[k];
        let j = choose|j: int| 0 <= j < t.len() && t[j] == l;
        lemma_trim_idempotent(pieces[j]);
    }
}

} // verus!
