//! The decisions of a download run: which entries to download, which of
//! them are duplicates, and which artist, title and file name a track gets.

use vstd::prelude::*;
use crate::file_overrides::{entry_views, parse_override_line, parsed_override, copy_opt, EntryView, UrlEntry};
use crate::text::{opt_string_view, string_views};
use crate::video::{VideoInfo, VideoView};
use crate::args::{sanitize, sanitized};
use crate::normalization::{
    normalize_title, normalize_title_is_defined, normalized_title, strip_noise,
    strip_noise_is_defined, stripped_noise,
};

verus! {

/// Options of the downloader.
pub struct DownloaderArgs {
    /// YouTube URL
    pub url: Option<String>,
    /// Override artist
    pub artist: Option<String>,
    /// Override title
    pub title: Option<String>,
    /// Album given to every track
    pub album: Option<String>,
    /// Output directory
    pub output: String,
    /// File to read urls from
    pub input_file: Option<String>,
    /// Strips anything before this character for titles; does not affect the artist
    pub strip_until: Option<char>,
    /// Parse the input file as "url | title | artist" per line
    pub file_overrides: bool,
    /// Suppress yt-dlp output and process info; errors are still shown
    pub no_verbose: bool,
    /// Maximum number of threads; at least one when given
    pub threads: Option<usize>,
}

/// Why no entries could be generated.
pub enum EntryError {
    /// Neither a URL nor an input file was given.
    NoSource,
}

/// The entry that a line of the input file gives: with overrides, the parsed
/// line; otherwise the line as URL with the title, artist and album of the
/// options.
pub open spec fn entry_from_line(args: DownloaderArgs, line: Seq<char>) -> EntryView {
    if args.file_overrides {
        parsed_override(line)
    } else {
        EntryView {
            url: line,
            title: opt_string_view(args.title),
            artist: opt_string_view(args.artist),
            album: opt_string_view(args.album),
        }
    }
}

/// The entries that the lines of the input file give, in order.
pub open spec fn entries_from_lines(args: DownloaderArgs, lines: Seq<Seq<char>>) -> Seq<EntryView> {
    lines.map_values(|l: Seq<char>| entry_from_line(args, l))
}

/// Generates the entries to download: one per line of the input file when
/// there is one (`file_lines` holds its trimmed, non-empty lines), else the
/// single URL without overrides, else an error.
pub fn generate_entries(args: &DownloaderArgs, file_lines: Option<Vec<String>>) -> (r: Result<
    Vec<UrlEntry>,
    EntryError,
>)
    requires
        args.input_file is Some ==> file_lines is Some,
    ensures
        args.input_file is Some ==> (r matches Ok(v) && entry_views(v@) == entries_from_lines(
            *args,
            string_views(file_lines.unwrap()@),
        )),
        args.input_file is None && args.url is Some ==> (r matches Ok(v) && entry_views(v@)
            == seq![
            EntryView { url: args.url.unwrap()@, title: None, artist: None, album: None },
        ]),
        args.input_file is None && args.url is None ==> r matches Err(EntryError::NoSource),
{
    if args.input_file.is_some() {
        let lines = match file_lines {
            Some(l) => l,
            None => Vec::new(),
        };
        let ghost ls = string_views(lines@);
        let mut entries: Vec<UrlEntry> = Vec::new();
        let n = lines.len();
        assert(entry_views(entries@) =~= entries_from_lines(*args, ls).take(0));
        for i in 0..n
            invariant
                n == lines@.len(),
                ls == string_views(lines@),
                entries@.len() == i,
                entry_views(entries@) == entries_from_lines(*args, ls).take(i as int),
        {
            let line = &lines[i];
            let e = if args.file_overrides {
                parse_override_line(line.as_str())
            } else {
                UrlEntry {
                    url: line.clone(),
                    title: copy_opt(&args.title),
                    artist: copy_opt(&args.artist),
                    album: copy_opt(&args.album),
                }
            };
            assert(ls[i as int] == line@);
            assert(e@ == entry_from_line(*args, ls[i as int]));
            let ghost before = entries@;
            entries.push(e);
            assert forall|j: int| 0 <= j < i implies entry_views(entries@)[j] == entries_from_lines(
                *args,
                ls,
            ).take(i + 1)[j] by {
                assert(entry_views(before)[j] == entries_from_lines(*args, ls).take(i as int)[j]);
            }
            assert(entry_views(entries@) =~= entries_from_lines(*args, ls).take(i + 1));
        }
        assert(entries_from_lines(*args, ls).take(n as int) =~= entries_from_lines(*args, ls));
        Ok(entries)
    } else {
        match &args.url {
            Some(url) => {
                let mut v: Vec<UrlEntry> = Vec::new();
                v.push(UrlEntry { url: url.clone(), title: None, artist: None, album: None });
                assert(entry_views(v@) =~= seq![
                    EntryView { url: url@, title: None, artist: None, album: None },
                ]);
                Ok(v)
            },
            None => Err(EntryError::NoSource),
        }
    }
}

// ---------------------------------------------------------------------------
// Duplicates

/// Some entry among the first `n` of `es` has the URL `u`.
pub open spec fn url_seen(es: Seq<EntryView>, n: int, u: Seq<char>) -> bool {
    exists|i: int| 0 <= i < n && #[trigger] es[i].url == u
}

/// `es` without the entries whose URL an earlier entry already has: the first
/// entry of each URL stays, in order.
pub open spec fn deduped(es: Seq<EntryView>) -> Seq<EntryView>
    decreases es.len(),
{
    if es.len() == 0 {
        Seq::<EntryView>::empty()
    } else {
        let r = deduped(es.drop_last());
        if url_seen(es, es.len() - 1, es.last().url) {
            r
        } else {
            r.push(es.last())
        }
    }
}

/// No two entries of `es` have the same URL.
pub open spec fn distinct_urls(es: Seq<EntryView>) -> bool {
    forall|i: int, j: int| 0 <= i < j < es.len() ==> #[trigger] es[i].url != #[trigger] es[j].url
}

/// Looking at the first `n` entries of a sequence or of one of its prefixes is
/// the same.
proof fn lemma_url_seen_prefix(es: Seq<EntryView>, m: int, n: int, u: Seq<char>)
    requires
        0 <= n <= m <= es.len(),
    ensures
        url_seen(es.take(m), n, u) == url_seen(es, n, u),
{
    if url_seen(es, n, u) {
        let i = choose|i: int| 0 <= i < n && #[trigger] es[i].url == u;
        assert(es.take(m)[i].url == u);
    }
    if url_seen(es.take(m), n, u) {
        let i = choose|i: int| 0 <= i < n && #[trigger] es.take(m)[i].url == u;
        assert(es[i].url == u);
    }
}

/// The deduplicated entries have exactly the URLs of the entries.
pub proof fn lemma_deduped_urls(es: Seq<EntryView>, u: Seq<char>)
    ensures
        url_seen(deduped(es), deduped(es).len() as int, u) == url_seen(es, es.len() as int, u),
    decreases es.len(),
{
    if es.len() > 0 {
        let p = es.drop_last();
        let r = deduped(p);
        lemma_deduped_urls(p, u);
        lemma_url_seen_prefix(es, es.len() - 1, es.len() - 1, u);
        assert(es.take(es.len() - 1) =~= p);
        lemma_url_seen_prefix(es, es.len() - 1, es.len() - 1, es.last().url);
        if url_seen(es, es.len() as int, u) {
            let i = choose|i: int| 0 <= i < es.len() && #[trigger] es[i].url == u;
            if i < es.len() - 1 {
                assert(p[i].url == u);
            }
        }
        if !url_seen(es, es.len() - 1, es.last().url) {
            let d = r.push(es.last());
            if url_seen(d, d.len() as int, u) {
                let k = choose|k: int| 0 <= k < d.len() && #[trigger] d[k].url == u;
                if k < r.len() {
                    assert(r[k].url == u);
                } else {
                    assert(es[es.len() - 1].url == u);
                }
            }
            if url_seen(r, r.len() as int, u) {
                let k = choose|k: int| 0 <= k < r.len() && #[trigger] r[k].url == u;
                assert(d[k].url == u);
            }
            if es.last().url == u {
                assert(d[d.len() - 1].url == u);
            }
        } else {
            if es.last().url == u {
                let i = choose|i: int| 0 <= i < es.len() - 1 && #[trigger] es[i].url == u;
                assert(p[i].url == u);
            }
        }
    }
}

/// No URL occurs twice among the deduplicated entries.
pub proof fn lemma_deduped_distinct(es: Seq<EntryView>)
    ensures
        distinct_urls(deduped(es)),
    decreases es.len(),
{
    if es.len() > 0 {
        let p = es.drop_last();
        let r = deduped(p);
        lemma_deduped_distinct(p);
        if !url_seen(es, es.len() - 1, es.last().url) {
            lemma_url_seen_prefix(es, es.len() - 1, es.len() - 1, es.last().url);
            assert(es.take(es.len() - 1) =~= p);
            lemma_deduped_urls(p, es.last().url);
            let d = r.push(es.last());
            assert forall|i: int, j: int| 0 <= i < j < d.len() implies #[trigger] d[i].url
                != #[trigger] d[j].url by {
                if j == d.len() - 1 {
                    assert(r[i].url == d[i].url);
                    if r[i].url == es.last().url {
                        assert(url_seen(r, r.len() as int, es.last().url));
                    }
                } else {
                    assert(r[i].url != r[j].url);
                }
            }
        }
    }
}

/// Entries whose URLs are distinct have no duplicates to drop.
pub proof fn lemma_deduped_of_distinct(es: Seq<EntryView>)
    requires
        distinct_urls(es),
    ensures
        deduped(es) == es,
    decreases es.len(),
{
    if es.len() > 0 {
        let p = es.drop_last();
        assert(distinct_urls(p)) by {
            assert forall|i: int, j: int| 0 <= i < j < p.len() implies #[trigger] p[i].url
                != #[trigger] p[j].url by {
                assert(es[i].url != es[j].url);
            }
        }
        lemma_deduped_of_distinct(p);
        if url_seen(es, es.len() - 1, es.last().url) {
            let i = choose|i: int| 0 <= i < es.len() - 1 && #[trigger] es[i].url == es.last().url;
            assert(es[i].url != es[es.len() - 1].url);
        }
        assert(p.push(es.last()) =~= es);
    }
}

/// Removing duplicates twice gives what removing them once gives.
pub proof fn lemma_deduped_idempotent(es: Seq<EntryView>)
    ensures
        deduped(deduped(es)) == deduped(es),
{
    lemma_deduped_distinct(es);
    lemma_deduped_of_distinct(deduped(es));
}

/// Drops every entry whose URL an earlier entry already has.
pub fn dedup_entries(entries: &Vec<UrlEntry>) -> (r: Vec<UrlEntry>)
    ensures
        entry_views(r@) == deduped(entry_views(entries@)),
{
    let ghost es = entry_views(entries@);
    let mut out: Vec<UrlEntry> = Vec::new();
    let n = entries.len();
    assert(entry_views(out@) =~= deduped(es.take(0)));
    for i in 0..n
        invariant
            n == entries@.len(),
            es == entry_views(entries@),
            entry_views(out@) == deduped(es.take(i as int)),
    {
        let e = &entries[i];
        let ghost d = entry_views(out@);
        let mut seen = false;
        let m = out.len();
        for j in 0..m
            invariant
                m == out@.len(),
                d == entry_views(out@),
                seen == url_seen(d, j as int, e.url@),
        {
            let ghost was = seen;
            if out[j].url == e.url {
                seen = true;
            }
            proof {
                assert(d[j as int].url == out@[j as int].url@);
                if was {
                    let k = choose|k: int| 0 <= k < j && #[trigger] d[k].url == e.url@;
                    assert(0 <= k < j + 1 && d[k].url == e.url@);
                }
                if seen && !was {
                    assert(0 <= j < j + 1 && d[j as int].url == e.url@);
                }
                if url_seen(d, j + 1, e.url@) {
                    let k = choose|k: int| 0 <= k < j + 1 && #[trigger] d[k].url == e.url@;
                    if k < j {
                        assert(url_seen(d, j as int, e.url@));
                    }
                }
            }
        }
        proof {
            let t = es.take(i + 1);
            assert(t.drop_last() =~= es.take(i as int));
            assert(t.last() == e@);
            lemma_deduped_urls(es.take(i as int), e.url@);
            lemma_url_seen_prefix(es, i + 1, i as int, e.url@);
            lemma_url_seen_prefix(es, i as int, i as int, e.url@);
        }
        if !seen {
            let c = e.copy();
            let ghost before = out@;
            out.push(c);
            assert forall|j: int| 0 <= j < before.len() implies entry_views(out@)[j] == entry_views(
                before,
            )[j] by {}
            assert(entry_views(out@) =~= d.push(e@));
        }
    }
    assert(es.take(n as int) =~= es);
    out
}

// ---------------------------------------------------------------------------
// Track metadata

/// The artist of a track: the entry's override, else the option's override,
/// else the uploader, else the channel, else "Unknown Artist".
pub open spec fn chosen_artist(e: EntryView, args: DownloaderArgs, info: VideoView) -> Seq<char> {
    match e.artist {
        Some(a) => a,
        None => match opt_string_view(args.artist) {
            Some(a) => a,
            None => match info.uploader {
                Some(u) => u,
                None => match info.channel {
                    Some(c) => c,
                    None => "Unknown Artist"@,
                },
            },
        },
    }
}

/// The raw title of a track: the entry's override, else the option's
/// override, else the video's title.
pub open spec fn chosen_raw_title(e: EntryView, args: DownloaderArgs, info: VideoView) -> Seq<char> {
    match e.title {
        Some(t) => t,
        None => match opt_string_view(args.title) {
            Some(t) => t,
            None => info.title,
        },
    }
}

/// The title of a track: the raw title normalized against the artist and
/// cleaned of noise once more. `None` where a step panics.
pub open spec fn final_title(e: EntryView, args: DownloaderArgs, info: VideoView) -> Option<Seq<char>> {
    match normalized_title(
        chosen_raw_title(e, args, info),
        Some(chosen_artist(e, args, info)),
        args.strip_until,
    ) {
        Some(t) => stripped_noise(t),
        None => None,
    }
}

/// What a track is tagged with and saved as.
pub struct TrackMeta {
    pub artist: String,
    pub title: String,
    pub album: Option<String>,
    /// The file name: the sanitized title with the extension `.mp3`.
    pub file_name: String,
}

/// The artist of a track.
fn pick_artist(entry: &UrlEntry, args: &DownloaderArgs, info: &VideoInfo) -> (r: String)
    ensures
        r@ == chosen_artist(entry@, *args, info@),
{
    match &entry.artist {
        Some(a) => a.clone(),
        None => match &args.artist {
            Some(a) => a.clone(),
            None => match &info.uploader {
                Some(u) => u.clone(),
                None => match &info.channel {
                    Some(c) => c.clone(),
                    None => "Unknown Artist".to_string(),
                },
            },
        },
    }
}

/// The raw title of a track.
fn pick_raw_title(entry: &UrlEntry, args: &DownloaderArgs, info: &VideoInfo) -> (r: String)
    ensures
        r@ == chosen_raw_title(entry@, *args, info@),
{
    match &entry.title {
        Some(t) => t.clone(),
        None => match &args.title {
            Some(t) => t.clone(),
            None => info.title.clone(),
        },
    }
}

/// The file name a track is saved as: the sanitized title, then `.mp3`.
pub fn output_file_name(title: &str) -> (r: String)
    ensures
        r@ == sanitized(title@) + ".mp3"@,
{
    let mut name = sanitize(title);
    name.append(".mp3");
    name
}

/// The artist, title, album and file name of the track of `entry`, whose
/// video has the metadata `info`.
pub fn track_meta(entry: &UrlEntry, args: &DownloaderArgs, info: &VideoInfo) -> (r: TrackMeta)
    requires
        final_title(entry@, *args, info@) is Some,
    ensures
        r.artist@ == chosen_artist(entry@, *args, info@),
        final_title(entry@, *args, info@) == Some(r.title@),
        opt_string_view(r.album) == opt_string_view(args.album),
        r.file_name@ == sanitized(r.title@) + ".mp3"@,
        entry@.artist matches Some(a) ==> r.artist@ == a,
        entry@.artist is None ==> (args.artist matches Some(a) ==> r.artist@ == a@),
        entry@.artist is None && args.artist is None ==> (info@.uploader matches Some(u)
            ==> r.artist@ == u),
        entry@.artist is None && args.artist is None && info@.uploader is None ==> (
        info@.channel matches Some(c) ==> r.artist@ == c),
        entry@.artist is None && args.artist is None && info@.uploader is None
            && info@.channel is None ==> r.artist@ == "Unknown Artist"@,
        entry@.title matches Some(t) ==> (normalized_title(t, Some(r.artist@), args.strip_until)
            matches Some(x) && stripped_noise(x) == Some(r.title@)),
        entry@.title is None ==> (args.title matches Some(t) ==> (normalized_title(
            t@,
            Some(r.artist@),
            args.strip_until,
        ) matches Some(x) && stripped_noise(x) == Some(r.title@))),
        entry@.title is None && args.title is None ==> (normalized_title(
            info@.title,
            Some(r.artist@),
            args.strip_until,
        ) matches Some(x) && stripped_noise(x) == Some(r.title@)),
{
    let artist = pick_artist(entry, args, info);
    let raw = pick_raw_title(entry, args, info);
    let title = normalize_title(raw.as_str(), Some(artist.as_str()), args.strip_until);
    let title = strip_noise(title.as_str());
    let file_name = output_file_name(title.as_str());
    TrackMeta { artist, title, album: copy_opt(&args.album), file_name }
}

/// Whether `track_meta` can run: false exactly where cleaning the title
/// would panic.
pub fn track_meta_is_defined(entry: &UrlEntry, args: &DownloaderArgs, info: &VideoInfo) -> (b: bool)
    ensures
        b == (final_title(entry@, *args, info@) is Some),
{
    let artist = pick_artist(entry, args, info);
    let raw = pick_raw_title(entry, args, info);
    if !normalize_title_is_defined(raw.as_str(), Some(artist.as_str()), args.strip_until) {
        return false;
    }
    let title = normalize_title(raw.as_str(), Some(artist.as_str()), args.strip_until);
    strip_noise_is_defined(title.as_str())
}

/// `track_meta`, or `None` where it would panic.
pub fn try_track_meta(entry: &UrlEntry, args: &DownloaderArgs, info: &VideoInfo) -> (r: Option<
    TrackMeta,
>)
    ensures
        r matches Some(m) ==> final_title(entry@, *args, info@) == Some(m.title@)
            && m.artist@ == chosen_artist(entry@, *args, info@) && opt_string_view(m.album)
            == opt_string_view(args.album) && m.file_name@ == sanitized(m.title@) + ".mp3"@,
        r is None ==> final_title(entry@, *args, info@) is None,
        r matches Some(m) ==> {
            &&& entry@.artist matches Some(a) ==> m.artist@ == a
            &&& entry@.artist is None ==> (args.artist matches Some(a) ==> m.artist@ == a@)
            &&& entry@.artist is None && args.artist is None ==> (info@.uploader matches Some(u)
                ==> m.artist@ == u)
            &&& entry@.artist is None && args.artist is None && info@.uploader is None ==> (
            info@.channel matches Some(c) ==> m.artist@ == c)
            &&& entry@.artist is None && args.artist is None && info@.uploader is None
                && info@.channel is None ==> m.artist@ == "Unknown Artist"@
            &&& entry@.title matches Some(t) ==> (normalized_title(t, Some(m.artist@), args.strip_until)
                matches Some(x) && stripped_noise(x) == Some(m.title@))
            &&& entry@.title is None ==> (args.title matches Some(t) ==> (normalized_title(
                t@,
                Some(m.artist@),
                args.strip_until,
            ) matches Some(x) && stripped_noise(x) == Some(m.title@)))
            &&& entry@.title is None && args.title is None ==> (normalized_title(
                info@.title,
                Some(m.artist@),
                args.strip_until,
            ) matches Some(x) && stripped_noise(x) == Some(m.title@))
        },
{
    if track_meta_is_defined(entry, args, info) {
        Some(track_meta(entry, args, info))
    } else {
        None
    }
}

/// The marker up to which titles are cut does not affect the artist.
pub proof fn lemma_strip_until_keeps_artist(
    e: EntryView,
    args: DownloaderArgs,
    info: VideoView,
    marker: Option<char>,
)
    ensures
        chosen_artist(e, DownloaderArgs { strip_until: marker, ..args }, info) == chosen_artist(
            e,
            args,
            info,
        ),
{
}

// ---------------------------------------------------------------------------
// Normalized URLs

/// The plain value of an entry paired with the URL yt-dlp normalized it to,
/// if it did.
pub open spec fn result_views(results: Seq<(UrlEntry, Option<String>)>) -> Seq<
    (EntryView, Option<Seq<char>>),
> {
    results.map_values(|p: (UrlEntry, Option<String>)| (p.0@, opt_string_view(p.1)))
}

/// The entries that yt-dlp normalized, in order, each with its normalized URL;
/// the entries it failed on are left out.
pub open spec fn normalized_entries(results: Seq<(EntryView, Option<Seq<char>>)>) -> Seq<EntryView>
    decreases results.len(),
{
    if results.len() == 0 {
        Seq::<EntryView>::empty()
    } else {
        let r = normalized_entries(results.drop_last());
        let (e, u) = results.last();
        match u {
            Some(url) => r.push(EntryView { url, ..e }),
            None => r,
        }
    }
}

/// Keeps the entries whose URL was normalized, with the normalized URL.
pub fn keep_normalized(results: &Vec<(UrlEntry, Option<String>)>) -> (r: Vec<UrlEntry>)
    ensures
        entry_views(r@) == normalized_entries(result_views(results@)),
{
    let ghost rv = result_views(results@);
    let mut out: Vec<UrlEntry> = Vec::new();
    let n = results.len();
    assert(entry_views(out@) =~= normalized_entries(rv.take(0)));
    for i in 0..n
        invariant
            n == results@.len(),
            rv == result_views(results@),
            entry_views(out@) == normalized_entries(rv.take(i as int)),
    {
        let (e, u) = &results[i];
        let ghost t = rv.take(i + 1);
        assert(t.drop_last() =~= rv.take(i as int));
        assert(t.last() == (e@, opt_string_view(*u)));
        let ghost before = out@;
        match u {
            Some(url) => {
                out.push(UrlEntry {
                    url: url.clone(),
                    title: copy_opt(&e.title),
                    artist: copy_opt(&e.artist),
                    album: copy_opt(&e.album),
                });
                assert(entry_views(out@) =~= entry_views(before).push(
                    EntryView { url: url@, ..e@ },
                ));
            },
            None => {},
        }
    }
    assert(rv.take(n as int) =~= rv);
    out
}

} // verus!
