use black_tag::downloader::{
    dedup_entries, generate_entries, keep_normalized, output_file_name, track_meta, try_track_meta,
    DownloaderArgs,
    EntryError,
};
use black_tag::file_overrides::{parse_override_line, trimmed_lines, EntryList, UrlEntry};
use black_tag::video::VideoInfo;

fn args() -> DownloaderArgs {
    DownloaderArgs {
        url: None,
        artist: None,
        title: None,
        album: None,
        output: ".".to_string(),
        input_file: None,
        strip_until: None,
        file_overrides: false,
        no_verbose: false,
        threads: None,
    }
}

fn entry(url: &str) -> UrlEntry {
    UrlEntry { url: url.to_string(), title: None, artist: None, album: None }
}

#[test]
fn override_line_with_all_fields() {
    let e = parse_override_line("https://youtu.be/abc | My Title | Some Artist");
    assert_eq!(e.url, "https://youtu.be/abc");
    assert_eq!(e.title.as_deref(), Some("My Title"));
    assert_eq!(e.artist.as_deref(), Some("Some Artist"));
    assert_eq!(e.album, None);
}

#[test]
fn override_line_with_missing_fields() {
    let e = parse_override_line("  https://youtu.be/abc  ");
    assert_eq!(e.url, "https://youtu.be/abc");
    assert_eq!(e.title, None);
    assert_eq!(e.artist, None);
    let e = parse_override_line("u |   | a | extra");
    assert_eq!(e.url, "u");
    assert_eq!(e.title, None);
    assert_eq!(e.artist.as_deref(), Some("a"));
    let e = parse_override_line("");
    assert_eq!(e.url, "");
}

#[test]
fn lines_are_trimmed_and_non_empty() {
    let content = "  a \r\n\n\t\n b\nc";
    let expected: Vec<String> = content
        .lines()
        .map(|l| l.trim().to_string())
        .filter(|l| !l.is_empty())
        .collect();
    assert_eq!(trimmed_lines(content), expected);
    assert_eq!(trimmed_lines(content), vec!["a", "b", "c"]);
    assert!(trimmed_lines("").is_empty());
}

#[test]
fn listing_uses_question_marks() {
    let entries = vec![
        UrlEntry {
            url: "u1".to_string(),
            title: Some("T".to_string()),
            artist: Some("A".to_string()),
            album: None,
        },
        entry("u2"),
    ];
    assert_eq!(entries.as_slice().list_entries(), "T - A (u1)\n? - ? (u2)\n");
    let none: Vec<UrlEntry> = Vec::new();
    assert_eq!(none.as_slice().list_entries(), "");
}

#[test]
fn entries_from_file_without_overrides() {
    let mut a = args();
    a.input_file = Some("list.txt".to_string());
    a.title = Some("T".to_string());
    a.album = Some("Al".to_string());
    let r = generate_entries(&a, Some(vec!["u1".to_string(), "u2 | x".to_string()]));
    let v = match r {
        Ok(v) => v,
        Err(_) => panic!("expected entries"),
    };
    assert_eq!(v.len(), 2);
    assert_eq!(v[1].url, "u2 | x");
    assert_eq!(v[0].title.as_deref(), Some("T"));
    assert_eq!(v[0].album.as_deref(), Some("Al"));
}

#[test]
fn entries_from_file_with_overrides() {
    let mut a = args();
    a.input_file = Some("list.txt".to_string());
    a.file_overrides = true;
    a.title = Some("ignored".to_string());
    let v = match generate_entries(&a, Some(vec!["u1 | T1 | A1".to_string(), "u2".to_string()])) {
        Ok(v) => v,
        Err(_) => panic!("expected entries"),
    };
    assert_eq!(v[0].url, "u1");
    assert_eq!(v[0].title.as_deref(), Some("T1"));
    assert_eq!(v[0].artist.as_deref(), Some("A1"));
    assert_eq!(v[1].title, None);
}

#[test]
fn entries_from_url_or_nothing() {
    let mut a = args();
    a.url = Some("https://youtu.be/x".to_string());
    a.title = Some("not used".to_string());
    let v = match generate_entries(&a, None) {
        Ok(v) => v,
        Err(_) => panic!("expected an entry"),
    };
    assert_eq!(v.len(), 1);
    assert_eq!(v[0].url, "https://youtu.be/x");
    assert_eq!(v[0].title, None);
    assert!(matches!(generate_entries(&args(), None), Err(EntryError::NoSource)));
}

#[test]
fn duplicates_keep_the_first_entry() {
    let mut first = entry("u1");
    first.title = Some("first".to_string());
    let mut second = entry("u1");
    second.title = Some("second".to_string());
    let v = vec![first, entry("u2"), second, entry("u2"), entry("u3")];
    let d = dedup_entries(&v);
    let urls: Vec<&str> = d.iter().map(|e| e.url.as_str()).collect();
    assert_eq!(urls, vec!["u1", "u2", "u3"]);
    assert_eq!(d[0].title.as_deref(), Some("first"));
    let again = dedup_entries(&d);
    assert_eq!(again.len(), d.len());
}

#[test]
fn file_name_is_sanitized() {
    assert_eq!(output_file_name("AC/DC: Thunder?"), "AC_DC_ Thunder_.mp3");
}

#[test]
fn track_meta_precedence() {
    let info = VideoInfo {
        title: "Uploader - Song (Official Video)".to_string(),
        uploader: Some("Uploader".to_string()),
        channel: Some("Channel".to_string()),
    };
    let mut a = args();
    a.album = Some("Album".to_string());
    let m = track_meta(&entry("u"), &a, &info);
    assert_eq!(m.artist, "Uploader");
    assert_eq!(m.title, "Song");
    assert_eq!(m.album.as_deref(), Some("Album"));
    assert_eq!(m.file_name, "Song.mp3");

    let mut e = entry("u");
    e.artist = Some("Entry Artist".to_string());
    e.title = Some("Entry Artist: Title".to_string());
    a.artist = Some("Option Artist".to_string());
    let m = track_meta(&e, &a, &info);
    assert_eq!(m.artist, "Entry Artist");
    assert_eq!(m.title, "Title");
    assert_eq!(m.file_name, "Title.mp3");

    let bare = VideoInfo { title: "T".to_string(), uploader: None, channel: None };
    let m = track_meta(&entry("u"), &args(), &bare);
    assert_eq!(m.artist, "Unknown Artist");
    let chan = VideoInfo { title: "T".to_string(), uploader: None, channel: Some("C".to_string()) };
    assert_eq!(track_meta(&entry("u"), &args(), &chan).artist, "C");
}

#[test]
fn track_meta_reports_panicking_titles() {
    let info = VideoInfo { title: "İstanbul (Official Audio)".to_string(), uploader: None, channel: None };
    assert!(try_track_meta(&entry("u"), &args(), &info).is_none());
}

#[test]
fn normalized_urls_replace_and_failures_drop() {
    let mut a = entry("a");
    a.title = Some("T".to_string());
    a.album = Some("Al".to_string());
    let results = vec![
        (a, Some("https://a".to_string())),
        (entry("b"), None),
        (entry("c"), Some("https://c".to_string())),
    ];
    let kept = keep_normalized(&results);
    assert_eq!(kept.len(), 2);
    assert_eq!(kept[0].url, "https://a");
    assert_eq!(kept[0].title.as_deref(), Some("T"));
    assert_eq!(kept[0].album.as_deref(), Some("Al"));
    assert_eq!(kept[0].artist, None);
    assert_eq!(kept[1].url, "https://c");
    assert!(keep_normalized(&vec![(entry("x"), None)]).is_empty());
}
