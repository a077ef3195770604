use black_tag::downloader::DownloaderArgs;
use black_tag::logger::{Level, Logger};
use black_tag::tagging::VideoTagger;
use black_tag::thumbnail::{shush_ffmpg, thumbnail_file_names};
use id3::TagLike;

fn args(no_verbose: bool) -> DownloaderArgs {
    DownloaderArgs {
        url: None,
        artist: None,
        title: None,
        album: None,
        output: ".".to_string(),
        input_file: None,
        strip_until: None,
        file_overrides: false,
        no_verbose,
        threads: None,
    }
}

#[test]
fn logger_lines() {
    let loud = Logger::new(&args(false));
    let quiet = Logger::new(&args(true));
    assert_eq!(loud.line(Level::Info, "hi").as_deref(), Some("\x1b[32mINFO: hi\x1b[0m"));
    assert_eq!(quiet.line(Level::Info, "hi"), None);
    assert_eq!(quiet.line(Level::Note, "n").as_deref(), Some("\x1b[33mNOTE: n\x1b[0m"));
    assert_eq!(quiet.line(Level::Message, "m").as_deref(), Some("\x1b[32mm\x1b[0m"));
    assert_eq!(quiet.line(Level::Error, "e").as_deref(), Some("\x1b[31mERROR: e\x1b[0m"));
}

#[test]
fn ffmpeg_silencing() {
    assert_eq!(shush_ffmpg(true), vec!["-loglevel", "quiet"]);
    assert!(shush_ffmpg(false).is_empty());
}

#[test]
fn tag_holds_the_set_fields() {
    let tagger = VideoTagger::new()
        .cover("cover.jpg".to_string())
        .artist("Artist".to_string())
        .title("Title".to_string())
        .album_opt(Some("Album".to_string()));
    assert_eq!(tagger.cover_path().as_deref(), Some("cover.jpg"));
    let tag = tagger.build_tag(Some(vec![1, 2, 3]));
    assert_eq!(tag.artist(), Some("Artist"));
    assert_eq!(tag.title(), Some("Title"));
    assert_eq!(tag.album(), Some("Album"));
    let pictures: Vec<_> = tag.pictures().collect();
    assert_eq!(pictures.len(), 1);
    assert_eq!(pictures[0].mime_type, "image/jpeg");
    assert_eq!(u8::from(pictures[0].picture_type), 3);
    assert_eq!(pictures[0].description, "");
    assert_eq!(pictures[0].data, vec![1, 2, 3]);
}

#[test]
fn tag_without_optional_fields() {
    let tagger = VideoTagger::new().title("Only".to_string()).album_opt(None);
    let tag = tagger.build_tag(None);
    assert_eq!(tag.title(), Some("Only"));
    assert_eq!(tag.artist(), None);
    assert_eq!(tag.album(), None);
    assert_eq!(tag.pictures().count(), 0);
}

#[test]
fn album_opt_keeps_earlier_album() {
    let tag = VideoTagger::new()
        .album_opt(Some("First".to_string()))
        .album_opt(None)
        .build_tag(None);
    assert_eq!(tag.album(), Some("First"));
}

#[test]
fn thumbnail_names_in_lookup_order() {
    assert_eq!(
        thumbnail_file_names(),
        vec!["thumb.webp", "thumb.jpg", "thumb.jpeg", "thumb.png"]
    );
}
