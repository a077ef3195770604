use black_tag::normalization::{
    normalize_title, split_best_guess, strip_noise, strip_until_last,
    try_normalize_title, try_strip_noise, url_from_output, UrlOutputError,
};

#[test]
fn strip_noise_removes_markers_in_any_case() {
    assert_eq!(strip_noise("Song (Official Video)"), "Song");
    assert_eq!(strip_noise("Song [LYRICS] live"), "Song live");
    assert_eq!(strip_noise("Song (official music video) (Lyrics)"), "Song");
    assert_eq!(strip_noise("Song (Official Audio) [Official Video]"), "Song");
}

#[test]
fn strip_noise_collapses_whitespace() {
    assert_eq!(strip_noise("  a   b \t c  "), "a b c");
    assert_eq!(strip_noise(""), "");
    assert_eq!(strip_noise("   "), "");
}

#[test]
fn strip_noise_removes_each_marker_once() {
    assert_eq!(strip_noise("(lyrics) x (lyrics)"), "x (lyrics)");
}

#[test]
fn strip_noise_only_checks_markers_of_the_input() {
    // "[lyrics]" appears only after "(official audio)" is cut out of the middle.
    assert_eq!(strip_noise("a [lyr(official audio)ics] b"), "a [lyrics] b");
}

#[test]
fn strip_noise_panics_where_lowercase_shifts_bytes() {
    // 'İ' lowercases to two characters, so the byte range found in the
    // lowercase runs past the end of the input.
    assert_eq!(try_strip_noise("İstanbul (Official Audio)"), None);
    // The Kelvin sign is three bytes, its lowercase 'k' one byte.
    assert_eq!(try_strip_noise("\u{212A} (lyrics)"), None);
}

#[test]
fn strip_noise_cuts_shifted_range_on_boundaries() {
    // Two Kelvin signs shift the range by four bytes; both ends fall on
    // character boundaries, so the wrong characters are cut.
    assert_eq!(try_strip_noise("\u{212A}\u{212A} (lyrics)ab"), Some("\u{212A}ics)ab".to_string()));
}

#[test]
fn best_guess_skips_the_artist() {
    assert_eq!(split_best_guess("Artist - Title", Some("artist")), "Title");
    assert_eq!(split_best_guess("Title - Artist", Some("ARTIST")), "Title");
    assert_eq!(split_best_guess("A | B | C", Some("a")), "B");
}

#[test]
fn best_guess_without_artist_takes_the_last_piece() {
    assert_eq!(split_best_guess("Artist - Title", None), "Title");
    assert_eq!(split_best_guess("a:b:c", None), "c");
}

#[test]
fn best_guess_single_and_empty() {
    assert_eq!(split_best_guess("  Just a title  ", Some("x")), "Just a title");
    assert_eq!(split_best_guess(" - | : ", None), "");
    assert_eq!(split_best_guess("Same - same", Some("SAME")), "same");
}

#[test]
fn strip_until_keeps_the_tail() {
    assert_eq!(strip_until_last("Artist ~ Album ~ Song", '~'), "Song");
    assert_eq!(strip_until_last("Song~", '~'), "Song~");
    assert_eq!(strip_until_last("Song", '~'), "Song");
}

#[test]
fn strip_until_with_wide_marker() {
    assert_eq!(strip_until_last("Artist — Song", '—'), "Song");
    assert_eq!(strip_until_last("a — b — c", '—'), "c");
    assert_eq!(strip_until_last("Song —", '—'), "Song —");
    assert_eq!(strip_until_last("Artist - Song", '—'), "Artist - Song");
    assert_eq!(strip_until_last("x 🎵 y", '🎵'), "y");
}

#[test]
fn normalize_title_full_pipeline() {
    assert_eq!(normalize_title("  Artist - Song (Official Video) ", Some("Artist"), None), "Song");
    assert_eq!(normalize_title("Song [Lyrics]", None, None), "Song");
    assert_eq!(normalize_title("Label ~ Artist - Song ~ Remix", Some("artist"), Some('~')), "Artist");
    assert_eq!(try_normalize_title("Artist — Song", None, Some('—')).as_deref(), Some("Song"));
    assert_eq!(normalize_title("Album \u{2014} Song", None, Some('\u{2014}')), "Song");
}

#[test]
fn url_output_is_trimmed() {
    let r = url_from_output(true, b"  https://www.youtube.com/watch?v=abc \n", b"");
    assert!(matches!(r, Ok(ref u) if u == "https://www.youtube.com/watch?v=abc"));
}

#[test]
fn url_output_errors() {
    assert!(matches!(url_from_output(true, b" \n", b""), Err(UrlOutputError::Empty)));
    let r = url_from_output(false, b"x", b"ERROR: bad\xff");
    assert!(matches!(r, Err(UrlOutputError::Failed(ref e)) if e == "ERROR: bad\u{FFFD}"));
}

#[test]
fn cleaning_never_lengthens() {
    for s in ["  a  (Lyrics)  b ", "x", "", "Song [official audio]", "\u{212A}\u{212A} (lyrics)ab"] {
        if let Some(t) = try_strip_noise(s) {
            assert!(t.chars().count() <= s.chars().count());
            assert_eq!(strip_noise(&t), t);
        }
    }
}

#[test]
fn strip_noise_result_shape() {
    for s in ["  Song \t (Official Video)\n  live  ", "a\u{3000}b", "x  [lyrics]  y", ""] {
        let r = strip_noise(s);
        assert_eq!(r, r.trim());
        assert!(!r.contains("  "));
        assert!(r.chars().all(|c| c == ' ' || !c.is_whitespace()));
        assert!(r.len() <= s.len());
    }
}

#[test]
fn best_guess_is_a_trimmed_piece_of_the_input() {
    for (s, a) in [
        ("Artist - Title", Some("artist")),
        ("  x | y : z ", None),
        ("only", Some("only")),
        (" - | : ", None),
        ("", None),
    ] {
        let g = split_best_guess(s, a);
        assert!(s.contains(g.as_str()));
        assert_eq!(g, g.trim());
        assert!(!g.contains('|') && !g.contains('-') && !g.contains(':'));
        let blank = s.split(['|', '-', ':']).all(|p| p.trim().is_empty());
        assert_eq!(g.is_empty(), blank);
    }
}
