use black_tag::args::sanitize;
use black_tag::text::{bytes_before, chars_of, is_whitespace, trim_str};

#[test]
fn whitespace_matches_std_for_every_char() {
    for u in 0u32..=0x10FFFF {
        if let Some(c) = char::from_u32(u) {
            assert_eq!(is_whitespace(c), c.is_whitespace(), "U+{:04X}", u);
        }
    }
}

#[test]
fn trim_matches_std() {
    let samples = [
        "",
        "   ",
        "  a b  ",
        "\u{3000}title\u{00A0}",
        "\t\r\nline\r\n",
        "no-trim",
        " \u{2028}x\u{205F} ",
    ];
    for s in samples {
        assert_eq!(trim_str(s), s.trim());
    }
}

#[test]
fn byte_lengths_match_std() {
    for s in ["", "abc", "é", "İstanbul", "\u{212A}", "𝄞 music", "日本語"] {
        let v = chars_of(s);
        assert_eq!(bytes_before(&v, v.len()), s.len() as u128);
    }
}

#[test]
fn sanitize_replaces_reserved_characters() {
    assert_eq!(sanitize("a<b>c:d\"e/f\\g|h?i*j"), "a_b_c_d_e_f_g_h_i_j");
    assert_eq!(sanitize("AC/DC: Back in Black?"), "AC_DC_ Back in Black_");
    assert_eq!(sanitize("plain title"), "plain title");
    assert_eq!(sanitize(""), "");
}

#[test]
fn sanitize_is_idempotent() {
    let once = sanitize("x|y*z");
    assert_eq!(sanitize(&once), once);
}
