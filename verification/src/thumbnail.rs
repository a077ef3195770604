//! The files a thumbnail download may leave, and the options of its crop.

use vstd::prelude::*;
use crate::text::string_views;

verus! {

/// The options that silence ffmpeg: `-loglevel quiet` when not verbose, none
/// otherwise.
pub fn shush_ffmpg(no_verbose: bool) -> (r: Vec<&'static str>)
    ensures
        no_verbose ==> r@.len() == 2 && r@[0]@ == "-loglevel"@ && r@[1]@ == "quiet"@,
        !no_verbose ==> r@.len() == 0,
{
    let mut v: Vec<&'static str> = Vec::new();
    if no_verbose {
        v.push("-loglevel");
        v.push("quiet");
    }
    v
}

/// The names under which yt-dlp may have written the thumbnail, in the order
/// they are looked for: WebP, JPG, JPEG, PNG.
pub open spec fn thumbnail_names() -> Seq<Seq<char>> {
    seq!["thumb.webp"@, "thumb.jpg"@, "thumb.jpeg"@, "thumb.png"@]
}

/// The file names a downloaded thumbnail may have, in the order they are
/// looked for.
pub fn thumbnail_file_names() -> (r: Vec<String>)
    ensures
        string_views(r@) == thumbnail_names(),
{
    let mut v: Vec<String> = Vec::new();
    v.push("thumb.webp".to_string());
    v.push("thumb.jpg".to_string());
    v.push("thumb.jpeg".to_string());
    v.push("thumb.png".to_string());
    assert(string_views(v@) =~= thumbnail_names());
    v
}

} // verus!
