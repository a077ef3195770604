//! The metadata of a video that the download uses.

use vstd::prelude::*;
use crate::text::opt_string_view;

verus! {

/// The title, uploader and channel of a video, as `yt-dlp` reports them.
pub struct VideoInfo {
    pub title: String,
    pub uploader: Option<String>,
    pub channel: Option<String>,
}

/// The plain value of a `VideoInfo`.
pub struct VideoView {
    pub title: Seq<char>,
    pub uploader: Option<Seq<char>>,
    pub channel: Option<Seq<char>>,
}

impl View for VideoInfo {
    type V = VideoView;

    open spec fn view(&self) -> VideoView {
        VideoView {
            title: self.title@,
            uploader: opt_string_view(self.uploader),
            channel: opt_string_view(self.channel),
        }
    }
}

} // verus!
