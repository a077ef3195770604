//! ID3 tags: a builder of the text frames and the cover picture to write,
//! and the `id3::Tag` that holds them.

use vstd::prelude::*;
use id3::frame::{Picture, PictureType};
use id3::{Tag, TagLike};
use crate::text::opt_string_view;

verus! {

#[verifier::external_type_specification]
#[verifier::external_body]
pub struct ExTag(Tag);

/// Names the text frames of an `id3::Tag`: frame identifier to text. The tag
/// holds at most one text frame per identifier.
pub uninterp spec fn tag_texts(tag: Tag) -> Map<Seq<char>, Seq<char>>;

/// Names the picture frames of an `id3::Tag`: picture type code to MIME
/// type, description and image data. The tag holds at most one picture per
/// picture type.
pub uninterp spec fn tag_pictures(tag: Tag) -> Map<u8, (Seq<char>, Seq<char>, Seq<u8>)>;

/// Names whether every frame of an `id3::Tag` is as these wrappers make
/// them: without an explicit text encoding, holding text under a text frame
/// identifier and a picture under `APIC`. For such tags `TagLike::add_frame`
/// replaces exactly the frame with the same identifier (for pictures, the
/// same picture type).
pub uninterp spec fn tag_plain(tag: Tag) -> bool;

/// The kinds of picture this library adds to a tag.
pub enum PictureKind {
    /// The front cover (ID3 picture type 3).
    FrontCover,
}

/// The ID3 picture type code of a kind.
pub open spec fn picture_code(kind: PictureKind) -> u8 {
    match kind {
        PictureKind::FrontCover => 3,
    }
}

/// No text frames.
pub open spec fn no_texts() -> Map<Seq<char>, Seq<char>> {
    Map::empty()
}

/// No picture frames.
pub open spec fn no_pictures() -> Map<u8, (Seq<char>, Seq<char>, Seq<u8>)> {
    Map::empty()
}

/// `Tag::new`: a tag without frames (`Tag::default`).
#[verifier::external_body]
fn tag_new() -> (fresh: Tag)
    ensures
        tag_plain(fresh),
        tag_texts(fresh) == no_texts(),
        tag_pictures(fresh) == no_pictures(),
{
    Tag::new()
}

/// `TagLike::set_artist`: sets the text frame `TPE1`, replacing any earlier
/// one; other frames stay.
#[verifier::external_body]
fn tag_set_artist(tag: &mut Tag, artist: String)
    requires
        tag_plain(*old(tag)),
    ensures
        tag_plain(*final(tag)),
        tag_texts(*final(tag)) == tag_texts(*old(tag)).insert("TPE1"@, artist@),
        tag_pictures(*final(tag)) == tag_pictures(*old(tag)),
{
    tag.set_artist(artist);
}

/// `TagLike::set_title`: sets the text frame `TIT2`, replacing any earlier
/// one; other frames stay.
#[verifier::external_body]
fn tag_set_title(tag: &mut Tag, title: String)
    requires
        tag_plain(*old(tag)),
    ensures
        tag_plain(*final(tag)),
        tag_texts(*final(tag)) == tag_texts(*old(tag)).insert("TIT2"@, title@),
        tag_pictures(*final(tag)) == tag_pictures(*old(tag)),
{
    tag.set_title(title);
}

/// `TagLike::set_album`: sets the text frame `TALB`, replacing any earlier
/// one; other frames stay.
#[verifier::external_body]
fn tag_set_album(tag: &mut Tag, album: String)
    requires
        tag_plain(*old(tag)),
    ensures
        tag_plain(*final(tag)),
        tag_texts(*final(tag)) == tag_texts(*old(tag)).insert("TALB"@, album@),
        tag_pictures(*final(tag)) == tag_pictures(*old(tag)),
{
    tag.set_album(album);
}

/// `TagLike::add_frame` with a picture: adds the picture frame, replacing the
/// earlier picture of the same type (the frames it compares equal to); text
/// frames stay. The frame that was replaced is dropped.
#[verifier::external_body]
fn tag_add_frame_picture(
    tag: &mut Tag,
    mime_type: String,
    kind: PictureKind,
    description: String,
    data: Vec<u8>,
)
    requires
        tag_plain(*old(tag)),
    ensures
        tag_plain(*final(tag)),
        tag_pictures(*final(tag)) == tag_pictures(*old(tag)).insert(
            picture_code(kind),
            (mime_type@, description@, data@),
        ),
        tag_texts(*final(tag)) == tag_texts(*old(tag)),
{
    let picture_type = match kind {
        PictureKind::FrontCover => PictureType::CoverFront,
    };
    tag.add_frame(Picture { mime_type, picture_type, description, data });
}

/// Collects the metadata of a track, then builds its ID3 tag.
pub struct VideoTagger {
    cover: Option<String>,
    artist: Option<String>,
    title: Option<String>,
    album: Option<String>,
}

/// The plain value of a `VideoTagger`: the path of the cover image, and the
/// artist, title and album.
pub struct TaggerView {
    pub cover: Option<Seq<char>>,
    pub artist: Option<Seq<char>>,
    pub title: Option<Seq<char>>,
    pub album: Option<Seq<char>>,
}

impl View for VideoTagger {
    type V = TaggerView;

    closed spec fn view(&self) -> TaggerView {
        TaggerView {
            cover: opt_string_view(self.cover),
            artist: opt_string_view(self.artist),
            title: opt_string_view(self.title),
            album: opt_string_view(self.album),
        }
    }
}

/// The MIME type given to the cover picture.
pub open spec fn cover_mime() -> Seq<char> {
    "image/jpeg"@
}

/// The text frames that a tagger's tag holds: `TPE1` for the artist, `TIT2`
/// for the title, `TALB` for the album, each only when set.
pub open spec fn tagger_texts(t: TaggerView) -> Map<Seq<char>, Seq<char>> {
    let m0 = no_texts();
    let m1 = match t.artist {
        Some(a) => m0.insert("TPE1"@, a),
        None => m0,
    };
    let m2 = match t.title {
        Some(x) => m1.insert("TIT2"@, x),
        None => m1,
    };
    match t.album {
        Some(x) => m2.insert("TALB"@, x),
        None => m2,
    }
}

/// The pictures that a tagger's tag holds: with a cover, the front cover, a
/// JPEG without description whose data are `cover_data`.
pub open spec fn tagger_pictures(t: TaggerView, cover_data: Seq<u8>) -> Map<
    u8,
    (Seq<char>, Seq<char>, Seq<u8>),
> {
    match t.cover {
        Some(_) => no_pictures().insert(
            picture_code(PictureKind::FrontCover),
            (cover_mime(), Seq::<char>::empty(), cover_data),
        ),
        None => no_pictures(),
    }
}

impl VideoTagger {
    /// A tagger with nothing set.
    pub fn new() -> (r: Self)
        ensures
            r@ == (TaggerView { cover: None, artist: None, title: None, album: None }),
    {
        VideoTagger { cover: None, artist: None, title: None, album: None }
    }

    /// Sets the path of the cover image.
    pub fn cover(self, cover: String) -> (r: Self)
        ensures
            r@ == (TaggerView { cover: Some(cover@), ..self@ }),
    {
        VideoTagger { cover: Some(cover), ..self }
    }

    /// Sets the artist.
    pub fn artist(self, artist: String) -> (r: Self)
        ensures
            r@ == (TaggerView { artist: Some(artist@), ..self@ }),
    {
        VideoTagger { artist: Some(artist), ..self }
    }

    /// Sets the title.
    pub fn title(self, title: String) -> (r: Self)
        ensures
            r@ == (TaggerView { title: Some(title@), ..self@ }),
    {
        VideoTagger { title: Some(title), ..self }
    }

    /// Sets the album when one is given; keeps the earlier one otherwise.
    pub fn album_opt(self, album: Option<String>) -> (r: Self)
        ensures
            r@ == (match album {
                Some(a) => TaggerView { album: Some(a@), ..self@ },
                None => self@,
            }),
    {
        match album {
            Some(a) => VideoTagger { album: Some(a), ..self },
            None => self,
        }
    }

    /// The path of the cover image, when one is set.
    pub fn cover_path(&self) -> (r: Option<String>)
        ensures
            opt_string_view(r) == self@.cover,
    {
        match &self.cover {
            Some(c) => Some(c.clone()),
            None => None,
        }
    }

    /// The ID3 tag of this track: the artist, title and album that are set,
    /// and with a cover, the front cover whose image data are `cover_data`,
    /// the bytes of the file at the cover path.
    pub fn build_tag(self, cover_data: Option<Vec<u8>>) -> (tag: Tag)
        requires
            self@.cover is Some ==> cover_data is Some,
        ensures
            tag_plain(tag),
            tag_texts(tag) == tagger_texts(self@),
            self@.cover is Some ==> tag_pictures(tag) == tagger_pictures(
                self@,
                cover_data.unwrap()@,
            ),
            self@.cover is None ==> tag_pictures(tag) == no_pictures(),
    {
        let ghost v = self@;
        let mut tag = tag_new();
        if let Some(artist) = self.artist {
            tag_set_artist(&mut tag, artist);
        }
        if let Some(title) = self.title {
            tag_set_title(&mut tag, title);
        }
        if let Some(album) = self.album {
            tag_set_album(&mut tag, album);
        }
        assert(tag_texts(tag) =~= tagger_texts(v));
        if self.cover.is_some() {
            if let Some(data) = cover_data {
                tag_add_frame_picture(&mut tag, "image/jpeg".to_string(), PictureKind::FrontCover, String::new(), data);
            }
        }
        tag
    }
}

} // verus!
