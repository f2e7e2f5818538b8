//! Media files: the kinds, the white list of formats, where an upload is
//! stored, and the rows and DTOs that describe stored media.
use vstd::prelude::*;

use crate::crypto::uuid_v4_text;
use crate::error::AppError;
use crate::text::{
    ascii_chars, ascii_lower, chars_eq, chars_of, decimal_u64, nat_decimal, push_chars, split_chars,
    split_on, string_of, to_ascii_lower, trim, trim_chars, ascii_to_chars,
};

verus! {

/// The kind of a media file.
#[derive(Clone, Copy, Debug, PartialEq, Eq, Structural)]
pub enum Kind {
    Image,
    Video,
    Audio,
}

pub open spec fn kind_name(k: Kind) -> Seq<char> {
    match k {
        Kind::Image => "image"@,
        Kind::Video => "video"@,
        Kind::Audio => "audio"@,
    }
}

impl Kind {
    /// `image`, `video` or `audio`; anything else is an unsupported kind.
    pub fn parse(raw: &str) -> (r: Result<Kind, AppError>)
        ensures
            match r {
                Ok(k) => kind_name(k) == raw@,
                Err(e) => e is Unsupported && e->Unsupported_0@ == "未知的媒体种类: "@ + raw@
                    && raw@ != "image"@ && raw@ != "video"@ && raw@ != "audio"@,
            },
    {
        let chars = chars_of(raw);
        if chars_eq(&chars, &chars_of("image")) {
            Ok(Kind::Image)
        } else if chars_eq(&chars, &chars_of("video")) {
            Ok(Kind::Video)
        } else if chars_eq(&chars, &chars_of("audio")) {
            Ok(Kind::Audio)
        } else {
            let mut m = chars_of("未知的媒体种类: ");
            push_chars(&mut m, &chars);
            Err(AppError::Unsupported(string_of(&m)))
        }
    }

    pub fn as_str(self) -> (s: &'static str)
        ensures
            s@ == kind_name(self),
    {
        match self {
            Kind::Image => "image",
            Kind::Video => "video",
            Kind::Audio => "audio",
        }
    }
}

/// The white list: MIME type, extension, kind. The client's file name is
/// never used, so nothing can travel through it.
pub open spec fn media_types() -> Seq<(Seq<char>, Seq<char>, Kind)> {
    seq![
        ("image/jpeg"@, "jpg"@, Kind::Image),
        ("image/pjpeg"@, "jpg"@, Kind::Image),
        ("image/png"@, "png"@, Kind::Image),
        ("image/webp"@, "webp"@, Kind::Image),
        ("image/gif"@, "gif"@, Kind::Image),
        ("image/avif"@, "avif"@, Kind::Image),
        ("image/heic"@, "heic"@, Kind::Image),
        ("image/heif"@, "heic"@, Kind::Image),
        ("image/bmp"@, "bmp"@, Kind::Image),
        ("image/tiff"@, "tiff"@, Kind::Image),
        ("video/mp4"@, "mp4"@, Kind::Video),
        ("video/quicktime"@, "mov"@, Kind::Video),
        ("video/webm"@, "webm"@, Kind::Video),
        ("video/x-matroska"@, "mkv"@, Kind::Video),
        ("video/x-msvideo"@, "avi"@, Kind::Video),
        ("video/mpeg"@, "mpeg"@, Kind::Video),
        ("video/3gpp"@, "3gp"@, Kind::Video),
        ("audio/mpeg"@, "mp3"@, Kind::Audio),
        ("audio/mp3"@, "mp3"@, Kind::Audio),
        ("audio/mp4"@, "m4a"@, Kind::Audio),
        ("audio/x-m4a"@, "m4a"@, Kind::Audio),
        ("audio/aac"@, "aac"@, Kind::Audio),
        ("audio/ogg"@, "ogg"@, Kind::Audio),
        ("audio/opus"@, "opus"@, Kind::Audio),
        ("audio/wav"@, "wav"@, Kind::Audio),
        ("audio/x-wav"@, "wav"@, Kind::Audio),
        ("audio/wave"@, "wav"@, Kind::Audio),
        ("audio/flac"@, "flac"@, Kind::Audio),
        ("audio/x-flac"@, "flac"@, Kind::Audio),
        ("audio/webm"@, "weba"@, Kind::Audio),
    ]
}

/// The extension of the first white-list entry for this MIME type and kind.
pub open spec fn lookup_in(table: Seq<(Seq<char>, Seq<char>, Kind)>, mime: Seq<char>, kind: Kind) -> Option<
    Seq<char>,
>
    decreases table.len(),
{
    if table.len() == 0 {
        None
    } else if table[0].0 == mime && table[0].2 == kind {
        Some(table[0].1)
    } else {
        lookup_in(table.drop_first(), mime, kind)
    }
}

/// The entry at `i` is the first one for its MIME type and kind, so the
/// lookup finds its extension.
proof fn lemma_lookup_at(table: Seq<(Seq<char>, Seq<char>, Kind)>, i: int, mime: Seq<char>, kind: Kind)
    requires
        0 <= i < table.len(),
        table[i].0 == mime,
        table[i].2 == kind,
        forall|j: int| 0 <= j < i ==> !(#[trigger] table[j].0 == mime && table[j].2 == kind),
    ensures
        lookup_in(table, mime, kind) == Some(table[i].1),
    decreases i,
{
    if i > 0 {
        assert(!(table[0].0 == mime && table[0].2 == kind));
        let rest = table.drop_first();
        assert forall|j: int| 0 <= j < i - 1 implies !(#[trigger] rest[j].0 == mime && rest[j].2 == kind) by {
            assert(rest[j] == table[j + 1]);
        }
        lemma_lookup_at(rest, i - 1, mime, kind);
    }
}

/// Law: the white list takes the usual image, video and audio types of
/// phones and cameras, each to its usual extension: JPEG, PNG, WebP, GIF,
/// AVIF, HEIC/HEIF, BMP and TIFF images; MP4, QuickTime, WebM, Matroska,
/// AVI, MPEG and 3GPP videos; MP3, AAC/M4A, Ogg, Opus, WAV, FLAC and WebM
/// audio.
pub proof fn white_list_takes_common_types()
    ensures
        lookup_in(media_types(), "image/jpeg"@, Kind::Image) == Some("jpg"@),
        lookup_in(media_types(), "image/pjpeg"@, Kind::Image) == Some("jpg"@),
        lookup_in(media_types(), "image/png"@, Kind::Image) == Some("png"@),
        lookup_in(media_types(), "image/webp"@, Kind::Image) == Some("webp"@),
        lookup_in(media_types(), "image/gif"@, Kind::Image) == Some("gif"@),
        lookup_in(media_types(), "image/avif"@, Kind::Image) == Some("avif"@),
        lookup_in(media_types(), "image/heic"@, Kind::Image) == Some("heic"@),
        lookup_in(media_types(), "image/heif"@, Kind::Image) == Some("heic"@),
        lookup_in(media_types(), "image/bmp"@, Kind::Image) == Some("bmp"@),
        lookup_in(media_types(), "image/tiff"@, Kind::Image) == Some("tiff"@),
        lookup_in(media_types(), "video/mp4"@, Kind::Video) == Some("mp4"@),
        lookup_in(media_types(), "video/quicktime"@, Kind::Video) == Some("mov"@),
        lookup_in(media_types(), "video/webm"@, Kind::Video) == Some("webm"@),
        lookup_in(media_types(), "video/x-matroska"@, Kind::Video) == Some("mkv"@),
        lookup_in(media_types(), "video/x-msvideo"@, Kind::Video) == Some("avi"@),
        lookup_in(media_types(), "video/mpeg"@, Kind::Video) == Some("mpeg"@),
        lookup_in(media_types(), "video/3gpp"@, Kind::Video) == Some("3gp"@),
        lookup_in(media_types(), "audio/mpeg"@, Kind::Audio) == Some("mp3"@),
        lookup_in(media_types(), "audio/mp3"@, Kind::Audio) == Some("mp3"@),
        lookup_in(media_types(), "audio/mp4"@, Kind::Audio) == Some("m4a"@),
        lookup_in(media_types(), "audio/x-m4a"@, Kind::Audio) == Some("m4a"@),
        lookup_in(media_types(), "audio/aac"@, Kind::Audio) == Some("aac"@),
        lookup_in(media_types(), "audio/ogg"@, Kind::Audio) == Some("ogg"@),
        lookup_in(media_types(), "audio/opus"@, Kind::Audio) == Some("opus"@),
        lookup_in(media_types(), "audio/wav"@, Kind::Audio) == Some("wav"@),
        lookup_in(media_types(), "audio/x-wav"@, Kind::Audio) == Some("wav"@),
        lookup_in(media_types(), "audio/wave"@, Kind::Audio) == Some("wav"@),
        lookup_in(media_types(), "audio/flac"@, Kind::Audio) == Some("flac"@),
        lookup_in(media_types(), "audio/x-flac"@, Kind::Audio) == Some("flac"@),
        lookup_in(media_types(), "audio/webm"@, Kind::Audio) == Some("weba"@),
{
    reveal_strlit("3gp");
    reveal_strlit("aac");
    reveal_strlit("audio/aac");
    reveal_strlit("audio/flac");
    reveal_strlit("audio/mp3");
    reveal_strlit("audio/mp4");
    reveal_strlit("audio/mpeg");
    reveal_strlit("audio/ogg");
    reveal_strlit("audio/opus");
    reveal_strlit("audio/wav");
    reveal_strlit("audio/wave");
    reveal_strlit("audio/webm");
    reveal_strlit("audio/x-flac");
    reveal_strlit("audio/x-m4a");
    reveal_strlit("audio/x-wav");
    reveal_strlit("avi");
    reveal_strlit("avif");
    reveal_strlit("bmp");
    reveal_strlit("flac");
    reveal_strlit("gif");
    reveal_strlit("heic");
    reveal_strlit("image/avif");
    reveal_strlit("image/bmp");
    reveal_strlit("image/gif");
    reveal_strlit("image/heic");
    reveal_strlit("image/heif");
    reveal_strlit("image/jpeg");
    reveal_strlit("image/pjpeg");
    reveal_strlit("image/png");
    reveal_strlit("image/tiff");
    reveal_strlit("image/webp");
    reveal_strlit("jpg");
    reveal_strlit("m4a");
    reveal_strlit("mkv");
    reveal_strlit("mov");
    reveal_strlit("mp3");
    reveal_strlit("mp4");
    reveal_strlit("mpeg");
    reveal_strlit("ogg");
    reveal_strlit("opus");
    reveal_strlit("png");
    reveal_strlit("tiff");
    reveal_strlit("video/3gpp");
    reveal_strlit("video/mp4");
    reveal_strlit("video/mpeg");
    reveal_strlit("video/quicktime");
    reveal_strlit("video/webm");
    reveal_strlit("video/x-matroska");
    reveal_strlit("video/x-msvideo");
    reveal_strlit("wav");
    reveal_strlit("weba");
    reveal_strlit("webm");
    reveal_strlit("webp");
    let t = media_types();
    assert(t[0].0 == "image/jpeg"@ && t[0].2 == Kind::Image);
    assert(t[1].0 == "image/pjpeg"@ && t[1].2 == Kind::Image);
    assert(t[2].0 == "image/png"@ && t[2].2 == Kind::Image);
    assert(t[3].0 == "image/webp"@ && t[3].2 == Kind::Image);
    assert(t[4].0 == "image/gif"@ && t[4].2 == Kind::Image);
    assert(t[5].0 == "image/avif"@ && t[5].2 == Kind::Image);
    assert(t[6].0 == "image/heic"@ && t[6].2 == Kind::Image);
    assert(t[7].0 == "image/heif"@ && t[7].2 == Kind::Image);
    assert(t[8].0 == "image/bmp"@ && t[8].2 == Kind::Image);
    assert(t[9].0 == "image/tiff"@ && t[9].2 == Kind::Image);
    assert(t[10].0 == "video/mp4"@ && t[10].2 == Kind::Video);
    assert(t[11].0 == "video/quicktime"@ && t[11].2 == Kind::Video);
    assert(t[12].0 == "video/webm"@ && t[12].2 == Kind::Video);
    assert(t[13].0 == "video/x-matroska"@ && t[13].2 == Kind::Video);
    assert(t[14].0 == "video/x-msvideo"@ && t[14].2 == Kind::Video);
    assert(t[15].0 == "video/mpeg"@ && t[15].2 == Kind::Video);
    assert(t[16].0 == "video/3gpp"@ && t[16].2 == Kind::Video);
    assert(t[17].0 == "audio/mpeg"@ && t[17].2 == Kind::Audio);
    assert(t[18].0 == "audio/mp3"@ && t[18].2 == Kind::Audio);
    assert(t[19].0 == "audio/mp4"@ && t[19].2 == Kind::Audio);
    assert(t[20].0 == "audio/x-m4a"@ && t[20].2 == Kind::Audio);
    assert(t[21].0 == "audio/aac"@ && t[21].2 == Kind::Audio);
    assert(t[22].0 == "audio/ogg"@ && t[22].2 == Kind::Audio);
    assert(t[23].0 == "audio/opus"@ && t[23].2 == Kind::Audio);
    assert(t[24].0 == "audio/wav"@ && t[24].2 == Kind::Audio);
    assert(t[25].0 == "audio/x-wav"@ && t[25].2 == Kind::Audio);
    assert(t[26].0 == "audio/wave"@ && t[26].2 == Kind::Audio);
    assert(t[27].0 == "audio/flac"@ && t[27].2 == Kind::Audio);
    assert(t[28].0 == "audio/x-flac"@ && t[28].2 == Kind::Audio);
    assert(t[29].0 == "audio/webm"@ && t[29].2 == Kind::Audio);
    lemma_lookup_at(t, 0, "image/jpeg"@, Kind::Image);
    lemma_lookup_at(t, 1, "image/pjpeg"@, Kind::Image);
    lemma_lookup_at(t, 2, "image/png"@, Kind::Image);
    assert("image/webp"@[6] != "image/jpeg"@[6]);
    lemma_lookup_at(t, 3, "image/webp"@, Kind::Image);
    assert("image/gif"@[6] != "image/png"@[6]);
    lemma_lookup_at(t, 4, "image/gif"@, Kind::Image);
    assert("image/avif"@[6] != "image/jpeg"@[6]);
    assert("image/avif"@[6] != "image/webp"@[6]);
    lemma_lookup_at(t, 5, "image/avif"@, Kind::Image);
    assert("image/heic"@[6] != "image/jpeg"@[6]);
    assert("image/heic"@[6] != "image/webp"@[6]);
    assert("image/heic"@[6] != "image/avif"@[6]);
    lemma_lookup_at(t, 6, "image/heic"@, Kind::Image);
    assert("image/heif"@[6] != "image/jpeg"@[6]);
    assert("image/heif"@[6] != "image/webp"@[6]);
    assert("image/heif"@[6] != "image/avif"@[6]);
    assert("image/heif"@[9] != "image/heic"@[9]);
    lemma_lookup_at(t, 7, "image/heif"@, Kind::Image);
    assert("image/bmp"@[6] != "image/png"@[6]);
    assert("image/bmp"@[6] != "image/gif"@[6]);
    lemma_lookup_at(t, 8, "image/bmp"@, Kind::Image);
    assert("image/tiff"@[6] != "image/jpeg"@[6]);
    assert("image/tiff"@[6] != "image/webp"@[6]);
    assert("image/tiff"@[6] != "image/avif"@[6]);
    assert("image/tiff"@[6] != "image/heic"@[6]);
    assert("image/tiff"@[6] != "image/heif"@[6]);
    lemma_lookup_at(t, 9, "image/tiff"@, Kind::Image);
    lemma_lookup_at(t, 10, "video/mp4"@, Kind::Video);
    lemma_lookup_at(t, 11, "video/quicktime"@, Kind::Video);
    lemma_lookup_at(t, 12, "video/webm"@, Kind::Video);
    lemma_lookup_at(t, 13, "video/x-matroska"@, Kind::Video);
    assert("video/x-msvideo"@[6] != "video/quicktime"@[6]);
    lemma_lookup_at(t, 14, "video/x-msvideo"@, Kind::Video);
    assert("video/mpeg"@[6] != "video/webm"@[6]);
    lemma_lookup_at(t, 15, "video/mpeg"@, Kind::Video);
    assert("video/3gpp"@[6] != "video/webm"@[6]);
    assert("video/3gpp"@[6] != "video/mpeg"@[6]);
    lemma_lookup_at(t, 16, "video/3gpp"@, Kind::Video);
    lemma_lookup_at(t, 17, "audio/mpeg"@, Kind::Audio);
    lemma_lookup_at(t, 18, "audio/mp3"@, Kind::Audio);
    assert("audio/mp4"@[8] != "audio/mp3"@[8]);
    lemma_lookup_at(t, 19, "audio/mp4"@, Kind::Audio);
    lemma_lookup_at(t, 20, "audio/x-m4a"@, Kind::Audio);
    assert("audio/aac"@[6] != "audio/mp3"@[6]);
    assert("audio/aac"@[6] != "audio/mp4"@[6]);
    lemma_lookup_at(t, 21, "audio/aac"@, Kind::Audio);
    assert("audio/ogg"@[6] != "audio/mp3"@[6]);
    assert("audio/ogg"@[6] != "audio/mp4"@[6]);
    assert("audio/ogg"@[6] != "audio/aac"@[6]);
    lemma_lookup_at(t, 22, "audio/ogg"@, Kind::Audio);
    assert("audio/opus"@[6] != "audio/mpeg"@[6]);
    lemma_lookup_at(t, 23, "audio/opus"@, Kind::Audio);
    assert("audio/wav"@[6] != "audio/mp3"@[6]);
    assert("audio/wav"@[6] != "audio/mp4"@[6]);
    assert("audio/wav"@[6] != "audio/aac"@[6]);
    assert("audio/wav"@[6] != "audio/ogg"@[6]);
    lemma_lookup_at(t, 24, "audio/wav"@, Kind::Audio);
    assert("audio/x-wav"@[8] != "audio/x-m4a"@[8]);
    lemma_lookup_at(t, 25, "audio/x-wav"@, Kind::Audio);
    assert("audio/wave"@[6] != "audio/mpeg"@[6]);
    assert("audio/wave"@[6] != "audio/opus"@[6]);
    lemma_lookup_at(t, 26, "audio/wave"@, Kind::Audio);
    assert("audio/flac"@[6] != "audio/mpeg"@[6]);
    assert("audio/flac"@[6] != "audio/opus"@[6]);
    assert("audio/flac"@[6] != "audio/wave"@[6]);
    lemma_lookup_at(t, 27, "audio/flac"@, Kind::Audio);
    lemma_lookup_at(t, 28, "audio/x-flac"@, Kind::Audio);
    assert("audio/webm"@[6] != "audio/mpeg"@[6]);
    assert("audio/webm"@[6] != "audio/opus"@[6]);
    assert("audio/webm"@[7] != "audio/wave"@[7]);
    assert("audio/webm"@[6] != "audio/flac"@[6]);
    lemma_lookup_at(t, 29, "audio/webm"@, Kind::Audio);
}

fn type_table() -> (t: Vec<(&'static str, &'static str, Kind)>)
    ensures
        t@.map_values(|e: (&'static str, &'static str, Kind)| (e.0@, e.1@, e.2)) == media_types(),
{
    let t = vec![
        ("image/jpeg", "jpg", Kind::Image),
        ("image/pjpeg", "jpg", Kind::Image),
        ("image/png", "png", Kind::Image),
        ("image/webp", "webp", Kind::Image),
        ("image/gif", "gif", Kind::Image),
        ("image/avif", "avif", Kind::Image),
        ("image/heic", "heic", Kind::Image),
        ("image/heif", "heic", Kind::Image),
        ("image/bmp", "bmp", Kind::Image),
        ("image/tiff", "tiff", Kind::Image),
        ("video/mp4", "mp4", Kind::Video),
        ("video/quicktime", "mov", Kind::Video),
        ("video/webm", "webm", Kind::Video),
        ("video/x-matroska", "mkv", Kind::Video),
        ("video/x-msvideo", "avi", Kind::Video),
        ("video/mpeg", "mpeg", Kind::Video),
        ("video/3gpp", "3gp", Kind::Video),
        ("audio/mpeg", "mp3", Kind::Audio),
        ("audio/mp3", "mp3", Kind::Audio),
        ("audio/mp4", "m4a", Kind::Audio),
        ("audio/x-m4a", "m4a", Kind::Audio),
        ("audio/aac", "aac", Kind::Audio),
        ("audio/ogg", "ogg", Kind::Audio),
        ("audio/opus", "opus", Kind::Audio),
        ("audio/wav", "wav", Kind::Audio),
        ("audio/x-wav", "wav", Kind::Audio),
        ("audio/wave", "wav", Kind::Audio),
        ("audio/flac", "flac", Kind::Audio),
        ("audio/x-flac", "flac", Kind::Audio),
        ("audio/webm", "weba", Kind::Audio),
    ];
    assert(t@.map_values(|e: (&'static str, &'static str, Kind)| (e.0@, e.1@, e.2))
        =~= media_types());
    t
}

/// The extension stored files of this MIME type and kind get, if the
/// combination is on the white list.
pub fn lookup(mime: &str, kind: Kind) -> (ext: Option<&'static str>)
    ensures
        match lookup_in(media_types(), mime@, kind) {
            Some(e) => ext is Some && ext->0@ == e,
            None => ext is None,
        },
{
    let table = type_table();
    let m = chars_of(mime);
    let ghost all = media_types();
    assert(all.skip(0) =~= all);
    for i in 0..table.len()
        invariant
            all == media_types(),
            all == table@.map_values(|e: (&'static str, &'static str, Kind)| (e.0@, e.1@, e.2)),
            m@ == mime@,
            lookup_in(all, mime@, kind) == lookup_in(all.skip(i as int), mime@, kind),
    {
        let entry = table[i];
        assert(all.skip(i as int)[0] == all[i as int]);
        assert(all.skip(i as int).drop_first() =~= all.skip(i + 1));
        if chars_eq(&m, &chars_of(entry.0)) && entry.2 == kind {
            return Some(entry.1);
        }
    }
    None
}

/// The MIME type of an upload: the declared content type (or
/// `application/octet-stream`), ASCII-lower-cased, cut at the first `;`
/// and trimmed.
pub open spec fn normalized_mime(content_type: Option<Seq<char>>) -> Seq<char> {
    let raw = match content_type {
        Some(t) => t,
        None => "application/octet-stream"@,
    };
    trim(split_on(ascii_lower(raw), ';')[0])
}

pub fn normalize_mime(content_type: Option<&str>) -> (m: String)
    ensures
        m@ == normalized_mime(
            match content_type {
                Some(t) => Some(t@),
                None => None,
            },
        ),
{
    let raw = match content_type {
        Some(t) => t,
        None => "application/octet-stream",
    };
    let lower = to_ascii_lower(&chars_of(raw));
    let parts = split_chars(&lower, ';');
    proof {
        crate::text::lemma_split_len(lower@, ';');
    }
    assert(parts@[0]@ == split_on(lower@, ';')[0]);
    string_of(&trim_chars(&parts[0]))
}

/// A stored file, relative to the data directory.
pub struct SavedFile {
    pub rel_path: String,
    pub size_bytes: i64,
    pub mime_type: String,
}

/// A media row to insert.
pub struct NewMedia {
    pub kind: String,
    pub role: String,
    pub file_path: String,
    pub thumb_path: Option<String>,
    pub mime_type: String,
    pub size_bytes: i64,
    pub width: Option<i32>,
    pub height: Option<i32>,
    pub duration_ms: Option<i32>,
}

/// Where an upload is to be written, and under which limit.
pub struct PlannedFile {
    /// `YYYY/MM/DD/<uuid>[-<tag>].<ext>`, relative to the data directory.
    pub rel_path: String,
    pub mime_type: String,
    /// The byte limit; `None` for videos, which have none.
    pub limit: Option<i64>,
}

/// The media store on disk.
pub struct Storage {
    root: String,
    max_bytes: usize,
}

/// `{:02}` of a number: at least two digits.
pub open spec fn two_digits(n: nat) -> Seq<char> {
    if n < 10 {
        seq!['0'] + ascii_chars(nat_decimal(n))
    } else {
        ascii_chars(nat_decimal(n))
    }
}

/// The relative path of a stored file: the date, then a random name.
pub open spec fn stored_path(
    year: nat,
    month: nat,
    day: nat,
    name: Seq<char>,
    tag: Option<Seq<char>>,
    ext: Seq<char>,
) -> Seq<char> {
    ascii_chars(nat_decimal(year)) + seq!['/'] + two_digits(month) + seq!['/'] + two_digits(day)
        + seq!['/'] + name + match tag {
        Some(t) => seq!['-'] + t,
        None => Seq::<char>::empty(),
    } + seq!['.'] + ext
}

/// The characters of a decimal number are not `/` and not `.`.
proof fn lemma_decimal_chars(n: nat)
    ensures
        ascii_chars(nat_decimal(n)).len() >= 1,
        forall|i: int|
            0 <= i < ascii_chars(nat_decimal(n)).len() ==> '0' <= #[trigger] ascii_chars(nat_decimal(n))[i] <= '9',
{
    crate::text::lemma_nat_decimal(n);
    let d = nat_decimal(n);
    assert forall|i: int| 0 <= i < ascii_chars(d).len() implies '0' <= #[trigger] ascii_chars(d)[i] <= '9' by {
        assert(crate::text::is_digit(d[i]));
    }
}

proof fn lemma_two_digits_chars(n: nat)
    ensures
        two_digits(n).len() >= 1,
        forall|i: int| 0 <= i < two_digits(n).len() ==> '0' <= #[trigger] two_digits(n)[i] <= '9',
{
    lemma_decimal_chars(n);
    let t = ascii_chars(nat_decimal(n));
    if n < 10 {
        assert forall|i: int| 0 <= i < two_digits(n).len() implies '0' <= #[trigger] two_digits(n)[i] <= '9' by {
            if i > 0 {
                assert(two_digits(n)[i] == t[i - 1]);
            }
        }
    }
}

/// Law: a planned upload path stays inside the storage root. For a random
/// name in UUID form, a tag and an extension without `/`, the path is not
/// absolute and splits into four parts (year, month, day, file name), none
/// of them empty, `.` or `..`.
pub proof fn stored_path_stays_inside(
    year: nat,
    month: nat,
    day: nat,
    name: Seq<char>,
    tag: Option<Seq<char>>,
    ext: Seq<char>,
)
    requires
        crate::crypto::is_uuid_text(name),
        tag matches Some(t) ==> crate::text::lacks(t, '/'),
        crate::text::lacks(ext, '/'),
    ensures
        ({
            let path = stored_path(year, month, day, name, tag, ext);
            let parts = split_on(path, '/');
            &&& path[0] != '/'
            &&& parts.len() == 4
            &&& forall|i: int| 0 <= i < 4 ==> crate::backup::clean_part(#[trigger] parts[i])
        }),
{
    let y = ascii_chars(nat_decimal(year));
    let m = two_digits(month);
    let d = two_digits(day);
    let tail = match tag {
        Some(t) => seq!['-'] + t,
        None => Seq::<char>::empty(),
    };
    let f = name + tail + seq!['.'] + ext;
    lemma_decimal_chars(year);
    lemma_two_digits_chars(month);
    lemma_two_digits_chars(day);
    assert(crate::text::lacks(y, '/'));
    assert(crate::text::lacks(m, '/'));
    assert(crate::text::lacks(d, '/'));
    assert forall|i: int| 0 <= i < f.len() implies f[i] != '/' by {
        if i < 36 {
            assert(f[i] == name[i]);
            if !(i == 8 || i == 13 || i == 18 || i == 23) {
                assert(crate::crypto::is_hex_lower_char(name[i]));
            }
        } else if i < 36 + tail.len() {
            assert(f[i] == tail[i - 36]);
            if i > 36 {
                assert(tail[i - 36] == tag->0[i - 37]);
            }
        } else if i == 36 + tail.len() {
        } else {
            assert(f[i] == ext[i - 37 - tail.len()]);
        }
    }
    let path = stored_path(year, month, day, name, tag, ext);
    let a = y + seq!['/'] + m;
    let b = a + seq!['/'] + d;
    assert(path =~= b + seq!['/'] + f);
    crate::text::lemma_split_single(y, '/');
    crate::text::lemma_split_field(y, m, '/');
    crate::text::lemma_split_field(a, d, '/');
    crate::text::lemma_split_field(b, f, '/');
    let parts = split_on(path, '/');
    assert(parts =~= seq![y, m, d, f]);
    assert(path[0] == y[0]);
    assert(y[0] != '.' && m[0] != '.' && d[0] != '.');
    assert(f.len() >= 37);
    assert forall|i: int| 0 <= i < 4 implies crate::backup::clean_part(#[trigger] parts[i]) by {
        if i == 0 {
            assert(y != seq!['.']);
            assert(y != seq!['.', '.']);
        } else if i == 1 {
            assert(m != seq!['.']);
            assert(m != seq!['.', '.']);
        } else if i == 2 {
            assert(d != seq!['.']);
            assert(d != seq!['.', '.']);
        } else {
            assert(f != seq!['.']);
            assert(f != seq!['.', '.']);
        }
    }
}

fn push_two_digits(out: &mut Vec<char>, n: u32)
    ensures
        final(out)@ == old(out)@ + two_digits(n as nat),
{
    if n < 10 {
        out.push('0');
    }
    push_chars(out, &ascii_to_chars(&decimal_u64(n as u64)));
    assert(final(out)@ =~= old(out)@ + two_digits(n as nat));
}

impl Storage {
    pub closed spec fn root_spec(&self) -> Seq<char> {
        self.root@
    }

    pub closed spec fn max_bytes_spec(&self) -> nat {
        self.max_bytes as nat
    }

    pub fn new(root: String, max_bytes: usize) -> (s: Storage)
        ensures
            s.root_spec() == root@,
            s.max_bytes_spec() == max_bytes,
    {
        Storage { root, max_bytes }
    }

    pub fn root(&self) -> (r: &str)
        ensures
            r@ == self.root_spec(),
    {
        self.root.as_str()
    }

    /// The upload limit for one file of a kind: none for videos (a clip is
    /// easily gigabytes), the configured one for images and audio.
    pub fn limit_for(&self, kind: Kind) -> (l: Option<i64>)
        ensures
            l == (if kind == Kind::Video {
                None
            } else {
                Some(self.max_bytes_spec() as i64)
            }),
    {
        if kind == Kind::Video {
            None
        } else {
            Some(self.max_bytes as i64)
        }
    }

    /// The error for an upload over the limit, naming the limit in MB.
    pub fn too_large(&self) -> (e: AppError)
        ensures
            e is PayloadTooLarge,
            e->PayloadTooLarge_0@ == "文件太大了，单个文件请控制在 "@ + ascii_chars(
                nat_decimal(self.max_bytes_spec() / 1024 / 1024),
            ) + " MB 以内"@,
    {
        let mut m = chars_of("文件太大了，单个文件请控制在 ");
        push_chars(&mut m, &ascii_to_chars(&decimal_u64((self.max_bytes / 1024 / 1024) as u64)));
        push_chars(&mut m, &chars_of(" MB 以内"));
        AppError::PayloadTooLarge(string_of(&m))
    }

    /// Decides where an upload goes: its MIME type must be on the white list
    /// for the kind; the file gets a random name under the upload date.
    pub fn plan_save(
        &self,
        content_type: Option<&str>,
        kind: Kind,
        year: u32,
        month: u32,
        day: u32,
        tag: Option<&str>,
    ) -> (r: Result<PlannedFile, AppError>)
        ensures
            ({
                let mime = normalized_mime(
                    match content_type {
                        Some(t) => Some(t@),
                        None => None,
                    },
                );
                match lookup_in(media_types(), mime, kind) {
                    Some(ext) => r is Ok && r->Ok_0.mime_type@ == mime && r->Ok_0.limit == (if kind
                        == Kind::Video {
                        None
                    } else {
                        Some(self.max_bytes_spec() as i64)
                    }) && exists|name: Seq<char>|
                        crate::crypto::is_uuid_text(name) && r->Ok_0.rel_path@ == stored_path(
                            year as nat,
                            month as nat,
                            day as nat,
                            name,
                            match tag {
                                Some(t) => Some(t@),
                                None => None,
                            },
                            ext,
                        ),
                    None => r is Err && r->Err_0 is Unsupported && r->Err_0->Unsupported_0@
                        == "暂时不支持这种文件格式（"@ + mime + "）"@,
                }
            }),
    {
        let mime = normalize_mime(content_type);
        let ext = match lookup(mime.as_str(), kind) {
            Some(e) => e,
            None => {
                let mut m = chars_of("暂时不支持这种文件格式（");
                push_chars(&mut m, &chars_of(mime.as_str()));
                push_chars(&mut m, &chars_of("）"));
                return Err(AppError::Unsupported(string_of(&m)));
            },
        };
        let name = uuid_v4_text();
        assert(crate::crypto::is_uuid_text(name@));
        let mut path = ascii_to_chars(&decimal_u64(year as u64));
        path.push('/');
        push_two_digits(&mut path, month);
        path.push('/');
        push_two_digits(&mut path, day);
        path.push('/');
        push_chars(&mut path, &chars_of(name.as_str()));
        match tag {
            Some(t) => {
                path.push('-');
                push_chars(&mut path, &chars_of(t));
            },
            None => {},
        }
        path.push('.');
        push_chars(&mut path, &chars_of(ext));
        let ghost tag_view = match tag {
            Some(t) => Some(t@),
            None => None::<Seq<char>>,
        };
        assert(path@ =~= stored_path(year as nat, month as nat, day as nat, name@, tag_view, ext@));
        Ok(PlannedFile { rel_path: string_of(&path), mime_type: mime, limit: self.limit_for(kind) })
    }
}

/// What an upload does with a multipart field, by its name.
#[derive(Clone, Copy, Debug, PartialEq, Eq, Structural)]
pub enum FieldAction {
    /// `file`: the main file, stored under the upload's kind.
    SaveMain,
    /// `thumb`: a thumbnail, stored as an image (audio takes none).
    SaveThumb,
    Width,
    Height,
    DurationMs,
    /// Anything else is ignored.
    Skip,
}

pub open spec fn field_action_spec(name: Seq<char>, kind: Kind) -> FieldAction {
    if name == "file"@ {
        FieldAction::SaveMain
    } else if name == "thumb"@ {
        if kind == Kind::Audio {
            FieldAction::Skip
        } else {
            FieldAction::SaveThumb
        }
    } else if name == "width"@ {
        FieldAction::Width
    } else if name == "height"@ {
        FieldAction::Height
    } else if name == "durationMs"@ {
        FieldAction::DurationMs
    } else {
        FieldAction::Skip
    }
}

/// The media column a field's number is stored in, for the actions that
/// store a number.
pub open spec fn number_column(a: FieldAction) -> Option<Seq<char>> {
    match a {
        FieldAction::Width => Some("width"@),
        FieldAction::Height => Some("height"@),
        FieldAction::DurationMs => Some("durationMs"@),
        _ => None,
    }
}

/// Law: a multipart field's number goes to the column of the same name,
/// whatever the kind of upload: `width` to the width, `height` to the
/// height, `durationMs` to the duration, and no other field to any of
/// them. `file` is always the main file; `thumb` is a thumbnail except for
/// audio, which takes none.
pub proof fn fields_go_to_their_columns(name: Seq<char>, kind: Kind)
    ensures
        number_column(field_action_spec(name, kind)) matches Some(c) ==> c == name,
        (name == "width"@ || name == "height"@ || name == "durationMs"@) ==> number_column(
            field_action_spec(name, kind),
        ) == Some(name),
        name == "file"@ ==> field_action_spec(name, kind) == FieldAction::SaveMain,
        name == "thumb"@ ==> field_action_spec(name, kind) == (if kind == Kind::Audio {
            FieldAction::Skip
        } else {
            FieldAction::SaveThumb
        }),
{
    reveal_strlit("file");
    reveal_strlit("thumb");
    reveal_strlit("width");
    reveal_strlit("height");
    reveal_strlit("durationMs");
    assert("width"@[0] != "file"@[0]);
    assert("height"@[0] != "thumb"@[0]);
    assert("height"@.len() != "width"@.len());
    assert("durationMs"@.len() != "file"@.len());
    assert("durationMs"@.len() != "thumb"@.len());
    assert("durationMs"@.len() != "width"@.len());
    assert("durationMs"@.len() != "height"@.len());
    assert("width"@[0] != "thumb"@[0]);
    assert("file"@.len() != "thumb"@.len());
}

pub fn field_action(name: &str, kind: Kind) -> (a: FieldAction)
    ensures
        a == field_action_spec(name@, kind),
{
    let n = chars_of(name);
    if chars_eq(&n, &chars_of("file")) {
        FieldAction::SaveMain
    } else if chars_eq(&n, &chars_of("thumb")) {
        if kind == Kind::Audio {
            FieldAction::Skip
        } else {
            FieldAction::SaveThumb
        }
    } else if chars_eq(&n, &chars_of("width")) {
        FieldAction::Width
    } else if chars_eq(&n, &chars_of("height")) {
        FieldAction::Height
    } else if chars_eq(&n, &chars_of("durationMs")) {
        FieldAction::DurationMs
    } else {
        FieldAction::Skip
    }
}

impl Storage {
    /// The size of an upload after one more chunk, refused once it passes
    /// the limit (videos have none).
    pub fn count_chunk(&self, limit: Option<i64>, size: i64, chunk: usize) -> (r: Result<i64, AppError>)
        requires
            0 <= size,
            size + chunk <= i64::MAX,
        ensures
            match limit {
                Some(l) => if size + chunk > l {
                    r is Err && r->Err_0 is PayloadTooLarge && r->Err_0->PayloadTooLarge_0@
                        == "文件太大了，单个文件请控制在 "@ + ascii_chars(
                        nat_decimal(self.max_bytes_spec() / 1024 / 1024),
                    ) + " MB 以内"@
                } else {
                    r == Ok::<i64, AppError>((size + chunk) as i64)
                },
                None => r == Ok::<i64, AppError>((size + chunk) as i64),
            },
    {
        let next = size + chunk as i64;
        match limit {
            Some(l) => if next > l {
                Err(self.too_large())
            } else {
                Ok(next)
            },
            None => Ok(next),
        }
    }
}

/// An upload must not be empty.
pub fn check_received(size: i64) -> (r: Result<(), AppError>)
    ensures
        size == 0 ==> r is Err && r->Err_0 is Validation && r->Err_0->Validation_0@
            == "这是一个空文件"@,
        size != 0 ==> r is Ok,
{
    if size == 0 {
        return Err(AppError::validation("这是一个空文件"));
    }
    Ok(())
}

/// An upload must bring its main file.
pub fn require_main(main: Option<SavedFile>) -> (r: Result<SavedFile, AppError>)
    ensures
        match main {
            Some(f) => r == Ok::<SavedFile, AppError>(f),
            None => r is Err && r->Err_0 is Validation && r->Err_0->Validation_0@
                == "没有收到文件，请重新选择"@,
        },
{
    match main {
        Some(f) => Ok(f),
        None => Err(AppError::validation("没有收到文件，请重新选择")),
    }
}

/// Whether a new upload is queued for automatic tagging: images and videos
/// (by their first-frame thumbnail), when the tagger runs.
pub fn queues_for_tagging(kind: Kind, tagger_enabled: bool) -> (r: bool)
    ensures
        r == ((kind == Kind::Image || kind == Kind::Video) && tagger_enabled),
{
    (kind == Kind::Image || kind == Kind::Video) && tagger_enabled
}

/// Only media that no moment uses may be deleted.
pub fn check_removable(media: Option<&MediaRow>, id: u128) -> (r: Result<(), AppError>)
    ensures
        match media {
            None => r is Err && r->Err_0 is NotFound && r->Err_0->resource@ == "媒体"@
                && r->Err_0->id@ == crate::moments::uuid_text(id),
            Some(m) => if m.moment_id is Some {
                r is Err && r->Err_0 is Validation && r->Err_0->Validation_0@
                    == "这段媒体正在被使用，请先移除它所属的点滴"@
            } else {
                r is Ok
            },
        },
{
    match media {
        None => Err(AppError::not_found("媒体", crate::moments::uuid_string(id))),
        Some(m) => if m.moment_id.is_some() {
            Err(AppError::validation("这段媒体正在被使用，请先移除它所属的点滴"))
        } else {
            Ok(())
        },
    }
}

/// The refusal when the media got used between the check and the delete.
pub fn in_use() -> (e: AppError)
    ensures
        e is Validation,
        e->Validation_0@ == "这段媒体正在被使用"@,
{
    AppError::validation("这段媒体正在被使用")
}

/// The media row for a finished upload: audio is the moment's music,
/// everything else an attachment; the thumbnail's path comes along when
/// there is one.
pub fn new_media(
    kind: Kind,
    main: SavedFile,
    thumb: Option<SavedFile>,
    width: Option<i32>,
    height: Option<i32>,
    duration_ms: Option<i32>,
) -> (m: NewMedia)
    ensures
        m.kind@ == kind_name(kind),
        m.role@ == (if kind == Kind::Audio {
            "music"@
        } else {
            "attachment"@
        }),
        m.file_path == main.rel_path,
        m.thumb_path == (match thumb {
            Some(t) => Some(t.rel_path),
            None => None,
        }),
        m.mime_type == main.mime_type,
        m.size_bytes == main.size_bytes,
        m.width == width,
        m.height == height,
        m.duration_ms == duration_ms,
{
    let role = if kind == Kind::Audio {
        "music"
    } else {
        "attachment"
    };
    NewMedia {
        kind: string_of(&chars_of(kind.as_str())),
        role: string_of(&chars_of(role)),
        file_path: main.rel_path,
        thumb_path: match thumb {
            Some(t) => Some(t.rel_path),
            None => None,
        },
        mime_type: main.mime_type,
        size_bytes: main.size_bytes,
        width,
        height,
        duration_ms,
    }
}

} // verus!

verus! {

// ------------------------------------------------------------------ rows and DTOs

/// `s` without its leading `c`s (`str::trim_start_matches`).
pub open spec fn strip_leading(s: Seq<char>, c: char) -> Seq<char>
    decreases s.len(),
{
    if s.len() > 0 && s[0] == c {
        strip_leading(s.drop_first(), c)
    } else {
        s
    }
}

/// The URL a stored file is served under: `/files/` and the relative path
/// without leading slashes.
pub open spec fn file_url_of(path: Seq<char>) -> Seq<char> {
    "/files/"@ + strip_leading(path, '/')
}

pub fn file_url(path: &str) -> (url: String)
    ensures
        url@ == file_url_of(path@),
{
    let s = chars_of(path);
    let mut i: usize = 0;
    assert(s@.skip(0) =~= s@);
    while i < s.len() && s[i] == '/'
        invariant
            i <= s@.len(),
            strip_leading(s@, '/') == strip_leading(s@.skip(i as int), '/'),
        decreases s@.len() - i,
    {
        assert(s@.skip(i as int).drop_first() =~= s@.skip(i + 1));
        i = i + 1;
    }
    let mut out = chars_of("/files/");
    push_chars(&mut out, &crate::text::copy_chars(&s, i, s.len()));
    assert(s@.subrange(i as int, s@.len() as int) =~= s@.skip(i as int));
    string_of(&out)
}

/// A media row (ids are UUIDs as 128-bit numbers).
pub struct MediaRow {
    pub id: u128,
    pub moment_id: Option<u128>,
    pub kind: String,
    pub role: String,
    pub file_path: String,
    pub thumb_path: Option<String>,
    pub mime_type: String,
    pub size_bytes: i64,
    pub width: Option<i32>,
    pub height: Option<i32>,
    pub duration_ms: Option<i32>,
    pub position: i32,
}

/// A media item as the API shows it: URLs in place of paths.
pub struct MediaDto {
    pub id: u128,
    pub kind: String,
    pub role: String,
    pub url: String,
    pub thumb_url: Option<String>,
    pub mime_type: String,
    pub width: Option<i32>,
    pub height: Option<i32>,
    pub duration_ms: Option<i32>,
    pub size_bytes: i64,
    pub position: i32,
}

/// Whether `dto` shows `row`.
pub open spec fn shows(dto: MediaDto, row: MediaRow) -> bool {
    &&& dto.id == row.id
    &&& dto.kind@ == row.kind@
    &&& dto.role@ == row.role@
    &&& dto.url@ == file_url_of(row.file_path@)
    &&& match row.thumb_path {
        Some(t) => dto.thumb_url is Some && dto.thumb_url->0@ == file_url_of(t@),
        None => dto.thumb_url is None,
    }
    &&& dto.mime_type@ == row.mime_type@
    &&& dto.width == row.width
    &&& dto.height == row.height
    &&& dto.duration_ms == row.duration_ms
    &&& dto.size_bytes == row.size_bytes
    &&& dto.position == row.position
}

impl MediaDto {
    pub fn from_row(row: MediaRow) -> (dto: MediaDto)
        ensures
            shows(dto, row),
    {
        let url = file_url(row.file_path.as_str());
        let thumb_url = match &row.thumb_path {
            Some(t) => Some(file_url(t.as_str())),
            None => None,
        };
        MediaDto {
            id: row.id,
            kind: row.kind,
            role: row.role,
            url,
            thumb_url,
            mime_type: row.mime_type,
            width: row.width,
            height: row.height,
            duration_ms: row.duration_ms,
            size_bytes: row.size_bytes,
            position: row.position,
        }
    }
}

pub open spec fn is_audio(row: MediaRow) -> bool {
    row.kind@ == "audio"@
}

pub open spec fn is_image(row: MediaRow) -> bool {
    row.kind@ == "image"@
}

/// The visual media (everything but audio), in order.
pub open spec fn visual_of(media: Seq<MediaRow>) -> Seq<MediaRow>
    decreases media.len(),
{
    if media.len() == 0 {
        Seq::<MediaRow>::empty()
    } else if is_audio(media.last()) {
        visual_of(media.drop_last())
    } else {
        visual_of(media.drop_last()).push(media.last())
    }
}

/// The first item that satisfies `is_image`, if any.
pub open spec fn first_image(media: Seq<MediaRow>) -> Option<MediaRow>
    decreases media.len(),
{
    if media.len() == 0 {
        None
    } else if is_image(media[0]) {
        Some(media[0])
    } else {
        first_image(media.drop_first())
    }
}

/// The first audio item, if any.
pub open spec fn first_audio(media: Seq<MediaRow>) -> Option<MediaRow>
    decreases media.len(),
{
    if media.len() == 0 {
        None
    } else if is_audio(media[0]) {
        Some(media[0])
    } else {
        first_audio(media.drop_first())
    }
}

/// What the timeline shows of a moment's media.
pub struct MediaSummary {
    /// The first image, else the first visual item.
    pub cover: Option<MediaDto>,
    /// How many visual items there are.
    pub media_count: usize,
    /// Whether some audio is attached.
    pub has_music: bool,
}

fn is_kind(row: &MediaRow, kind: &str) -> (r: bool)
    ensures
        r == (row.kind@ == kind@),
{
    chars_eq(&chars_of(row.kind.as_str()), &chars_of(kind))
}

fn copy_row(row: &MediaRow) -> (r: MediaRow)
    ensures
        r == *row,
{
    MediaRow {
        id: row.id,
        moment_id: row.moment_id,
        kind: row.kind.clone(),
        role: row.role.clone(),
        file_path: row.file_path.clone(),
        thumb_path: match &row.thumb_path {
            Some(t) => Some(t.clone()),
            None => None,
        },
        mime_type: row.mime_type.clone(),
        size_bytes: row.size_bytes,
        width: row.width,
        height: row.height,
        duration_ms: row.duration_ms,
        position: row.position,
    }
}

/// The timeline's view of a moment's media: the cover is the first image,
/// else the first visual item; audio is not counted but marks music.
pub fn summarize_media(media: &[MediaRow]) -> (s: MediaSummary)
    ensures
        s.media_count == visual_of(media@).len(),
        s.has_music == first_audio(media@) is Some,
        match first_image(visual_of(media@)) {
            Some(img) => s.cover is Some && shows(s.cover->0, img),
            None => if visual_of(media@).len() > 0 {
                s.cover is Some && shows(s.cover->0, visual_of(media@)[0])
            } else {
                s.cover is None
            },
        },
{
    let mut visual: Vec<MediaRow> = Vec::new();
    let mut has_music = false;
    let ghost all = media@;
    assert(all.take(0) =~= Seq::<MediaRow>::empty());
    for i in 0..media.len()
        invariant
            all == media@,
            visual@ == visual_of(all.take(i as int)),
            has_music == (first_audio(all.take(i as int)) is Some),
    {
        let row = &media[i];
        assert(all.take(i + 1).drop_last() =~= all.take(i as int));
        assert(all.take(i + 1).last() == *row);
        proof {
            lemma_first_audio_push(all.take(i as int), *row);
        }
        assert(all.take(i as int).push(*row) =~= all.take(i + 1));
        if is_kind(row, "audio") {
            has_music = true;
        } else {
            visual.push(copy_row(row));
        }
    }
    assert(all.take(media@.len() as int) =~= all);
    let cover = match first_image_at(&visual) {
        Some(j) => Some(MediaDto::from_row(copy_row(&visual[j]))),
        None => if visual.len() > 0 {
            Some(MediaDto::from_row(copy_row(&visual[0])))
        } else {
            None
        },
    };
    MediaSummary { cover, media_count: visual.len(), has_music }
}

fn first_image_at(v: &Vec<MediaRow>) -> (r: Option<usize>)
    ensures
        match first_image(v@) {
            Some(img) => r is Some && r->0 < v@.len() && v@[r->0 as int] == img,
            None => r is None,
        },
{
    let mut j: usize = 0;
    assert(v@.skip(0) =~= v@);
    while j < v.len()
        invariant
            j <= v@.len(),
            first_image(v@) == first_image(v@.skip(j as int)),
        decreases v@.len() - j,
    {
        assert(v@.skip(j as int)[0] == v@[j as int]);
        assert(v@.skip(j as int).drop_first() =~= v@.skip(j + 1));
        if is_kind(&v[j], "image") {
            return Some(j);
        }
        j = j + 1;
    }
    None
}

proof fn lemma_first_audio_push(media: Seq<MediaRow>, row: MediaRow)
    ensures
        (first_audio(media.push(row)) is Some) == (first_audio(media) is Some || is_audio(row)),
    decreases media.len(),
{
    if media.len() > 0 {
        let p = media.push(row);
        assert(p[0] == media[0]);
        assert(p.drop_first() =~= media.drop_first().push(row));
        assert(first_audio(p) == if is_audio(media[0]) {
            Some(media[0])
        } else {
            first_audio(p.drop_first())
        });
        lemma_first_audio_push(media.drop_first(), row);
    } else {
        assert(media.push(row)[0] == row);
        assert(media.push(row).drop_first() =~= Seq::<MediaRow>::empty());
        assert(first_audio(Seq::<MediaRow>::empty()) is None);
        assert(first_audio(media) is None);
    }
}

/// The detail view of a moment's media: the visual items in order, and
/// the first audio item as the music.
pub fn split_media(media: Vec<MediaRow>) -> (r: (Vec<MediaDto>, Option<MediaDto>))
    ensures
        r.0@.len() == visual_of(media@).len(),
        forall|i: int| 0 <= i < r.0@.len() ==> shows(#[trigger] r.0@[i], visual_of(media@)[i]),
        match first_audio(media@) {
            Some(a) => r.1 is Some && shows(r.1->0, a),
            None => r.1 is None,
        },
{
    let mut visual: Vec<MediaDto> = Vec::new();
    let mut music: Option<MediaDto> = None;
    let ghost all = media@;
    assert(all.take(0) =~= Seq::<MediaRow>::empty());
    for i in 0..media.len()
        invariant
            all == media@,
            visual@.len() == visual_of(all.take(i as int)).len(),
            forall|k: int|
                0 <= k < visual@.len() ==> shows(#[trigger] visual@[k], visual_of(all.take(i as int))[k]),
            match first_audio(all.take(i as int)) {
                Some(a) => music is Some && shows(music->0, a),
                None => music is None,
            },
    {
        let row = &media[i];
        assert(all.take(i + 1).drop_last() =~= all.take(i as int));
        assert(all.take(i + 1).last() == *row);
        proof {
            lemma_first_audio_extend(all.take(i as int), *row);
        }
        assert(all.take(i as int).push(*row) =~= all.take(i + 1));
        if is_kind(row, "audio") {
            if music.is_none() {
                music = Some(MediaDto::from_row(copy_row(row)));
            }
        } else {
            let ghost before = visual@;
            visual.push(MediaDto::from_row(copy_row(row)));
            assert forall|k: int| 0 <= k < visual@.len() implies shows(
                #[trigger] visual@[k],
                visual_of(all.take(i + 1))[k],
            ) by {
                if k < before.len() {
                    assert(visual@[k] == before[k]);
                }
            }
        }
    }
    assert(all.take(media@.len() as int) =~= all);
    (visual, music)
}

proof fn lemma_first_audio_extend(media: Seq<MediaRow>, row: MediaRow)
    ensures
        first_audio(media.push(row)) == (if first_audio(media) is Some {
            first_audio(media)
        } else if is_audio(row) {
            Some(row)
        } else {
            None
        }),
    decreases media.len(),
{
    if media.len() > 0 {
        let p = media.push(row);
        assert(p[0] == media[0]);
        assert(p.drop_first() =~= media.drop_first().push(row));
        assert(first_audio(p) == if is_audio(media[0]) {
            Some(media[0])
        } else {
            first_audio(p.drop_first())
        });
        lemma_first_audio_extend(media.drop_first(), row);
    } else {
        assert(media.push(row)[0] == row);
        assert(media.push(row).drop_first() =~= Seq::<MediaRow>::empty());
        assert(first_audio(Seq::<MediaRow>::empty()) is None);
        assert(first_audio(media) is None);
    }
}

/// The file the tagger looks at: an image itself; for a video, the
/// first-frame thumbnail taken at upload (none means it cannot be tagged).
pub fn tagging_source(kind: &str, file_path: &str, thumb_path: Option<&str>) -> (r: Option<String>)
    ensures
        kind@ == "video"@ ==> match thumb_path {
            Some(t) => r is Some && r->0@ == t@,
            None => r is None,
        },
        kind@ != "video"@ ==> r is Some && r->0@ == file_path@,
{
    if chars_eq(&chars_of(kind), &chars_of("video")) {
        match thumb_path {
            Some(t) => Some(string_of(&chars_of(t))),
            None => None,
        }
    } else {
        Some(string_of(&chars_of(file_path)))
    }
}

/// The `Cache-Control` of a file of the built front end: the hashed assets
/// never change, everything else is checked each time.
pub fn static_cache_control(path: &str) -> (c: &'static str)
    ensures
        crate::text::starts_with(path@, "/assets/"@) ==> c@ == "public, max-age=31536000, immutable"@,
        !crate::text::starts_with(path@, "/assets/"@) ==> c@ == "no-cache"@,
{
    if crate::text::has_prefix(&chars_of(path), &chars_of("/assets/")) {
        "public, max-age=31536000, immutable"
    } else {
        "no-cache"
    }
}

} // verus!

