//! Classification of archive entries: sidecars, media in year folders, and
//! album members.
use vstd::prelude::*;
use crate::extras::{is_extra, spec_is_extra, lower_of};
use crate::folder_classify::{extract_album_name, is_in_year_folder, spec_extract_album_name, spec_is_in_year_folder, split_path, split_slash};
use crate::media::Media;
use crate::sidecar::{spec_no_extension, JsonDateIndex};
use crate::text::{chars_of, ends_with, ends_with_exec, string_of};

verus! {

/// The top-level MIME type that mime_guess gives a filename's extension.
pub uninterp spec fn mime_top_of(name: Seq<char>) -> Option<Seq<char>>;

/// Relies on mime_guess's `from_path(..).first()` and mime's `Mime::type_`:
/// the top-level type of the first MIME type known for the extension.
#[verifier::external_body]
pub(crate) fn mime_top(name: &str) -> (r: Option<String>)
    ensures
        match r {
            Some(t) => mime_top_of(name@) == Some(t@),
            None => mime_top_of(name@) is None,
        },
{
    mime_guess::from_path(name).first().map(|m| m.type_().as_str().to_string())
}

/// A file is media when its extension names an image or a video type, or
/// it is a known type whose lowercase name ends with `.mts`.
pub open spec fn spec_is_media(name: Seq<char>) -> bool {
    match mime_top_of(name) {
        Some(t) => t == "image"@ || t == "video"@ || ends_with(lower_of(name), ".mts"@),
        None => false,
    }
}

/// Whether a filename names a photo or a video.
pub fn is_media_name(name: &str) -> (r: bool)
    ensures
        r == spec_is_media(name@),
{
    match mime_top(name) {
        Some(t) => {
            let image = String::from_str("image");
            let video = String::from_str("video");
            if t.eq(&image) || t.eq(&video) {
                return true;
            }
            let lower = crate::extras::lowercase(name);
            let l = chars_of(lower.as_str());
            let mts = chars_of(".mts");
            ends_with_exec(l.as_slice(), mts.as_slice())
        },
        None => false,
    }
}

/// What encoding_rs's Shift_JIS decoder makes of bytes it decodes without error.
pub uninterp spec fn shift_jis_of(raw: Seq<u8>) -> Option<Seq<char>>;

/// What `String::from_utf8_lossy` makes of bytes.
pub uninterp spec fn lossy_utf8_of(raw: Seq<u8>) -> Seq<char>;

/// Relies on `std::str::from_utf8`: it succeeds exactly on valid UTF-8,
/// whose characters it returns.
#[verifier::external_body]
fn utf8_text(raw: &[u8]) -> (r: Option<String>)
    ensures
        r is Some <==> vstd::utf8::valid_utf8(raw@),
        r is Some ==> r->0@ == vstd::utf8::decode_utf8(raw@),
{
    std::str::from_utf8(raw).ok().map(|s| s.to_string())
}

/// Relies on encoding_rs's `SHIFT_JIS.decode`: the text, when decoding
/// reported no error.
#[verifier::external_body]
fn shift_jis_text(raw: &[u8]) -> (r: Option<String>)
    ensures
        match r {
            Some(t) => shift_jis_of(raw@) == Some(t@),
            None => shift_jis_of(raw@) is None,
        },
{
    let (decoded, _, had_errors) = encoding_rs::SHIFT_JIS.decode(raw);
    match had_errors {
        false => Some(decoded.into_owned()),
        true => None,
    }
}

/// Relies on `String::from_utf8_lossy`: the text with each invalid
/// sequence replaced.
#[verifier::external_body]
fn lossy_text(raw: &[u8]) -> (r: String)
    ensures
        r@ == lossy_utf8_of(raw@),
{
    String::from_utf8_lossy(raw).into_owned()
}

/// An entry name: UTF-8 when the bytes are valid UTF-8, else Shift_JIS when
/// they decode without error, else UTF-8 with replacements.
pub open spec fn spec_decode_zip_name(raw: Seq<u8>) -> Seq<char> {
    if vstd::utf8::valid_utf8(raw) {
        vstd::utf8::decode_utf8(raw)
    } else {
        match shift_jis_of(raw) {
            Some(t) => t,
            None => lossy_utf8_of(raw),
        }
    }
}

/// Decode the raw name of an archive entry.
pub fn decode_zip_name(raw: &[u8]) -> (r: String)
    ensures
        r@ == spec_decode_zip_name(raw@),
{
    if let Some(s) = utf8_text(raw) {
        return s;
    }
    if let Some(s) = shift_jis_text(raw) {
        return s;
    }
    lossy_text(raw)
}

/// An entry of an album folder, met during the scan.
pub struct AlbumEntry {
    pub filename: String,
    pub zip_path: String,
    pub zip_index: usize,
    pub entry_index: usize,
    pub size: u64,
}

/// The entries of one album, in the order met.
pub struct AlbumGroup {
    pub name: String,
    pub entries: Vec<AlbumEntry>,
}

/// How the scan treats an entry.
pub enum EntryKind {
    /// Not wanted.
    Skip,
    /// A JSON sidecar: its bytes are to be read and registered.
    Sidecar,
    /// A media file: a member of `album` when it lies in one, and a media
    /// record when `in_year` holds.
    Media { filename: String, album: Option<String>, in_year: bool },
}

/// How the scan treats an entry with this path, given whether the archive
/// marks it as a directory.
pub open spec fn spec_entry_kind(
    path: Seq<char>,
    is_dir: bool,
    skip_extras: bool,
    scan_albums: bool,
) -> (bool, bool, Option<Seq<char>>, bool) {
    // (wanted, sidecar, album, in year)
    let filename = split_slash(path).last();
    if is_dir || filename.len() == 0 {
        (false, false, None, false)
    } else if ends_with(path, ".json"@) {
        (true, true, None, false)
    } else if !spec_is_media(filename) {
        (false, false, None, false)
    } else if skip_extras && spec_is_extra(spec_no_extension(filename)) {
        (false, false, None, false)
    } else {
        let album = if scan_albums { spec_extract_album_name(path) } else { None };
        let in_year = spec_is_in_year_folder(path);
        if album is None && !in_year {
            (false, false, None, false)
        } else {
            (true, false, album, in_year)
        }
    }
}

/// Classify an archive entry: directories and nameless entries are
/// skipped; `.json` entries are sidecars; other entries are kept when they
/// are media (and, with `skip_extras`, not edited copies) and lie in a
/// year folder or, with `scan_albums`, in an album folder.
pub fn classify_entry(path: &str, is_dir: bool, skip_extras: bool, scan_albums: bool) -> (r: EntryKind)
    ensures
        ({
            let k = spec_entry_kind(path@, is_dir, skip_extras, scan_albums);
            match r {
                EntryKind::Skip => !k.0,
                EntryKind::Sidecar => k.0 && k.1,
                EntryKind::Media { filename, album, in_year } => k.0 && !k.1
                    && filename@ == split_slash(path@).last()
                    && in_year == k.3
                    && match album { Some(a) => k.2 == Some(a@), None => k.2 is None },
            }
        }),
{
    let p = chars_of(path);
    let parts = split_path(p.as_slice());
    proof {
        crate::folder_classify::lemma_split_nonempty(path@);
        assert(parts@.map_values(|v: Vec<char>| v@).len() == parts@.len());
    }
    let last = parts.len() - 1;
    assert(parts@[last as int]@ == split_slash(path@).last());
    let name = string_of(parts[last].as_slice());
    if is_dir || parts[last].len() == 0 {
        return EntryKind::Skip;
    }
    let json = chars_of(".json");
    if ends_with_exec(p.as_slice(), json.as_slice()) {
        return EntryKind::Sidecar;
    }
    if !is_media_name(name.as_str()) {
        return EntryKind::Skip;
    }
    if skip_extras {
        let stem = crate::sidecar::no_extension(parts[last].as_slice());
        let stem_text = string_of(stem.as_slice());
        if is_extra(stem_text.as_str()) {
            return EntryKind::Skip;
        }
    }
    let album = if scan_albums { extract_album_name(path) } else { None };
    let in_year = is_in_year_folder(path);
    if album.is_none() && !in_year {
        return EntryKind::Skip;
    }
    EntryKind::Media { filename: name, album, in_year }
}

/// What the scan of the archives found.
pub struct ScanResult {
    /// Media files in year folders.
    pub media: Vec<Media>,
    /// Sidecar dates by media path.
    pub json_dates: JsonDateIndex,
    /// Album members, by album.
    pub album_entries: Vec<AlbumGroup>,
}

impl ScanResult {
    /// A scan that found nothing yet.
    pub fn new() -> (r: Self)
        ensures
            r.media@.len() == 0,
            r.json_dates.wf(),
            r.album_entries@.len() == 0,
    {
        ScanResult { media: Vec::new(), json_dates: JsonDateIndex::new(), album_entries: Vec::new() }
    }

    /// Record a media entry the way `classify_entry` classified it: as a
    /// member of its album, and as a media record when it lies in a year
    /// folder.
    pub fn add_media_entry(
        &mut self,
        path: &str,
        filename: &str,
        album: Option<&str>,
        in_year: bool,
        zip_index: usize,
        entry_index: usize,
        size: u64,
    )
        requires
            old(self).json_dates.wf(),
        ensures
            final(self).json_dates.wf(),
            final(self).json_dates == old(self).json_dates,
            final(self).media@.len() == old(self).media@.len() + if in_year { 1int } else { 0int },
            forall|i: int| 0 <= i < old(self).media@.len() ==> final(self).media@[i] == old(self).media@[i],
            in_year ==> ({
                let m = final(self).media@.last();
                &&& m.zip_path@ == path@ && m.filename@ == filename@ && m.size == size
                &&& m.zip_index == zip_index && m.entry_index == entry_index
                &&& m.hash is None && m.date is None && m.albums@.len() == 0
            }),
            match album {
                Some(a) => exists|g: int| 0 <= g < final(self).album_entries@.len()
                    && (#[trigger] final(self).album_entries@[g]).name@ == a@
                    && final(self).album_entries@[g].entries@.len() > 0
                    && final(self).album_entries@[g].entries@.last().zip_path@ == path@
                    && final(self).album_entries@[g].entries@.last().filename@ == filename@
                    && final(self).album_entries@[g].entries@.last().size == size
                    && final(self).album_entries@[g].entries@.last().zip_index == zip_index
                    && final(self).album_entries@[g].entries@.last().entry_index == entry_index,
                None => final(self).album_entries@ == old(self).album_entries@,
            },
    {
        let ghost mut gi: int = 0;
        if let Some(name) = album {
            let entry = AlbumEntry {
                filename: String::from_str(filename),
                zip_path: String::from_str(path),
                zip_index,
                entry_index,
                size,
            };
            let mut k: usize = 0;
            let mut placed = false;
            while k < self.album_entries.len()
                invariant_except_break
                    !placed,
                invariant
                    k <= self.album_entries@.len(),
                    self.media@ == old(self).media@,
                    self.json_dates == old(self).json_dates,
                ensures
                    placed ==> k < self.album_entries@.len() && self.album_entries@[k as int].name@ == name@,
                decreases self.album_entries@.len() - k,
            {
                if str_eq(self.album_entries[k].name.as_str(), name) {
                    placed = true;
                    break;
                }
                k += 1;
            }
            if placed {
                self.album_entries[k].entries.push(entry);
                proof {
                    gi = k as int;
                }
            } else {
                let mut entries: Vec<AlbumEntry> = Vec::new();
                entries.push(entry);
                self.album_entries.push(AlbumGroup { name: String::from_str(name), entries });
                proof {
                    gi = self.album_entries@.len() - 1;
                }
            }
        }
        if in_year {
            self.media.push(Media::new(String::from_str(path), zip_index, entry_index, String::from_str(filename), size));
        }
        proof {
            if album is Some {
                assert(self.album_entries@[gi].name@ == album->0@);
            }
        }
    }

    /// Register the date of a sidecar that was read from the archive.
    pub fn add_sidecar(&mut self, path: &str, bytes: &[u8])
        requires
            old(self).json_dates.wf(),
        ensures
            final(self).json_dates.wf(),
            final(self).media@ == old(self).media@,
            final(self).album_entries@ == old(self).album_entries@,
            forall|k: Seq<char>| #[trigger] final(self).json_dates.spec_get(k) == old(self).json_dates.spec_get(k)
                || (old(self).json_dates.spec_get(k) is None && crate::sidecar::spec_media_key(path@) == Some(k)),
    {
        if let Some(d) = crate::sidecar::parse_google_json(bytes) {
            crate::sidecar::register_json_date(path, d, &mut self.json_dates);
        }
    }
}

/// Whether two texts are equal.
pub fn str_eq(a: &str, b: &str) -> (r: bool)
    ensures
        r == (a@ == b@),
{
    let x = chars_of(a);
    let y = chars_of(b);
    crate::text::slices_equal(x.as_slice(), y.as_slice())
}

} // verus!
