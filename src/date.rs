//! Local wall-clock date-times and the date sources: sidecar JSON, EXIF, and
//! the capture time that camera filenames carry.
use vstd::prelude::*;
use chrono::{Datelike, Timelike};
use crate::text::chars_of;

verus! {

/// A naive local date-time, as Takeout records capture times.
#[derive(Clone, Copy, Debug, PartialEq, Eq, Structural)]
pub struct LocalDateTime {
    pub year: i32,
    pub month: u32,
    pub day: u32,
    pub hour: u32,
    pub minute: u32,
    pub second: u32,
}

impl LocalDateTime {
    /// Field ranges of a calendar date and a time of day.
    pub open spec fn wf(&self) -> bool {
        &&& 1 <= self.month <= 12
        &&& 1 <= self.day <= 31
        &&& self.hour < 24
        &&& self.minute < 60
        &&& self.second < 60
    }
}

/// Date read from the sidecar JSON: the best source.
pub const ACCURACY_JSON: u8 = 0;
/// Date read from EXIF.
pub const ACCURACY_EXIF: u8 = 1;
/// Date guessed from the filename.
pub const ACCURACY_GUESS: u8 = 2;
/// No date known.
pub const ACCURACY_NONE: u8 = 255;

/// What chrono's `NaiveDateTime::parse_from_str` makes of a text and a format.
pub uninterp spec fn parsed_datetime_of(s: Seq<char>, fmt: Seq<char>) -> Option<LocalDateTime>;

/// What chrono's `NaiveDate::parse_from_str` makes of a text and a format,
/// at midnight.
pub uninterp spec fn parsed_date_of(s: Seq<char>, fmt: Seq<char>) -> Option<LocalDateTime>;

/// Relies on chrono's `NaiveDateTime::parse_from_str`: the result depends on
/// the text and the format alone; its fields lie in chrono's documented ranges.
#[verifier::external_body]
pub(crate) fn parse_datetime(s: &str, fmt: &str) -> (r: Option<LocalDateTime>)
    ensures
        r == parsed_datetime_of(s@, fmt@),
        r is Some ==> r->0.wf(),
{
    let dt = chrono::NaiveDateTime::parse_from_str(s, fmt).ok()?;
    Some(LocalDateTime {
        year: dt.year(),
        month: dt.month(),
        day: dt.day(),
        hour: dt.hour(),
        minute: dt.minute(),
        second: dt.second(),
    })
}

/// Relies on chrono's `NaiveDate::parse_from_str`: the result depends on the
/// text and the format alone; the day starts at midnight.
#[verifier::external_body]
fn parse_date(s: &str, fmt: &str) -> (r: Option<LocalDateTime>)
    ensures
        r == parsed_date_of(s@, fmt@),
        r is Some ==> r->0.wf() && r->0.hour == 0 && r->0.minute == 0 && r->0.second == 0,
{
    let d = chrono::NaiveDate::parse_from_str(s, fmt).ok()?;
    Some(LocalDateTime { year: d.year(), month: d.month(), day: d.day(), hour: 0, minute: 0, second: 0 })
}

/// Earliest UNIX time read from a sidecar: 0001-01-01T00:00:00Z.
pub const MIN_EPOCH: i64 = -62135596800;

/// Latest UNIX time read from a sidecar: 9999-12-31T23:59:59Z.
pub const MAX_EPOCH: i64 = 253402300799;

/// Relies on chrono's `DateTime::from_timestamp` and `with_timezone(&Local)`:
/// the wall-clock time in the host's zone of a UNIX time, when chrono can
/// represent it. The host's zone decides the value, so only its ranges are
/// known. Within years 1 to 9999 no zone offset can carry the local time out
/// of chrono's range, where `naive_local` would panic.
#[verifier::external_body]
pub(crate) fn local_from_epoch(epoch: i64) -> (r: Option<LocalDateTime>)
    requires
        MIN_EPOCH <= epoch <= MAX_EPOCH,
    ensures
        r is Some ==> r->0.wf(),
{
    let dt = chrono::DateTime::from_timestamp(epoch, 0)?.with_timezone(&chrono::Local).naive_local();
    Some(LocalDateTime {
        year: dt.year(),
        month: dt.month(),
        day: dt.day(),
        hour: dt.hour(),
        minute: dt.minute(),
        second: dt.second(),
    })
}

/// Date separators that EXIF writers use in place of ':'.
pub open spec fn is_exif_separator(c: char) -> bool {
    c == '-' || c == '/' || c == '\\' || c == '.'
}

/// The text with each of `- / \ .` replaced by ':'.
pub open spec fn spec_exif_clean(s: Seq<char>) -> Seq<char> {
    s.map_values(|c: char| if is_exif_separator(c) { ':' } else { c })
}

/// The text up to its first space (all of it when it holds none).
pub open spec fn spec_first_word(s: Seq<char>) -> Seq<char>
    decreases s.len(),
{
    if s.len() == 0 {
        s
    } else if s[0] == ' ' {
        Seq::<char>::empty()
    } else {
        seq![s[0]].add(spec_first_word(s.drop_first()))
    }
}

/// An EXIF date text read as a date-time, else as a date at midnight.
pub open spec fn spec_parse_exif_datetime(s: Seq<char>) -> Option<LocalDateTime> {
    let cleaned = spec_exif_clean(s);
    match parsed_datetime_of(cleaned, "%Y:%m:%d %H:%M:%S"@) {
        Some(dt) => Some(dt),
        None => parsed_date_of(spec_first_word(cleaned), "%Y:%m:%d"@),
    }
}

proof fn lemma_first_word_prefix(s: Seq<char>, i: int)
    requires
        0 <= i <= s.len(),
        forall|j: int| 0 <= j < i ==> s[j] != ' ',
        i == s.len() || s[i] == ' ',
    ensures
        spec_first_word(s) == s.subrange(0, i),
    decreases s.len(),
{
    if s.len() > 0 && i > 0 {
        lemma_first_word_prefix(s.drop_first(), i - 1);
        assert(seq![s[0]].add(s.drop_first().subrange(0, i - 1)) =~= s.subrange(0, i));
    } else if s.len() > 0 {
        assert(s.subrange(0, 0) =~= Seq::<char>::empty());
    }
}

/// A character that reads as ':' in an EXIF date.
pub open spec fn reads_as_colon(c: char) -> bool {
    c == ':' || is_exif_separator(c)
}

/// EXIF texts that differ only in which of `: - / \ .` separate their
/// fields parse to the same date-time.
pub proof fn lemma_exif_separators_agree(s: Seq<char>, t: Seq<char>)
    requires
        s.len() == t.len(),
        forall|i: int| 0 <= i < s.len() ==> s[i] == t[i] || (reads_as_colon(s[i]) && reads_as_colon(t[i])),
    ensures
        spec_parse_exif_datetime(s) == spec_parse_exif_datetime(t),
{
    assert(spec_exif_clean(s) =~= spec_exif_clean(t));
}

/// Parse an EXIF date-time text; `- / \ .` count as ':'.
pub fn parse_exif_datetime(s: &str) -> (r: Option<LocalDateTime>)
    ensures
        r == spec_parse_exif_datetime(s@),
{
    let v = chars_of(s);
    let mut cleaned: Vec<char> = Vec::new();
    let mut i: usize = 0;
    while i < v.len()
        invariant
            v@ == s@,
            i <= v@.len(),
            cleaned@ == spec_exif_clean(s@).subrange(0, i as int),
        decreases v@.len() - i,
    {
        let c = v[i];
        if c == '-' || c == '/' || c == '\\' || c == '.' {
            cleaned.push(':');
        } else {
            cleaned.push(c);
        }
        proof {
            assert(cleaned@ =~= spec_exif_clean(s@).subrange(0, i + 1));
        }
        i += 1;
    }
    assert(cleaned@ =~= spec_exif_clean(s@));
    let text = crate::text::string_of(cleaned.as_slice());
    if let Some(dt) = parse_datetime(text.as_str(), "%Y:%m:%d %H:%M:%S") {
        return Some(dt);
    }
    let mut end: usize = 0;
    while end < cleaned.len() && cleaned[end] != ' '
        invariant
            end <= cleaned@.len(),
            forall|j: int| 0 <= j < end ==> cleaned@[j] != ' ',
        decreases cleaned@.len() - end,
    {
        end += 1;
    }
    proof {
        lemma_first_word_prefix(cleaned@, end as int);
    }
    let word = crate::text::string_of(vstd::slice::slice_subrange(cleaned.as_slice(), 0, end));
    parse_date(word.as_str(), "%Y:%m:%d")
}


/// An EXIF tag that records a date-time.
#[derive(Clone, Copy, Debug, PartialEq, Eq, Structural)]
pub enum ExifDateTag {
    /// When the picture was taken.
    DateTimeOriginal,
    /// When it was digitized.
    DateTimeDigitized,
    /// When the file was last changed.
    DateTime,
}

/// The text that kamadak-exif displays for a date tag of the primary image.
pub uninterp spec fn exif_text_of(bytes: Seq<u8>, tag: ExifDateTag) -> Option<Seq<char>>;

/// Relies on kamadak-exif's `Reader::read_from_container`,
/// `Exif::get_field` (primary image) and `Field::display_value`: the displayed
/// value of the tag, or `None` where it is absent or the container cannot be
/// read. The text depends on the bytes and the tag alone.
#[verifier::external_body]
fn exif_text(bytes: &[u8], tag: ExifDateTag) -> (r: Option<String>)
    ensures
        match r {
            Some(t) => exif_text_of(bytes@, tag) == Some(t@),
            None => exif_text_of(bytes@, tag) is None,
        },
{
    let t = match tag {
        ExifDateTag::DateTimeOriginal => exif::Tag::DateTimeOriginal,
        ExifDateTag::DateTimeDigitized => exif::Tag::DateTimeDigitized,
        ExifDateTag::DateTime => exif::Tag::DateTime,
    };
    let reader = exif::Reader::new().read_from_container(&mut std::io::Cursor::new(bytes)).ok()?;
    reader.get_field(t, exif::In::PRIMARY).map(|f| f.display_value().to_string())
}

/// The tags consulted for a capture date, in order of preference.
pub open spec fn exif_date_tags() -> Seq<ExifDateTag> {
    seq![ExifDateTag::DateTimeOriginal, ExifDateTag::DateTimeDigitized, ExifDateTag::DateTime]
}

/// The date texts of an image, one per consulted tag, in order.
pub open spec fn exif_date_texts_of(bytes: Seq<u8>) -> Seq<Option<Seq<char>>> {
    exif_date_tags().map_values(|t: ExifDateTag| exif_text_of(bytes, t))
}

fn exif_date_texts(bytes: &[u8]) -> (r: Vec<Option<String>>)
    ensures
        r@.len() == 3,
        r@.map_values(|t: Option<String>| match t { Some(x) => Some(x@), None => None })
            == exif_date_texts_of(bytes@),
{
    let mut r: Vec<Option<String>> = Vec::new();
    r.push(exif_text(bytes, ExifDateTag::DateTimeOriginal));
    r.push(exif_text(bytes, ExifDateTag::DateTimeDigitized));
    r.push(exif_text(bytes, ExifDateTag::DateTime));
    assert(r@.map_values(|t: Option<String>| match t { Some(x) => Some(x@), None => None })
        =~= exif_date_texts_of(bytes@));
    r
}

/// The first of `texts[i..]` that parses as an EXIF date.
pub open spec fn spec_first_exif_date(texts: Seq<Option<Seq<char>>>, i: int) -> Option<LocalDateTime>
    decreases texts.len() - i,
{
    if i < 0 || i >= texts.len() {
        None
    } else {
        match texts[i] {
            Some(t) => match spec_parse_exif_datetime(t) {
                Some(d) => Some(d),
                None => spec_first_exif_date(texts, i + 1),
            },
            None => spec_first_exif_date(texts, i + 1),
        }
    }
}

/// Date of an image from its EXIF texts: DateTimeOriginal, then
/// DateTimeDigitized, then DateTime; the first that parses.
pub open spec fn spec_exif_date(bytes: Seq<u8>) -> Option<LocalDateTime> {
    spec_first_exif_date(exif_date_texts_of(bytes), 0)
}

/// Extract the capture date from EXIF data in raw image bytes. EXIF carries
/// no time zone: the time is local wall-clock as written.
pub fn extract_exif_date(bytes: &[u8]) -> (r: Option<LocalDateTime>)
    ensures
        r == spec_exif_date(bytes@),
{
    let texts = exif_date_texts(bytes);
    let ghost views = texts@.map_values(|t: Option<String>| match t { Some(x) => Some(x@), None => None });
    let mut i: usize = 0;
    while i < texts.len()
        invariant
            i <= texts@.len(),
            views == exif_date_texts_of(bytes@),
            views == texts@.map_values(|t: Option<String>| match t { Some(x) => Some(x@), None => None }),
            spec_first_exif_date(views, 0) == spec_first_exif_date(views, i as int),
        decreases texts@.len() - i,
    {
        assert(views[i as int] == match texts@[i as int] { Some(x) => Some(x@), None => None });
        match &texts[i] {
            Some(t) => {
                if let Some(d) = parse_exif_datetime(t.as_str()) {
                    return Some(d);
                }
            },
            None => {},
        }
        i += 1;
    }
    None
}

/// A date together with the rank of its source (0 best).
#[derive(Clone, Copy, Debug, PartialEq, Eq, Structural)]
pub struct DateResult {
    pub date: LocalDateTime,
    pub accuracy: u8,
}

/// The highest-priority date: sidecar JSON, then EXIF, then (when allowed)
/// the filename.
pub open spec fn spec_extract_date(
    json_date: Option<LocalDateTime>,
    exif_date: Option<LocalDateTime>,
    guess: Option<LocalDateTime>,
    allow_guess: bool,
) -> Option<DateResult> {
    if json_date is Some {
        Some(DateResult { date: json_date->0, accuracy: ACCURACY_JSON })
    } else if exif_date is Some {
        Some(DateResult { date: exif_date->0, accuracy: ACCURACY_EXIF })
    } else if allow_guess && guess is Some {
        Some(DateResult { date: guess->0, accuracy: ACCURACY_GUESS })
    } else {
        None
    }
}

/// Extract a date using all sources in priority order: the sidecar's date,
/// the EXIF date of `media_bytes` when given, then a guess from `filename`
/// when `allow_guess` holds.
pub fn extract_date(
    json_date: Option<LocalDateTime>,
    media_bytes: Option<&[u8]>,
    filename: &str,
    allow_guess: bool,
) -> (r: Option<DateResult>)
    ensures
        r == spec_extract_date(
            json_date,
            match media_bytes { Some(b) => spec_exif_date(b@), None => None },
            crate::guess::spec_guess_date(filename@),
            allow_guess,
        ),
{
    if let Some(date) = json_date {
        return Some(DateResult { date, accuracy: ACCURACY_JSON });
    }
    if let Some(bytes) = media_bytes {
        if let Some(date) = extract_exif_date(bytes) {
            return Some(DateResult { date, accuracy: ACCURACY_EXIF });
        }
    }
    if allow_guess {
        if let Some(date) = crate::guess::guess_date_from_filename(filename) {
            return Some(DateResult { date, accuracy: ACCURACY_GUESS });
        }
    }
    None
}

} // verus!
