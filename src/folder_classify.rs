//! Recognition of Takeout's localized year folders and of album folders.
use vstd::prelude::*;
use crate::text::{chars_of, contains, contains_exec, starts_with, starts_with_exec, ends_with, ends_with_exec, string_of};

verus! {

/// True when `c` is an ASCII decimal digit.
pub open spec fn is_digit(c: char) -> bool {
    '0' <= c && c <= '9'
}

/// Four digits naming a year from 1800 through 2099.
pub open spec fn spec_is_year_text(s: Seq<char>) -> bool {
    &&& s.len() == 4
    &&& ((s[0] == '1' && (s[1] == '8' || s[1] == '9')) || (s[0] == '2' && s[1] == '0'))
    &&& is_digit(s[2])
    &&& is_digit(s[3])
}

/// Number of localized "<prefix>YYYY" year-folder spellings.
pub const N_YEAR_PREFIXES: usize = 19;

/// Number of localized "YYYY<suffix>" year-folder spellings.
pub const N_YEAR_SUFFIXES: usize = 5;

/// The localized prefix of a year folder, one locale per arm.
pub fn year_prefix(i: usize) -> (r: &'static str)
    requires
        i < N_YEAR_PREFIXES,
    ensures
        r@ == spec_year_prefix(i as int),
{
    match i {
        0 => "Photos from ",
        1 => "Fotos von ",
        2 => "Fotos aus ",
        3 => "Photos de ",
        4 => "Fotos de ",
        5 => "Foto's uit ",
        6 => "Foto dal ",
        7 => "Foto del ",
        8 => "Zdjęcia z ",
        9 => "Фото за ",
        10 => "Фотографии за ",
        11 => "Fotky z ",
        12 => "Fotografii din ",
        13 => "Foton från ",
        14 => "Bilder fra ",
        15 => "Billeder fra ",
        16 => "Valokuvat ",
        17 => "Fényképek - ",
        _ => "Fotoğraflar ",
    }
}

/// The localized suffix of a year folder, one locale per arm.
pub fn year_suffix(i: usize) -> (r: &'static str)
    requires
        i < N_YEAR_SUFFIXES,
    ensures
        r@ == spec_year_suffix(i as int),
{
    match i {
        0 => " 年の写真",
        1 => "年のフォト",
        2 => "년의 사진",
        3 => "年的照片",
        _ => "年的相片",
    }
}

/// The localized prefix of a year folder, as characters.
pub open spec fn spec_year_prefix(i: int) -> Seq<char> {
    if i == 0 {
        "Photos from "@
    } else if i == 1 {
        "Fotos von "@
    } else if i == 2 {
        "Fotos aus "@
    } else if i == 3 {
        "Photos de "@
    } else if i == 4 {
        "Fotos de "@
    } else if i == 5 {
        "Foto's uit "@
    } else if i == 6 {
        "Foto dal "@
    } else if i == 7 {
        "Foto del "@
    } else if i == 8 {
        "Zdjęcia z "@
    } else if i == 9 {
        "Фото за "@
    } else if i == 10 {
        "Фотографии за "@
    } else if i == 11 {
        "Fotky z "@
    } else if i == 12 {
        "Fotografii din "@
    } else if i == 13 {
        "Foton från "@
    } else if i == 14 {
        "Bilder fra "@
    } else if i == 15 {
        "Billeder fra "@
    } else if i == 16 {
        "Valokuvat "@
    } else if i == 17 {
        "Fényképek - "@
    } else {
        "Fotoğraflar "@
    }
}

/// The localized suffix of a year folder, as characters.
pub open spec fn spec_year_suffix(i: int) -> Seq<char> {
    if i == 0 {
        " 年の写真"@
    } else if i == 1 {
        "年のフォト"@
    } else if i == 2 {
        "년의 사진"@
    } else if i == 3 {
        "年的照片"@
    } else {
        "年的相片"@
    }
}


/// `name` is a localized year folder: a known prefix followed by a year, or a
/// year followed by a known suffix.
pub open spec fn spec_is_year_folder(name: Seq<char>) -> bool {
    (exists|i: int|
        0 <= i < N_YEAR_PREFIXES && #[trigger] starts_with(name, spec_year_prefix(i))
            && spec_is_year_text(name.subrange(spec_year_prefix(i).len() as int, name.len() as int)))
    || (exists|i: int|
        0 <= i < N_YEAR_SUFFIXES && #[trigger] ends_with(name, spec_year_suffix(i))
            && spec_is_year_text(name.subrange(0, name.len() - spec_year_suffix(i).len())))
}

/// Whether `s[start..]` is a year from 1800 through 2099.
fn is_year_text_from(s: &[char], start: usize) -> (r: bool)
    requires
        start <= s@.len(),
    ensures
        r == spec_is_year_text(s@.subrange(start as int, s@.len() as int)),
{
    if s.len() - start != 4 {
        return false;
    }
    let a = s[start];
    let b = s[start + 1];
    ((a == '1' && (b == '8' || b == '9')) || (a == '2' && b == '0'))
        && '0' <= s[start + 2] && s[start + 2] <= '9'
        && '0' <= s[start + 3] && s[start + 3] <= '9'
}

/// Whether `s[..end]` is a year from 1800 through 2099.
fn is_year_text_upto(s: &[char], end: usize) -> (r: bool)
    requires
        end <= s@.len(),
    ensures
        r == spec_is_year_text(s@.subrange(0, end as int)),
{
    if end != 4 {
        return false;
    }
    let a = s[0];
    let b = s[1];
    ((a == '1' && (b == '8' || b == '9')) || (a == '2' && b == '0'))
        && '0' <= s[2] && s[2] <= '9'
        && '0' <= s[3] && s[3] <= '9'
}

/// Year-folder test on characters.
pub fn is_year_folder_chars(name: &[char]) -> (r: bool)
    ensures
        r == spec_is_year_folder(name@),
{
    let mut i: usize = 0;
    while i < N_YEAR_PREFIXES
        invariant
            i <= N_YEAR_PREFIXES,
            forall|j: int| 0 <= j < i ==> !(#[trigger] starts_with(name@, spec_year_prefix(j))
                && spec_is_year_text(name@.subrange(spec_year_prefix(j).len() as int, name@.len() as int))),
        decreases N_YEAR_PREFIXES - i,
    {
        let p = chars_of(year_prefix(i));
        if starts_with_exec(name, p.as_slice()) && is_year_text_from(name, p.len()) {
            return true;
        }
        i += 1;
    }
    let mut i: usize = 0;
    while i < N_YEAR_SUFFIXES
        invariant
            i <= N_YEAR_SUFFIXES,
            forall|j: int| 0 <= j < N_YEAR_PREFIXES ==> !(#[trigger] starts_with(name@, spec_year_prefix(j))
                && spec_is_year_text(name@.subrange(spec_year_prefix(j).len() as int, name@.len() as int))),
            forall|j: int| 0 <= j < i ==> !(#[trigger] ends_with(name@, spec_year_suffix(j))
                && spec_is_year_text(name@.subrange(0, name@.len() - spec_year_suffix(j).len()))),
        decreases N_YEAR_SUFFIXES - i,
    {
        let p = chars_of(year_suffix(i));
        if ends_with_exec(name, p.as_slice()) && is_year_text_upto(name, name.len() - p.len()) {
            return true;
        }
        i += 1;
    }
    false
}

/// Check if a folder name matches a Google Takeout year folder pattern.
pub fn is_year_folder(name: &str) -> (r: bool)
    ensures
        r == spec_is_year_folder(name@),
{
    let v = chars_of(name);
    is_year_folder_chars(v.as_slice())
}

/// The components of a path, split at every '/'. Built from the left, one
/// character at a time: a '/' opens a new, empty component; any other
/// character extends the last one.
pub open spec fn split_slash(s: Seq<char>) -> Seq<Seq<char>>
    decreases s.len(),
{
    if s.len() == 0 {
        seq![Seq::<char>::empty()]
    } else {
        let prev = split_slash(s.drop_last());
        if s.last() == '/' {
            prev.push(Seq::<char>::empty())
        } else {
            prev.update(prev.len() - 1, prev.last().push(s.last()))
        }
    }
}

pub proof fn lemma_split_nonempty(s: Seq<char>)
    ensures
        split_slash(s).len() >= 1,
    decreases s.len(),
{
    if s.len() > 0 {
        lemma_split_nonempty(s.drop_last());
    }
}

/// Splits a path at every '/'.
pub fn split_path(s: &[char]) -> (r: Vec<Vec<char>>)
    ensures
        r@.map_values(|v: Vec<char>| v@) == split_slash(s@),
{
    let mut parts: Vec<Vec<char>> = Vec::new();
    let mut cur: Vec<char> = Vec::new();
    let mut i: usize = 0;
    while i < s.len()
        invariant
            i <= s@.len(),
            parts@.map_values(|v: Vec<char>| v@).push(cur@) == split_slash(s@.subrange(0, i as int)),
        decreases s@.len() - i,
    {
        proof {
            lemma_split_nonempty(s@.subrange(0, i as int));
            assert(s@.subrange(0, i + 1).drop_last() == s@.subrange(0, i as int));
        }
        let c = s[i];
        if c == '/' {
            let done = cur;
            parts.push(done);
            cur = Vec::new();
            proof {
                assert(parts@.map_values(|v: Vec<char>| v@).push(cur@)
                    =~= split_slash(s@.subrange(0, i as int)).push(Seq::<char>::empty()));
            }
        } else {
            cur.push(c);
            proof {
                let prev = split_slash(s@.subrange(0, i as int));
                assert(parts@.map_values(|v: Vec<char>| v@).push(cur@)
                    =~= prev.update(prev.len() - 1, prev.last().push(c)));
            }
        }
        i += 1;
    }
    assert(s@.subrange(0, s@.len() as int) == s@);
    parts.push(cur);
    parts
}

/// Some component of the path is a year folder.
pub open spec fn spec_is_in_year_folder(path: Seq<char>) -> bool {
    exists|k: int| 0 <= k < split_slash(path).len() && #[trigger] spec_is_year_folder(split_slash(path)[k])
}

/// Check if a zip entry path is inside a year folder (at any level).
pub fn is_in_year_folder(zip_path: &str) -> (r: bool)
    ensures
        r == spec_is_in_year_folder(zip_path@),
{
    let v = chars_of(zip_path);
    let parts = split_path(v.as_slice());
    let ghost views = parts@.map_values(|v: Vec<char>| v@);
    let mut k: usize = 0;
    while k < parts.len()
        invariant
            k <= parts@.len(),
            views == split_slash(zip_path@),
            views == parts@.map_values(|v: Vec<char>| v@),
            forall|j: int| 0 <= j < k ==> !spec_is_year_folder(#[trigger] views[j]),
        decreases parts@.len() - k,
    {
        if is_year_folder_chars(parts[k].as_slice()) {
            assert(views[k as int] == parts@[k as int]@);
            return true;
        }
        assert(views[k as int] == parts@[k as int]@);
        k += 1;
    }
    false
}


/// Number of localized tokens for "Photos" in the Google Photos folder name.
pub const N_PHOTO_TOKENS: usize = 5;

/// A localized token for "Photos", one locale per arm.
pub fn photo_token(i: usize) -> (r: &'static str)
    requires
        i < N_PHOTO_TOKENS,
    ensures
        r@ == spec_photo_token(i as int),
{
    match i {
        0 => "hoto",
        1 => "ото",
        2 => "フォト",
        3 => "照片",
        _ => "사진",
    }
}

/// A localized token for "Photos", as characters.
pub open spec fn spec_photo_token(i: int) -> Seq<char> {
    if i == 0 {
        "hoto"@
    } else if i == 1 {
        "ото"@
    } else if i == 2 {
        "フォト"@
    } else if i == 3 {
        "照片"@
    } else {
        "사진"@
    }
}

/// The segment names the Google Photos folder: it starts with "Google" and
/// holds a localized token for "Photos".
pub open spec fn spec_is_photos_segment(p: Seq<char>) -> bool {
    starts_with(p, "Google"@) && exists|i: int| 0 <= i < N_PHOTO_TOKENS && #[trigger] contains(p, spec_photo_token(i))
}

/// The component after `parts[i]` names an album.
pub open spec fn spec_album_at(parts: Seq<Seq<char>>, i: int) -> bool {
    &&& i + 2 < parts.len()
    &&& spec_is_photos_segment(parts[i])
    &&& parts[i + 1].len() > 0
    &&& !spec_is_year_folder(parts[i + 1])
}

/// The album named after the first Google Photos segment, searching from `i`.
pub open spec fn spec_album_search(parts: Seq<Seq<char>>, i: int) -> Option<Seq<char>>
    decreases parts.len() - i,
{
    if i < 0 || i + 2 >= parts.len() {
        None
    } else if spec_album_at(parts, i) {
        Some(parts[i + 1])
    } else {
        spec_album_search(parts, i + 1)
    }
}

/// The album that a path lies in, if any.
pub open spec fn spec_extract_album_name(path: Seq<char>) -> Option<Seq<char>> {
    spec_album_search(split_slash(path), 0)
}

fn is_photos_segment(p: &[char]) -> (r: bool)
    ensures
        r == spec_is_photos_segment(p@),
{
    let google = chars_of("Google");
    if !starts_with_exec(p, google.as_slice()) {
        return false;
    }
    let mut i: usize = 0;
    while i < N_PHOTO_TOKENS
        invariant
            i <= N_PHOTO_TOKENS,
            starts_with(p@, "Google"@),
            forall|j: int| 0 <= j < i ==> !#[trigger] contains(p@, spec_photo_token(j)),
        decreases N_PHOTO_TOKENS - i,
    {
        let t = chars_of(photo_token(i));
        if contains_exec(p, t.as_slice()) {
            assert(contains(p@, spec_photo_token(i as int)));
            return true;
        }
        i += 1;
    }
    false
}

/// Extract album name from a zip entry path: the component right after the
/// Google Photos folder, when it is not a year folder and something follows it.
pub fn extract_album_name(zip_path: &str) -> (r: Option<String>)
    ensures
        r.is_some() == spec_extract_album_name(zip_path@).is_some(),
        r.is_some() ==> r.unwrap()@ == spec_extract_album_name(zip_path@).unwrap(),
{
    let v = chars_of(zip_path);
    let parts = split_path(v.as_slice());
    let ghost views = parts@.map_values(|v: Vec<char>| v@);
    if parts.len() < 3 {
        return None;
    }
    let mut i: usize = 0;
    while i + 2 < parts.len()
        invariant
            i + 2 <= parts@.len(),
            views == split_slash(zip_path@),
            views == parts@.map_values(|v: Vec<char>| v@),
            spec_album_search(views, 0) == spec_album_search(views, i as int),
        decreases parts@.len() - i,
    {
        assert(views[i as int] == parts@[i as int]@);
        assert(views[i + 1] == parts@[i + 1]@);
        if is_photos_segment(parts[i].as_slice()) && parts[i + 1].len() > 0
            && !is_year_folder_chars(parts[i + 1].as_slice()) {
            return Some(string_of(parts[i + 1].as_slice()));
        }
        i += 1;
    }
    None
}

} // verus!
