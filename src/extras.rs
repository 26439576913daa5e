//! Google's derived images: filenames whose stem ends in a localized "-edited".
use vstd::prelude::*;
use unicode_normalization::UnicodeNormalization;
use crate::text::{chars_of, ends_with, ends_with_exec, occurs_at, occurs_at_exec, string_of};

verus! {

/// Number of localized "edited" suffixes.
pub const N_EXTRA_FORMATS: usize = 12;

/// A localized "edited" suffix (lowercase), one per arm.
pub fn extra_format(i: usize) -> (r: &'static str)
    requires
        i < N_EXTRA_FORMATS,
    ensures
        r@ == spec_extra_format(i as int),
{
    match i {
        0 => "-edited",
        1 => "-effects",
        2 => "-smile",
        3 => "-mix",
        4 => "-edytowane",
        5 => "-bearbeitet",
        6 => "-bewerkt",
        7 => "-編集済み",
        8 => "-modificato",
        9 => "-modifié",
        10 => "-ha editado",
        _ => "-editat",
    }
}

/// A localized "edited" suffix, as characters.
pub open spec fn spec_extra_format(i: int) -> Seq<char> {
    if i == 0 {
        "-edited"@
    } else if i == 1 {
        "-effects"@
    } else if i == 2 {
        "-smile"@
    } else if i == 3 {
        "-mix"@
    } else if i == 4 {
        "-edytowane"@
    } else if i == 5 {
        "-bearbeitet"@
    } else if i == 6 {
        "-bewerkt"@
    } else if i == 7 {
        "-編集済み"@
    } else if i == 8 {
        "-modificato"@
    } else if i == 9 {
        "-modifié"@
    } else if i == 10 {
        "-ha editado"@
    } else {
        "-editat"@
    }
}

/// What `str::to_lowercase` makes of a text.
pub uninterp spec fn lower_of(s: Seq<char>) -> Seq<char>;

/// What unicode-normalization's NFC makes of a text.
pub uninterp spec fn nfc_of(s: Seq<char>) -> Seq<char>;

/// Relies on `str::to_lowercase`: the result depends on the characters alone.
#[verifier::external_body]
pub(crate) fn lowercase(s: &str) -> (r: String)
    ensures
        r@ == lower_of(s@),
{
    s.to_lowercase()
}

/// Relies on unicode-normalization's `UnicodeNormalization::nfc`: the
/// composed normal form depends on the characters alone.
#[verifier::external_body]
fn nfc(s: &str) -> (r: String)
    ensures
        r@ == nfc_of(s@),
{
    s.nfc().collect()
}

/// The text ends with one of the localized suffixes.
pub open spec fn spec_ends_with_extra(name: Seq<char>) -> bool {
    exists|i: int| 0 <= i < N_EXTRA_FORMATS && #[trigger] ends_with(name, spec_extra_format(i))
}

/// A stem is an extra when its lowercase NFC form ends with a localized suffix.
pub open spec fn spec_is_extra(stem: Seq<char>) -> bool {
    spec_ends_with_extra(nfc_of(lower_of(stem)))
}

/// Whether an already lowercased, normalized stem ends with a localized suffix.
pub fn ends_with_extra(name: &str) -> (r: bool)
    ensures
        r == spec_ends_with_extra(name@),
{
    let v = chars_of(name);
    let mut i: usize = 0;
    while i < N_EXTRA_FORMATS
        invariant
            v@ == name@,
            i <= N_EXTRA_FORMATS,
            forall|j: int| 0 <= j < i ==> !#[trigger] ends_with(name@, spec_extra_format(j)),
        decreases N_EXTRA_FORMATS - i,
    {
        let e = chars_of(extra_format(i));
        if ends_with_exec(v.as_slice(), e.as_slice()) {
            assert(ends_with(name@, spec_extra_format(i as int)));
            return true;
        }
        i += 1;
    }
    false
}

/// Check if a filename without extension is an "extra" (an edited copy).
pub fn is_extra(filename_without_ext: &str) -> (r: bool)
    ensures
        r == spec_is_extra(filename_without_ext@),
{
    let lower = lowercase(filename_without_ext);
    let name = nfc(lower.as_str());
    ends_with_extra(name.as_str())
}

/// The last position at or before `i` where `needle` occurs in `s`.
pub open spec fn spec_last_occurrence_upto(s: Seq<char>, needle: Seq<char>, i: int) -> Option<int>
    decreases i + 1,
{
    if i < 0 {
        None
    } else if occurs_at(s, needle, i) {
        Some(i)
    } else {
        spec_last_occurrence_upto(s, needle, i - 1)
    }
}

/// The last position where `needle` occurs in `s`.
pub open spec fn spec_last_occurrence(s: Seq<char>, needle: Seq<char>) -> Option<int> {
    spec_last_occurrence_upto(s, needle, s.len() - needle.len())
}

/// `s` without the `n` characters at `pos`.
pub open spec fn spec_cut(s: Seq<char>, pos: int, n: int) -> Seq<char> {
    s.subrange(0, pos) + s.subrange(pos + n, s.len() as int)
}

/// What `char::to_lowercase` makes of one character.
pub uninterp spec fn char_lower_of(c: char) -> Seq<char>;

/// Relies on `char::to_lowercase`: the lowercase form of one character,
/// which depends on the character alone.
#[verifier::external_body]
fn char_lower(c: char) -> (r: String)
    ensures
        r@ == char_lower_of(c),
{
    c.to_lowercase().collect()
}

/// The suffix `marker` (lowercase) occurs at `i` in `s` ignoring case: each
/// character of `s` there lowercases to the marker's character.
pub open spec fn occurs_ci_at(s: Seq<char>, marker: Seq<char>, i: int) -> bool {
    &&& 0 <= i
    &&& i + marker.len() <= s.len()
    &&& forall|k: int| 0 <= k < marker.len() ==> #[trigger] char_lower_of(s[i + k]) == seq![marker[k]]
}

/// The last position at or before `i` where `marker` occurs ignoring case.
pub open spec fn last_ci_upto(s: Seq<char>, marker: Seq<char>, i: int) -> Option<int>
    decreases i + 1,
{
    if i < 0 {
        None
    } else if occurs_ci_at(s, marker, i) {
        Some(i)
    } else {
        last_ci_upto(s, marker, i - 1)
    }
}

/// Removing from the name the last case-insensitive occurrence of the first
/// suffix, in list order, that occurs in it.
pub open spec fn spec_remove_from(normalized: Seq<char>, i: int) -> Seq<char>
    decreases N_EXTRA_FORMATS - i,
{
    if i < 0 || i >= N_EXTRA_FORMATS {
        normalized
    } else {
        match last_ci_upto(normalized, spec_extra_format(i), normalized.len() - spec_extra_format(i).len()) {
            Some(pos) => spec_cut(normalized, pos, spec_extra_format(i).len() as int),
            None => spec_remove_from(normalized, i + 1),
        }
    }
}

/// What `remove_extra` returns.
pub open spec fn spec_remove_extra(filename: Seq<char>) -> Seq<char> {
    spec_remove_from(nfc_of(filename), 0)
}

fn occurs_ci_at_exec(s: &[char], marker: &[char], i: usize) -> (r: bool)
    ensures
        r == occurs_ci_at(s@, marker@, i as int),
{
    if i > s.len() || marker.len() > s.len() - i {
        return false;
    }
    let n = s.len();
    let mut k: usize = 0;
    while k < marker.len()
        invariant
            n == s@.len(),
            i + marker@.len() <= s@.len(),
            k <= marker@.len(),
            forall|j: int| 0 <= j < k ==> #[trigger] char_lower_of(s@[i + j]) == seq![marker@[j]],
        decreases marker@.len() - k,
    {
        assert(i + k < n);
        let l = chars_of(char_lower(s[i + k]).as_str());
        let one: Vec<char> = vec![marker[k]];
        assert(one@ =~= seq![marker@[k as int]]);
        if !crate::text::slices_equal(l.as_slice(), one.as_slice()) {
            return false;
        }
        k += 1;
    }
    true
}

fn last_ci(s: &[char], marker: &[char]) -> (r: Option<usize>)
    ensures
        match r {
            Some(p) => last_ci_upto(s@, marker@, s@.len() - marker@.len()) == Some(p as int) && p + marker@.len() <= s@.len(),
            None => last_ci_upto(s@, marker@, s@.len() - marker@.len()) is None,
        },
{
    if marker.len() > s.len() {
        assert(last_ci_upto(s@, marker@, s@.len() - marker@.len()) is None);
        return None;
    }
    let mut i: usize = s.len() - marker.len();
    loop
        invariant
            marker@.len() <= s@.len(),
            i <= s@.len() - marker@.len(),
            last_ci_upto(s@, marker@, s@.len() - marker@.len()) == last_ci_upto(s@, marker@, i as int),
        decreases i,
    {
        if occurs_ci_at_exec(s, marker, i) {
            return Some(i);
        }
        if i == 0 {
            assert(last_ci_upto(s@, marker@, -1) is None);
            return None;
        }
        i -= 1;
    }
}

pub proof fn lemma_last_occurrence_in_range(s: Seq<char>, needle: Seq<char>, i: int)
    requires
        spec_last_occurrence_upto(s, needle, i) is Some,
    ensures
        occurs_at(s, needle, spec_last_occurrence_upto(s, needle, i)->0),
    decreases i + 1,
{
    if i >= 0 && !occurs_at(s, needle, i) {
        lemma_last_occurrence_in_range(s, needle, i - 1);
    }
}

/// The last position where `needle` occurs in `s`.
pub fn last_occurrence(s: &[char], needle: &[char]) -> (r: Option<usize>)
    ensures
        match r {
            Some(p) => spec_last_occurrence(s@, needle@) == Some(p as int) && occurs_at(s@, needle@, p as int),
            None => spec_last_occurrence(s@, needle@) is None,
        },
{
    if needle.len() > s.len() {
        assert(spec_last_occurrence_upto(s@, needle@, s@.len() - needle@.len()) is None);
        return None;
    }
    let mut i: usize = s.len() - needle.len();
    loop
        invariant
            needle@.len() <= s@.len(),
            i <= s@.len() - needle@.len(),
            spec_last_occurrence(s@, needle@) == spec_last_occurrence_upto(s@, needle@, i as int),
        decreases i,
    {
        if occurs_at_exec(s, needle, i) {
            return Some(i);
        }
        if i == 0 {
            assert(spec_last_occurrence_upto(s@, needle@, -1) is None);
            return None;
        }
        i -= 1;
    }
}

/// Remove an extra suffix from a filename, if present (for sidecar matching).
/// The name is NFC-normalized; the last occurrence of the first suffix that
/// occurs, matched ignoring case, is cut out, the rest kept as it was.
pub fn remove_extra(filename: &str) -> (r: String)
    ensures
        r@ == spec_remove_extra(filename@),
{
    let normalized = nfc(filename);
    let n = chars_of(normalized.as_str());
    let mut i: usize = 0;
    while i < N_EXTRA_FORMATS
        invariant
            n@ == nfc_of(filename@),
            i <= N_EXTRA_FORMATS,
            spec_remove_extra(filename@) == spec_remove_from(n@, i as int),
        decreases N_EXTRA_FORMATS - i,
    {
        let e = chars_of(extra_format(i));
        if let Some(pos) = last_ci(n.as_slice(), e.as_slice()) {
            let out = crate::sidecar::cut(n.as_slice(), pos, e.len());
            return string_of(out.as_slice());
        }
        i += 1;
    }
    string_of(n.as_slice())
}

} // verus!
