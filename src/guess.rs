//! Capture times that camera and screenshot tools write into filenames.
use vstd::prelude::*;
use crate::date::{LocalDateTime, parsed_datetime_of};
use crate::folder_classify::{is_digit, split_slash, split_path};
use crate::text::{chars_of, string_of};

verus! {

/// Number of filename patterns, tried in order.
pub const N_PATTERNS: usize = 6;

/// The separator after field `k` (year, month, day, hour, minute) of
/// pattern `p`, if it has one.
pub open spec fn spec_sep(p: int, k: int) -> Option<char> {
    if p == 0 {
        if k == 2 { Some('-') } else { None }
    } else if p == 1 {
        if k == 2 { Some('_') } else { None }
    } else if p == 2 {
        Some('-')
    } else if p == 3 {
        if k < 3 { Some('-') } else { None }
    } else if p == 4 {
        None
    } else {
        Some('_')
    }
}

/// The chrono format that reads a match of pattern `p`.
pub open spec fn spec_format(p: int) -> Seq<char> {
    if p == 0 {
        "%Y%m%d-%H%M%S"@
    } else if p == 1 {
        "%Y%m%d_%H%M%S"@
    } else if p == 2 {
        "%Y-%m-%d-%H-%M-%S"@
    } else if p == 3 {
        "%Y-%m-%d-%H%M%S"@
    } else if p == 4 {
        "%Y%m%d%H%M%S"@
    } else {
        "%Y_%m_%d_%H_%M_%S"@
    }
}

/// Width of field `f`: four digits of year, then two each.
pub open spec fn field_width(f: int) -> int {
    if f == 0 { 4 } else { 2 }
}

/// Width of the separator after field `k` of pattern `p`.
pub open spec fn sep_width(p: int, k: int) -> int {
    if spec_sep(p, k) is Some { 1 } else { 0 }
}

/// Where field `f` of pattern `p` starts within a match.
pub open spec fn field_offset(p: int, f: int) -> int
    decreases f,
{
    if f <= 0 {
        0
    } else {
        field_offset(p, f - 1) + field_width(f - 1) + sep_width(p, f - 1)
    }
}

/// Length of a match of pattern `p`.
pub open spec fn pattern_len(p: int) -> int {
    field_offset(p, 5) + 2
}

/// Pattern `p` matches `s` at position `i`: a year 18xx, 19xx or 20xx, a
/// month 01 to 12, a day whose first digit is 0 to 3, then two digits each of
/// hour, minute and second, with the pattern's separators between.
pub open spec fn spec_matches_at(s: Seq<char>, p: int, i: int) -> bool {
    let y = i;
    let m = i + field_offset(p, 1);
    let d = i + field_offset(p, 2);
    let h = i + field_offset(p, 3);
    let mi = i + field_offset(p, 4);
    let se = i + field_offset(p, 5);
    &&& 0 <= i
    &&& i + pattern_len(p) <= s.len()
    &&& ((s[y] == '1' && (s[y + 1] == '8' || s[y + 1] == '9')) || (s[y] == '2' && s[y + 1] == '0'))
    &&& is_digit(s[y + 2]) && is_digit(s[y + 3])
    &&& ((s[m] == '0' && '1' <= s[m + 1] <= '9') || (s[m] == '1' && '0' <= s[m + 1] <= '2'))
    &&& '0' <= s[d] <= '3' && is_digit(s[d + 1])
    &&& is_digit(s[h]) && is_digit(s[h + 1])
    &&& is_digit(s[mi]) && is_digit(s[mi + 1])
    &&& is_digit(s[se]) && is_digit(s[se + 1])
    &&& forall|k: int| 0 <= k < 5 && #[trigger] spec_sep(p, k) is Some
        ==> s[i + field_offset(p, k) + field_width(k)] == spec_sep(p, k)->0
}

/// The leftmost position at or after `i` where pattern `p` matches.
pub open spec fn spec_first_match(s: Seq<char>, p: int, i: int) -> Option<int>
    decreases s.len() - i,
{
    if i < 0 || i >= s.len() || i + pattern_len(p) > s.len() {
        None
    } else if spec_matches_at(s, p, i) {
        Some(i)
    } else {
        spec_first_match(s, p, i + 1)
    }
}

/// Field offsets grow by each field's width and separator, and stay
/// within the shape of the longest pattern.
pub proof fn lemma_offsets(p: int)
    ensures
        forall|f: int| 0 <= f < 5 ==> #[trigger] field_offset(p, f + 1) == field_offset(p, f) + field_width(f) + sep_width(p, f),
        forall|f: int, g: int| 0 <= f <= g <= 5 ==> 0 <= #[trigger] field_offset(p, f) <= #[trigger] field_offset(p, g),
        field_offset(p, 0) == 0,
        field_offset(p, 5) <= 17,
        field_offset(p, 5) >= 12,
{
    reveal_with_fuel(field_offset, 7);
}

/// Trying patterns `p` onwards: the first whose leftmost match chrono reads
/// as a date-time.
pub open spec fn spec_guess_from(s: Seq<char>, p: int) -> Option<LocalDateTime>
    decreases N_PATTERNS - p,
{
    if p < 0 || p >= N_PATTERNS {
        None
    } else {
        match spec_first_match(s, p, 0) {
            Some(i) => match parsed_datetime_of(s.subrange(i, i + pattern_len(p)), spec_format(p)) {
                Some(d) => Some(d),
                None => spec_guess_from(s, p + 1),
            },
            None => spec_guess_from(s, p + 1),
        }
    }
}

/// The date a filename encodes, read from its last path component.
pub open spec fn spec_guess_date(filename: Seq<char>) -> Option<LocalDateTime> {
    spec_guess_from(split_slash(filename).last(), 0)
}

fn sep(p: usize, k: usize) -> (r: Option<char>)
    requires
        p < N_PATTERNS,
    ensures
        r == spec_sep(p as int, k as int),
{
    if p == 0 {
        if k == 2 { Some('-') } else { None }
    } else if p == 1 {
        if k == 2 { Some('_') } else { None }
    } else if p == 2 {
        Some('-')
    } else if p == 3 {
        if k < 3 { Some('-') } else { None }
    } else if p == 4 {
        None
    } else {
        Some('_')
    }
}

fn format(p: usize) -> (r: &'static str)
    requires
        p < N_PATTERNS,
    ensures
        r@ == spec_format(p as int),
{
    match p {
        0 => "%Y%m%d-%H%M%S",
        1 => "%Y%m%d_%H%M%S",
        2 => "%Y-%m-%d-%H-%M-%S",
        3 => "%Y-%m-%d-%H%M%S",
        4 => "%Y%m%d%H%M%S",
        _ => "%Y_%m_%d_%H_%M_%S",
    }
}

/// Field offsets of pattern `p`, fields 0 through 5.
fn offsets(p: usize) -> (r: Vec<usize>)
    requires
        p < N_PATTERNS,
    ensures
        r@.len() == 6,
        forall|f: int| 0 <= f < 6 ==> r@[f] as int == field_offset(p as int, f),
        r@[5] <= 17,
{
    let mut r: Vec<usize> = Vec::new();
    r.push(0);
    let mut f: usize = 1;
    while f < 6
        invariant
            p < N_PATTERNS,
            1 <= f <= 6,
            r@.len() == f,
            forall|g: int| 0 <= g < f ==> r@[g] as int == field_offset(p as int, g),
            forall|g: int| 0 <= g < f ==> r@[g] <= 3 * g + 2,
        decreases 6 - f,
    {
        let w: usize = if f == 1 { 4 } else { 2 };
        let sw: usize = if sep(p, f - 1).is_some() { 1 } else { 0 };
        let prev = r[f - 1];
        proof {
            lemma_offsets(p as int);
            assert(field_offset(p as int, f as int) == field_offset(p as int, f - 1) + field_width(f - 1) + sep_width(p as int, f - 1));
        }
        r.push(prev + w + sw);
        proof {
            assert forall|g: int| 0 <= g < f + 1 implies r@[g] as int == field_offset(p as int, g) by {
                if g < f {
                    assert(r@[g] == r@.drop_last()[g]);
                }
            }
        }
        f += 1;
    }
    r
}

fn digit(c: char) -> (r: bool)
    ensures
        r == is_digit(c),
{
    '0' <= c && c <= '9'
}

fn matches_at(s: &[char], p: usize, i: usize, off: &Vec<usize>) -> (r: bool)
    requires
        p < N_PATTERNS,
        off@.len() == 6,
        forall|f: int| 0 <= f < 6 ==> off@[f] as int == field_offset(p as int, f),
        off@[5] <= 17,
    ensures
        r == spec_matches_at(s@, p as int, i as int),
{
    proof {
        lemma_offsets(p as int);
    }
    let len = off[5] + 2;
    if i >= s.len() || len > s.len() - i {
        return false;
    }
    assert(off@[1] <= off@[5] && off@[2] <= off@[5] && off@[3] <= off@[5] && off@[4] <= off@[5]) by {
        assert(field_offset(p as int, 1) <= field_offset(p as int, 5));
        assert(field_offset(p as int, 2) <= field_offset(p as int, 5));
        assert(field_offset(p as int, 3) <= field_offset(p as int, 5));
        assert(field_offset(p as int, 4) <= field_offset(p as int, 5));
    }
    let y = i;
    let m = i + off[1];
    let d = i + off[2];
    let h = i + off[3];
    let mi = i + off[4];
    let se = i + off[5];
    let fields = ((s[y] == '1' && (s[y + 1] == '8' || s[y + 1] == '9')) || (s[y] == '2' && s[y + 1] == '0'))
        && digit(s[y + 2]) && digit(s[y + 3])
        && ((s[m] == '0' && '1' <= s[m + 1] && s[m + 1] <= '9') || (s[m] == '1' && '0' <= s[m + 1] && s[m + 1] <= '2'))
        && '0' <= s[d] && s[d] <= '3' && digit(s[d + 1])
        && digit(s[h]) && digit(s[h + 1])
        && digit(s[mi]) && digit(s[mi + 1])
        && digit(s[se]) && digit(s[se + 1]);
    if !fields {
        return false;
    }
    let n = s.len();
    let mut k: usize = 0;
    while k < 5
        invariant
            n == s@.len(),
            p < N_PATTERNS,
            off@.len() == 6,
            k <= 5,
            i + off@[5] + 2 <= s@.len(),
            forall|f: int| 0 <= f < 6 ==> off@[f] as int == field_offset(p as int, f),
            forall|j: int| 0 <= j < k && #[trigger] spec_sep(p as int, j) is Some
                ==> s@[i + field_offset(p as int, j) + field_width(j)] == spec_sep(p as int, j)->0,
        decreases 5 - k,
    {
        proof {
            lemma_offsets(p as int);
        }
        match sep(p, k) {
            Some(c) => {
                let w: usize = if k == 0 { 4 } else { 2 };
                assert(field_offset(p as int, k + 1) == field_offset(p as int, k as int) + field_width(k as int) + 1);
                assert(field_offset(p as int, k + 1) <= field_offset(p as int, 5));
                assert(off@[k as int] as int == field_offset(p as int, k as int));
                assert(off@[5] as int == field_offset(p as int, 5));
                assert(i + off@[k as int] + w < n);
                if s[i + off[k] + w] != c {
                    return false;
                }
            },
            None => {},
        }
        k += 1;
    }
    true
}

/// The leftmost match of pattern `p` in `s`.
fn first_match(s: &[char], p: usize) -> (r: Option<usize>)
    requires
        p < N_PATTERNS,
    ensures
        match r {
            Some(i) => spec_first_match(s@, p as int, 0) == Some(i as int),
            None => spec_first_match(s@, p as int, 0) is None,
        },
{
    let off = offsets(p);
    let len = off[5] + 2;
    let mut i: usize = 0;
    while i <= s.len() && len <= s.len() - i
        invariant
            p < N_PATTERNS,
            off@.len() == 6,
            forall|f: int| 0 <= f < 6 ==> off@[f] as int == field_offset(p as int, f),
            off@[5] <= 17,
            len as int == pattern_len(p as int),
            spec_first_match(s@, p as int, 0) == spec_first_match(s@, p as int, i as int),
        decreases s@.len() + 1 - i,
    {
        if matches_at(s, p, i, &off) {
            return Some(i);
        }
        i += 1;
    }
    None
}

/// Guess the capture time from a filename: the first of the known patterns
/// (`YYYYMMDD-hhmmss`, `YYYYMMDD_hhmmss`, `YYYY-MM-DD-hh-mm-ss`,
/// `YYYY-MM-DD-hhmmss`, `YYYYMMDDhhmmss`, `YYYY_MM_DD_hh_mm_ss`) whose leftmost
/// match in the last path component reads as a valid date-time.
pub fn guess_date_from_filename(filename: &str) -> (r: Option<LocalDateTime>)
    ensures
        r == spec_guess_date(filename@),
{
    let v = chars_of(filename);
    let parts = split_path(v.as_slice());
    proof {
        assert(parts@.map_values(|v: Vec<char>| v@).len() == parts@.len());
        crate::folder_classify::lemma_split_nonempty(filename@);
    }
    let last = parts.len() - 1;
    let base = &parts[last];
    assert(base@ == split_slash(filename@).last());
    let mut p: usize = 0;
    while p < N_PATTERNS
        invariant
            p <= N_PATTERNS,
            base@ == split_slash(filename@).last(),
            spec_guess_from(base@, 0) == spec_guess_from(base@, p as int),
        decreases N_PATTERNS - p,
    {
        if let Some(i) = first_match(base.as_slice(), p) {
            proof {
                lemma_first_match_in_range(base@, p as int, 0);
            }
            let off = offsets(p);
            let len = off[5] + 2;
            assert(off@[5] as int == field_offset(p as int, 5));
            let n = base.len();
            assert(i + len <= n);
            let text = string_of(vstd::slice::slice_subrange(base.as_slice(), i, i + len));
            assert(text@ == base@.subrange(i as int, i + pattern_len(p as int)));
            let fmt = format(p);
            if let Some(d) = crate::date::parse_datetime(text.as_str(), fmt) {
                assert(spec_guess_from(base@, p as int) == Some(d));
                return Some(d);
            }
        }
        p += 1;
    }
    None
}

proof fn lemma_first_match_in_range(s: Seq<char>, p: int, i: int)
    requires
        spec_first_match(s, p, i) is Some,
    ensures
        i <= spec_first_match(s, p, i)->0,
        spec_first_match(s, p, i)->0 + pattern_len(p) <= s.len(),
    decreases s.len() - i,
{
    if i < 0 || i + pattern_len(p) > s.len() {
    } else if spec_matches_at(s, p, i) {
    } else {
        lemma_first_match_in_range(s, p, i + 1);
    }
}

} // verus!
