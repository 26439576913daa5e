//! Google's JSON sidecars: the capture time they record, and the filename
//! variants under which a media file finds its sidecar.
use vstd::prelude::*;
use crate::date::LocalDateTime;
use crate::extras::{spec_cut, spec_last_occurrence, spec_remove_extra, remove_extra};

use crate::folder_classify::is_digit;
use crate::pathset::PathSet;
use crate::text::{chars_of, copy_chars, occurs_at};

verus! {

// ---------------------------------------------------------------- lengths

/// Bytes that UTF-8 takes for one character.
pub open spec fn utf8_width(c: char) -> nat {
    if (c as u32) < 0x80 {
        1
    } else if (c as u32) < 0x800 {
        2
    } else if (c as u32) < 0x10000 {
        3
    } else {
        4
    }
}

/// Bytes that UTF-8 takes for a text.
pub open spec fn utf8_len(s: Seq<char>) -> nat
    decreases s.len(),
{
    if s.len() == 0 {
        0
    } else {
        utf8_width(s[0]) + utf8_len(s.drop_first())
    }
}

/// All of a text fits in a budget exactly when its UTF-8 length does.
proof fn lemma_fit_all(s: Seq<char>, budget: int)
    requires
        budget >= 0,
    ensures
        (fit_chars(s, budget) == s.len()) <==> (utf8_len(s) <= budget),
    decreases s.len(),
{
    lemma_fit_le(s, budget);
    if s.len() > 0 {
        if utf8_width(s[0]) > budget {
            assert(utf8_len(s) >= utf8_width(s[0]));
        } else {
            lemma_fit_all(s.drop_first(), budget - utf8_width(s[0]));
            lemma_fit_le(s.drop_first(), budget - utf8_width(s[0]));
        }
    }
}

/// How many leading characters of `s` fit in `budget` bytes.
pub open spec fn fit_chars(s: Seq<char>, budget: int) -> nat
    decreases s.len(),
{
    if s.len() == 0 || utf8_width(s[0]) > budget {
        0
    } else {
        1 + fit_chars(s.drop_first(), budget - utf8_width(s[0]))
    }
}

/// Longest name whose sidecar `<name>.json` fits Takeout's 51 bytes.
pub const MAX_SIDECAR_LEN: usize = 51;

/// A name whose sidecar would pass 51 bytes, cut on a character boundary
/// to the 46 bytes that Takeout kept.
pub open spec fn spec_shorten_name(s: Seq<char>) -> Seq<char> {
    if utf8_len(s) + 5 > MAX_SIDECAR_LEN {
        s.subrange(0, fit_chars(s, MAX_SIDECAR_LEN - 5) as int)
    } else {
        s
    }
}

fn utf8_width_exec(c: char) -> (r: usize)
    ensures
        r == utf8_width(c),
{
    let u = c as u32;
    if u < 0x80 {
        1
    } else if u < 0x800 {
        2
    } else if u < 0x10000 {
        3
    } else {
        4
    }
}

proof fn lemma_fit_step(s: Seq<char>, k: int, budget: int)
    requires
        0 <= k < s.len(),
        utf8_width(s[k]) <= budget,
    ensures
        fit_chars(s.subrange(k, s.len() as int), budget)
            == 1 + fit_chars(s.subrange(k + 1, s.len() as int), budget - utf8_width(s[k])),
{
    assert(s.subrange(k, s.len() as int).drop_first() =~= s.subrange(k + 1, s.len() as int));
}

proof fn lemma_fit_le(s: Seq<char>, budget: int)
    ensures
        fit_chars(s, budget) <= s.len(),
    decreases s.len(),
{
    if s.len() > 0 && utf8_width(s[0]) <= budget {
        lemma_fit_le(s.drop_first(), budget - utf8_width(s[0]));
    }
}

/// Shorten a name the way Takeout did when `<name>.json` passed 51 bytes.
pub fn shorten_name(filename: &[char]) -> (r: Vec<char>)
    ensures
        r@ == spec_shorten_name(filename@),
{
    let mut budget: usize = MAX_SIDECAR_LEN - 5;
    let mut r: Vec<char> = Vec::new();
    let mut k: usize = 0;
    assert(filename@.subrange(0, filename@.len() as int) =~= filename@);
    while k < filename.len() && utf8_width_exec(filename[k]) <= budget
        invariant
            k <= filename@.len(),
            r@ == filename@.subrange(0, k as int),
            fit_chars(filename@, (MAX_SIDECAR_LEN - 5) as int)
                == k + fit_chars(filename@.subrange(k as int, filename@.len() as int), budget as int),
        decreases filename@.len() - k,
    {
        proof {
            lemma_fit_step(filename@, k as int, budget as int);
        }
        budget -= utf8_width_exec(filename[k]);
        r.push(filename[k]);
        k += 1;
    }
    proof {
        lemma_fit_all(filename@, (MAX_SIDECAR_LEN - 5) as int);
        if k < filename@.len() {
            lemma_fit_step_stop(filename@, k as int, budget as int);
        }
        assert(filename@.subrange(0, filename@.len() as int) =~= filename@);
    }
    r
}

proof fn lemma_fit_prefix_len(s: Seq<char>, budget: int)
    requires
        budget >= 0,
    ensures
        utf8_len(s.subrange(0, fit_chars(s, budget) as int)) <= budget,
    decreases s.len(),
{
    lemma_fit_le(s, budget);
    if s.len() > 0 && utf8_width(s[0]) <= budget {
        let rest = s.drop_first();
        let b2 = budget - utf8_width(s[0]);
        lemma_fit_prefix_len(rest, b2);
        let k = fit_chars(s, budget) as int;
        lemma_fit_le(rest, b2);
        assert(s.subrange(0, k).drop_first() =~= rest.subrange(0, k - 1));
        assert(s.subrange(0, k)[0] == s[0]);
    } else {
        assert(s.subrange(0, 0).len() == 0);
    }
}

/// Shortening happens exactly when `<name>.json` would pass 51 bytes; it
/// then keeps a prefix of the name, cut on a character boundary, of at most
/// 46 bytes.
pub proof fn lemma_shorten_law(s: Seq<char>)
    ensures
        (spec_shorten_name(s) != s) <==> (utf8_len(s) + 5 > MAX_SIDECAR_LEN),
        spec_shorten_name(s).len() <= s.len(),
        spec_shorten_name(s) == s.subrange(0, spec_shorten_name(s).len() as int),
        utf8_len(s) + 5 > MAX_SIDECAR_LEN ==> utf8_len(spec_shorten_name(s)) <= MAX_SIDECAR_LEN - 5,
{
    let b = (MAX_SIDECAR_LEN - 5) as int;
    lemma_fit_all(s, b);
    lemma_fit_le(s, b);
    lemma_fit_prefix_len(s, b);
    assert(s.subrange(0, s.len() as int) =~= s);
}

proof fn lemma_fit_step_stop(s: Seq<char>, k: int, budget: int)
    requires
        0 <= k < s.len(),
        utf8_width(s[k]) > budget,
    ensures
        fit_chars(s.subrange(k, s.len() as int), budget) == 0,
{
    assert(s.subrange(k, s.len() as int)[0] == s[k]);
}

// ----------------------------------------------------------- bracket swap

/// Number of consecutive digits in `s` from position `k` on.
pub open spec fn digit_run(s: Seq<char>, k: int) -> nat
    decreases s.len() - k,
{
    if k < 0 || k >= s.len() || !is_digit(s[k]) {
        0
    } else {
        1 + digit_run(s, k + 1)
    }
}

/// `(N).` starts at position `i`: an opening bracket, one or more digits,
/// a closing bracket and a dot.
pub open spec fn bracket_at(s: Seq<char>, i: int) -> bool {
    let n = digit_run(s, i + 1);
    &&& 0 <= i
    &&& i + n + 3 <= s.len()
    &&& s[i] == '('
    &&& n > 0
    &&& s[i + n + 1] == ')'
    &&& s[i + n + 2] == '.'
}

/// The last position at or before `i` where `(N).` starts.
pub open spec fn last_bracket_upto(s: Seq<char>, i: int) -> Option<int>
    decreases i + 1,
{
    if i < 0 {
        None
    } else if bracket_at(s, i) {
        Some(i)
    } else {
        last_bracket_upto(s, i - 1)
    }
}

/// The last `(N).` of a name moved, as `(N)`, to its end: `foo(1).jpg`
/// becomes `foo.jpg(1)`. The `(N)` cut is its last occurrence in the name.
pub open spec fn spec_bracket_swap(s: Seq<char>) -> Seq<char> {
    match last_bracket_upto(s, s.len() - 1) {
        Some(i) => {
            let bracket = s.subrange(i, i + digit_run(s, i + 1) + 2);
            match spec_last_occurrence(s, bracket) {
                Some(pos) => spec_cut(s, pos, bracket.len() as int) + bracket,
                None => s,
            }
        },
        None => s,
    }
}

fn digit_run_exec(s: &[char], k: usize) -> (r: usize)
    requires
        k <= s@.len(),
    ensures
        r == digit_run(s@, k as int),
        k + r <= s@.len(),
{
    let mut j: usize = k;
    while j < s.len() && '0' <= s[j] && s[j] <= '9'
        invariant
            k <= j <= s@.len(),
            digit_run(s@, k as int) == (j - k) + digit_run(s@, j as int),
        decreases s@.len() - j,
    {
        j += 1;
    }
    j - k
}

fn bracket_at_exec(s: &[char], i: usize) -> (r: bool)
    requires
        i < s@.len(),
    ensures
        r == bracket_at(s@, i as int),
{
    if s[i] != '(' {
        return false;
    }
    let n = digit_run_exec(s, i + 1);
    n > 0 && s.len() - i - 1 - n >= 2 && s[i + n + 1] == ')' && s[i + n + 2] == '.'
}

fn last_occurrence(s: &[char], needle: &[char]) -> (r: Option<usize>)
    ensures
        match r {
            Some(p) => spec_last_occurrence(s@, needle@) == Some(p as int)
                && occurs_at(s@, needle@, p as int),
            None => spec_last_occurrence(s@, needle@) is None,
        },
{
    crate::extras::last_occurrence(s, needle)
}

pub(crate) fn cut(s: &[char], pos: usize, n: usize) -> (r: Vec<char>)
    requires
        pos + n <= s@.len(),
    ensures
        r@ == spec_cut(s@, pos as int, n as int),
{
    let mut out: Vec<char> = Vec::new();
    let mut k: usize = 0;
    while k < s.len()
        invariant
            pos + n <= s@.len(),
            k <= s@.len(),
            out@ == spec_cut(s@, pos as int, n as int).subrange(0, out@.len() as int),
            out@.len() == if k <= pos { k as int } else if k <= pos + n { pos as int } else { k - n },
        decreases s@.len() - k,
    {
        if k < pos || k >= pos + n {
            out.push(s[k]);
            proof {
                let c = spec_cut(s@, pos as int, n as int);
                assert(out@ =~= c.subrange(0, out@.len() as int));
            }
        }
        k += 1;
    }
    assert(out@ =~= spec_cut(s@, pos as int, n as int));
    out
}

pub fn append_chars(r: &mut Vec<char>, s: &[char])
    ensures
        final(r)@ == old(r)@ + s@,
{
    let mut k: usize = 0;
    while k < s.len()
        invariant
            k <= s@.len(),
            r@ == old(r)@ + s@.subrange(0, k as int),
        decreases s@.len() - k,
    {
        r.push(s[k]);
        k += 1;
    }
}

/// Move the last `(N).` of a name to its end: `foo(1).jpg` gives `foo.jpg(1)`.
pub fn bracket_swap(filename: &[char]) -> (r: Vec<char>)
    ensures
        r@ == spec_bracket_swap(filename@),
{
    if filename.len() == 0 {
        return Vec::new();
    }
    let mut i: usize = filename.len() - 1;
    let mut found: Option<usize> = None;
    loop
        invariant_except_break
            found is None,
        invariant
            i < filename@.len(),
            last_bracket_upto(filename@, filename@.len() - 1) == last_bracket_upto(filename@, i as int),
        ensures
            match found {
                Some(j) => last_bracket_upto(filename@, filename@.len() - 1) == Some(j as int) && bracket_at(filename@, j as int),
                None => last_bracket_upto(filename@, filename@.len() - 1) is None,
            },
        decreases i,
    {
        if bracket_at_exec(filename, i) {
            found = Some(i);
            break;
        }
        if i == 0 {
            assert(last_bracket_upto(filename@, -1) is None);
            break;
        }
        i -= 1;
    }
    match found {
        None => copy_chars(filename),
        Some(j) => {
            let n = digit_run_exec(filename, j + 1);
            let bracket = copy_chars(vstd::slice::slice_subrange(filename, j, j + n + 2));
            match last_occurrence(filename, bracket.as_slice()) {
                Some(pos) => {
                    let mut out = cut(filename, pos, bracket.len());
                    append_chars(&mut out, bracket.as_slice());
                    out
                },
                None => copy_chars(filename),
            }
        },
    }
}

// ------------------------------------------------------------- extension

/// The name without its extension, as `Path::file_stem` gives it: up to the
/// last '.', unless that dot starts the name or there is none.
pub open spec fn spec_no_extension(s: Seq<char>) -> Seq<char> {
    match spec_last_occurrence(s, seq!['.']) {
        Some(p) => if p == 0 { s } else { s.subrange(0, p) },
        None => s,
    }
}

/// The name without its extension.
pub fn no_extension(filename: &[char]) -> (r: Vec<char>)
    ensures
        r@ == spec_no_extension(filename@),
{
    let dot: Vec<char> = vec!['.'];
    assert(dot@ =~= seq!['.']);
    match last_occurrence(filename, dot.as_slice()) {
        Some(p) => if p == 0 {
            copy_chars(filename)
        } else {
            copy_chars(vstd::slice::slice_subrange(filename, 0, p))
        },
        None => copy_chars(filename),
    }
}


// ------------------------------------------------------- "-word" suffix

/// Letters that an edited-marker word may hold: ASCII letters and the
/// Latin-1 letters `À-Ö`, `Ø-ö`, `ø-ÿ`.
pub open spec fn is_marker_letter(c: char) -> bool {
    ('A' <= c <= 'Z') || ('a' <= c <= 'z') || ('\u{C0}' <= c <= '\u{D6}')
        || ('\u{D8}' <= c <= '\u{F6}') || ('\u{F8}' <= c <= '\u{FF}')
}

/// Characters of an extension: ASCII letters, digits and '_'.
pub open spec fn is_ext_char(c: char) -> bool {
    ('A' <= c <= 'Z') || ('a' <= c <= 'z') || ('0' <= c <= '9') || c == '_'
}

/// Number of consecutive characters of `s` from `k` on that satisfy `f`.
pub open spec fn run_of(s: Seq<char>, k: int, f: spec_fn(char) -> bool) -> nat
    decreases s.len() - k,
{
    if k < 0 || k >= s.len() || !f(s[k]) {
        0
    } else {
        1 + run_of(s, k + 1, f)
    }
}

/// Where the extension's dot stands when `-<word>` or `-<word>(d)` starts
/// at `i` and is followed by `.<ext>` up to the end of the name.
pub open spec fn marker_dot(s: Seq<char>, i: int) -> Option<int> {
    let n = run_of(s, i + 1, |c: char| is_marker_letter(c));
    let after = i + 1 + n;
    let dot = if after + 3 <= s.len() && s[after] == '(' && is_digit(s[after + 1]) && s[after + 2] == ')' {
        after + 3
    } else {
        after
    };
    if 0 <= i < s.len() && s[i] == '-' && n > 0 && dot < s.len() && s[dot] == '.'
        && dot + 1 < s.len() && run_of(s, dot + 1, |c: char| is_ext_char(c)) == s.len() - dot - 1 {
        Some(dot)
    } else {
        None
    }
}

/// The leftmost position at or after `i` where a marker ends the name.
pub open spec fn first_marker(s: Seq<char>, i: int) -> Option<int>
    decreases s.len() - i,
{
    if i < 0 || i >= s.len() {
        None
    } else if marker_dot(s, i) is Some {
        Some(i)
    } else {
        first_marker(s, i + 1)
    }
}

/// The name with its trailing `-<word>` marker (before the extension) cut out.
pub open spec fn spec_remove_extra_regex(s: Seq<char>) -> Seq<char> {
    match first_marker(s, 0) {
        Some(i) => spec_cut(s, i, marker_dot(s, i)->0 - i),
        None => s,
    }
}

fn marker_letter(c: char) -> (r: bool)
    ensures
        r == is_marker_letter(c),
{
    ('A' <= c && c <= 'Z') || ('a' <= c && c <= 'z') || ('\u{C0}' <= c && c <= '\u{D6}')
        || ('\u{D8}' <= c && c <= '\u{F6}') || ('\u{F8}' <= c && c <= '\u{FF}')
}

fn ext_char(c: char) -> (r: bool)
    ensures
        r == is_ext_char(c),
{
    ('A' <= c && c <= 'Z') || ('a' <= c && c <= 'z') || ('0' <= c && c <= '9') || c == '_'
}

fn letter_run(s: &[char], k: usize) -> (r: usize)
    requires
        k <= s@.len(),
    ensures
        r == run_of(s@, k as int, |c: char| is_marker_letter(c)),
        k + r <= s@.len(),
{
    let ghost f = |c: char| is_marker_letter(c);
    let mut j: usize = k;
    while j < s.len() && marker_letter(s[j])
        invariant
            k <= j <= s@.len(),
            f == |c: char| is_marker_letter(c),
            run_of(s@, k as int, f) == (j - k) + run_of(s@, j as int, f),
        decreases s@.len() - j,
    {
        j += 1;
    }
    j - k
}

fn ext_run(s: &[char], k: usize) -> (r: usize)
    requires
        k <= s@.len(),
    ensures
        r == run_of(s@, k as int, |c: char| is_ext_char(c)),
        k + r <= s@.len(),
{
    let ghost f = |c: char| is_ext_char(c);
    let mut j: usize = k;
    while j < s.len() && ext_char(s[j])
        invariant
            k <= j <= s@.len(),
            f == |c: char| is_ext_char(c),
            run_of(s@, k as int, f) == (j - k) + run_of(s@, j as int, f),
        decreases s@.len() - j,
    {
        j += 1;
    }
    j - k
}

fn marker_dot_exec(s: &[char], i: usize) -> (r: Option<usize>)
    requires
        i < s@.len(),
    ensures
        match r {
            Some(d) => marker_dot(s@, i as int) == Some(d as int),
            None => marker_dot(s@, i as int) is None,
        },
{
    if s[i] != '-' {
        return None;
    }
    let n = letter_run(s, i + 1);
    let after = i + 1 + n;
    let dot = if s.len() - after >= 3 && s[after] == '(' && '0' <= s[after + 1] && s[after + 1] <= '9'
        && s[after + 2] == ')' {
        after + 3
    } else {
        after
    };
    if n > 0 && dot < s.len() && s[dot] == '.' && dot + 1 < s.len() && ext_run(s, dot + 1) == s.len() - dot - 1 {
        Some(dot)
    } else {
        None
    }
}

/// Remove a trailing `-<word>` marker (as `-edited` in any language) that
/// stands right before the extension.
pub fn remove_extra_regex(filename: &[char]) -> (r: Vec<char>)
    ensures
        r@ == spec_remove_extra_regex(filename@),
{
    let mut i: usize = 0;
    while i < filename.len()
        invariant
            i <= filename@.len(),
            first_marker(filename@, 0) == first_marker(filename@, i as int),
        decreases filename@.len() - i,
    {
        if let Some(dot) = marker_dot_exec(filename, i) {
            return cut(filename, i, dot - i);
        }
        i += 1;
    }
    copy_chars(filename)
}

// ------------------------------------------------------------ "(d)." runs

/// Every `(d).` (one digit) replaced by `.`, scanning from the left.
pub open spec fn spec_remove_digit(s: Seq<char>) -> Seq<char>
    decreases s.len(),
{
    if s.len() >= 4 && s[0] == '(' && is_digit(s[1]) && s[2] == ')' && s[3] == '.' {
        seq!['.'] + spec_remove_digit(s.subrange(4, s.len() as int))
    } else if s.len() == 0 {
        s
    } else {
        seq![s[0]] + spec_remove_digit(s.drop_first())
    }
}

/// Replace every `(d).` by `.`.
pub fn remove_digit(filename: &[char]) -> (r: Vec<char>)
    ensures
        r@ == spec_remove_digit(filename@),
{
    let mut out: Vec<char> = Vec::new();
    let mut i: usize = 0;
    assert(filename@.subrange(0, filename@.len() as int) =~= filename@);
    assert(out@ + spec_remove_digit(filename@) =~= spec_remove_digit(filename@));
    while i < filename.len()
        invariant
            i <= filename@.len(),
            out@ + spec_remove_digit(filename@.subrange(i as int, filename@.len() as int)) == spec_remove_digit(filename@),
        decreases filename@.len() - i,
    {
        let ghost rest = filename@.subrange(i as int, filename@.len() as int);
        if filename.len() - i >= 4 && filename[i] == '(' && '0' <= filename[i + 1] && filename[i + 1] <= '9'
            && filename[i + 2] == ')' && filename[i + 3] == '.' {
            out.push('.');
            proof {
                assert(rest.subrange(4, rest.len() as int) =~= filename@.subrange(i + 4, filename@.len() as int));
                assert(out@ + spec_remove_digit(filename@.subrange(i + 4, filename@.len() as int))
                    =~= old_out_plus(out@.drop_last(), rest));
            }
            i += 4;
        } else {
            out.push(filename[i]);
            proof {
                assert(rest.drop_first() =~= filename@.subrange(i + 1, filename@.len() as int));
                assert(out@ + spec_remove_digit(filename@.subrange(i + 1, filename@.len() as int))
                    =~= old_out_plus(out@.drop_last(), rest));
            }
            i += 1;
        }
    }
    assert(filename@.subrange(filename@.len() as int, filename@.len() as int) =~= Seq::<char>::empty());
    assert(out@ + Seq::<char>::empty() =~= out@);
    out
}

spec fn old_out_plus(out: Seq<char>, rest: Seq<char>) -> Seq<char> {
    out + spec_remove_digit(rest)
}


// ------------------------------------------------------------ date index

/// The date recorded under `key` in parallel key and date lists: the first
/// entry at or after `i` whose key matches.
pub open spec fn index_lookup(keys: Seq<Seq<char>>, dates: Seq<LocalDateTime>, key: Seq<char>, i: int) -> Option<LocalDateTime>
    decreases keys.len() - i,
{
    if i < 0 || i >= keys.len() {
        None
    } else if keys[i] == key {
        Some(dates[i])
    } else {
        index_lookup(keys, dates, key, i + 1)
    }
}

proof fn lemma_lookup_push(keys: Seq<Seq<char>>, dates: Seq<LocalDateTime>, k: Seq<char>, d: LocalDateTime, key: Seq<char>, i: int)
    requires
        0 <= i <= keys.len(),
        keys.len() == dates.len(),
    ensures
        index_lookup(keys.push(k), dates.push(d), key, i) == match index_lookup(keys, dates, key, i) {
            Some(x) => Some(x),
            None => if key == k { Some(d) } else { None },
        },
    decreases keys.len() - i,
{
    assert(keys.push(k)[i] == if i < keys.len() { keys[i] } else { k });
    if i < keys.len() {
        lemma_lookup_push(keys, dates, k, d, key, i + 1);
    } else {
        assert(index_lookup(keys.push(k), dates.push(d), key, i + 1) is None);
    }
}

proof fn lemma_lookup_first(keys: Seq<Seq<char>>, dates: Seq<LocalDateTime>, key: Seq<char>, i: int, k: int)
    requires
        0 <= i <= k < keys.len(),
        keys[k] == key,
        forall|j: int| i <= j < k ==> keys[j] != key,
    ensures
        index_lookup(keys, dates, key, i) == Some(dates[k]),
    decreases k - i,
{
    if i < k {
        lemma_lookup_first(keys, dates, key, i + 1, k);
    }
}

proof fn lemma_lookup_none(keys: Seq<Seq<char>>, dates: Seq<LocalDateTime>, key: Seq<char>, i: int)
    requires
        0 <= i <= keys.len(),
        forall|j: int| i <= j < keys.len() ==> keys[j] != key,
    ensures
        index_lookup(keys, dates, key, i) is None,
    decreases keys.len() - i,
{
    if i < keys.len() {
        lemma_lookup_none(keys, dates, key, i + 1);
    }
}

/// Sidecar dates by media path inside the archive. The first date
/// registered for a path is the one kept.
pub struct JsonDateIndex {
    keys: PathSet,
    dates: Vec<LocalDateTime>,
}

impl JsonDateIndex {
    /// The keys, as characters.
    pub closed spec fn key_views(&self) -> Seq<Seq<char>> {
        self.keys.contents()
    }

    /// Keys and dates pair up one to one.
    pub closed spec fn wf(&self) -> bool {
        self.keys.wf() && self.keys.contents().len() == self.dates@.len()
    }

    /// The date registered for a media path.
    pub closed spec fn spec_get(&self, key: Seq<char>) -> Option<LocalDateTime> {
        index_lookup(self.key_views(), self.dates@, key, 0)
    }

    /// An index without entries.
    pub fn new() -> (r: Self)
        ensures
            r.wf(),
            forall|k: Seq<char>| r.spec_get(k) is None,
    {
        JsonDateIndex { keys: PathSet::new(), dates: Vec::new() }
    }

    /// Number of registered paths.
    pub fn len(&self) -> (r: usize)
        requires
            self.wf(),
        ensures
            r == self.key_views().len(),
    {
        self.dates.len()
    }

    /// The date registered for `key`, if any.
    pub fn get(&self, key: &[char]) -> (r: Option<LocalDateTime>)
        requires
            self.wf(),
        ensures
            r == self.spec_get(key@),
    {
        match self.keys.find_first(key) {
            Some(k) => {
                proof {
                    lemma_lookup_first(self.key_views(), self.dates@, key@, 0, k as int);
                }
                Some(self.dates[k])
            },
            None => {
                proof {
                    assert forall|j: int| 0 <= j < self.key_views().len() implies self.key_views()[j] != key@ by {
                        if self.key_views()[j] == key@ {
                            assert(self.keys.contents().contains(key@));
                        }
                    }
                    lemma_lookup_none(self.key_views(), self.dates@, key@, 0);
                }
                None
            },
        }
    }

    /// Register `date` under `key` unless the key already has a date.
    pub fn insert_first(&mut self, key: &[char], date: LocalDateTime)
        requires
            old(self).wf(),
        ensures
            final(self).wf(),
            forall|k: Seq<char>| #[trigger] final(self).spec_get(k) == match old(self).spec_get(k) {
                Some(x) => Some(x),
                None => if k == key@ { Some(date) } else { None },
            },
    {
        if self.get(key).is_some() {
            return;
        }
        let ghost keys0 = self.key_views();
        let ghost dates0 = self.dates@;
        self.keys.insert(key);
        self.dates.push(date);
        proof {
            assert(self.key_views() == keys0.push(key@));
            assert forall|k: Seq<char>| #[trigger] self.spec_get(k) == match index_lookup(keys0, dates0, k, 0) {
                Some(x) => Some(x),
                None => if k == key@ { Some(date) } else { None },
            } by {
                lemma_lookup_push(keys0, dates0, key@, date, k, 0);
            }
        }
    }
}

// --------------------------------------------------------- sidecar dates

/// The integer that `str::parse::<i64>` reads: an optional sign, then one
/// or more ASCII digits, within the range of `i64`.
pub open spec fn spec_parse_i64(s: Seq<char>) -> Option<i64> {
    let digits = unsigned_part(s);
    if digits.len() == 0 || !all_digits(digits) {
        None
    } else {
        let v: int = if s[0] == '-' { -decimal_value(digits) } else { decimal_value(digits) };
        if i64::MIN <= v <= i64::MAX { Some(v as i64) } else { None }
    }
}

/// The text after a leading sign, if any.
pub open spec fn unsigned_part(s: Seq<char>) -> Seq<char> {
    if s.len() > 0 && (s[0] == '-' || s[0] == '+') {
        s.subrange(1, s.len() as int)
    } else {
        s
    }
}

/// Every character is an ASCII digit.
pub open spec fn all_digits(s: Seq<char>) -> bool {
    forall|i: int| 0 <= i < s.len() ==> is_digit(#[trigger] s[i])
}

/// The value of a run of decimal digits.
pub open spec fn decimal_value(s: Seq<char>) -> int
    decreases s.len(),
{
    if s.len() == 0 {
        0
    } else {
        decimal_value(s.drop_last()) * 10 + (s.last() as int - '0' as int)
    }
}

proof fn lemma_decimal_grows(s: Seq<char>, i: int, j: int)
    requires
        0 <= i <= j <= s.len(),
        forall|k: int| 0 <= k < s.len() ==> is_digit(#[trigger] s[k]),
    ensures
        0 <= decimal_value(s.subrange(0, i)) <= decimal_value(s.subrange(0, j)),
    decreases j - i,
{
    if i < j {
        lemma_decimal_grows(s, i, j - 1);
        assert(s.subrange(0, j).drop_last() =~= s.subrange(0, j - 1));
    } else {
        lemma_decimal_nonneg(s.subrange(0, i));
    }
}

proof fn lemma_decimal_nonneg(s: Seq<char>)
    requires
        forall|k: int| 0 <= k < s.len() ==> is_digit(#[trigger] s[k]),
    ensures
        decimal_value(s) >= 0,
    decreases s.len(),
{
    if s.len() > 0 {
        lemma_decimal_nonneg(s.drop_last());
    }
}

/// Read a decimal integer as `str::parse::<i64>` does.
pub fn parse_i64(text: &str) -> (r: Option<i64>)
    ensures
        r == spec_parse_i64(text@),
{
    let s = chars_of(text);
    let neg = s.len() > 0 && s[0] == '-';
    let start: usize = if s.len() > 0 && (s[0] == '-' || s[0] == '+') { 1 } else { 0 };
    let ghost digits = s@.subrange(start as int, s@.len() as int);
    assert(digits == unsigned_part(text@));
    if start >= s.len() {
        return None;
    }
    let mut k: usize = start;
    while k < s.len()
        invariant
            s@ == text@,
            start <= k <= s@.len(),
            digits == s@.subrange(start as int, s@.len() as int),
            start == if s@.len() > 0 && (s@[0] == '-' || s@[0] == '+') { 1usize } else { 0usize },
            forall|j: int| start <= j < k ==> is_digit(#[trigger] s@[j]),
        decreases s@.len() - k,
    {
        if !('0' <= s[k] && s[k] <= '9') {
            assert(!is_digit(digits[k - start]));
            assert(!all_digits(digits));
            return None;
        }
        k += 1;
    }
    assert forall|i: int| 0 <= i < digits.len() implies is_digit(#[trigger] digits[i]) by {
        assert(digits[i] == s@[start + i]);
    }
    let limit: i128 = if neg { 9223372036854775808 } else { 9223372036854775807 };
    let mut v: i128 = 0;
    let mut k: usize = start;
    while k < s.len()
        invariant
            s@ == text@,
            neg == (s@.len() > 0 && s@[0] == '-'),
            start == if s@.len() > 0 && (s@[0] == '-' || s@[0] == '+') { 1usize } else { 0usize },
            start <= k <= s@.len(),
            digits == s@.subrange(start as int, s@.len() as int),
            forall|i: int| 0 <= i < digits.len() ==> is_digit(#[trigger] digits[i]),
            v == decimal_value(digits.subrange(0, k - start)),
            0 <= v <= limit,
            limit == if neg { 9223372036854775808i128 } else { 9223372036854775807i128 },
        decreases s@.len() - k,
    {
        proof {
            assert(digits.subrange(0, k + 1 - start).drop_last() =~= digits.subrange(0, k - start));
            assert(digits[k - start] == s@[k as int]);
        }
        v = v * 10 + (s[k] as u32 - '0' as u32) as i128;
        assert(v == decimal_value(digits.subrange(0, k + 1 - start)));
        if v > limit {
            proof {
                lemma_decimal_grows(digits, k + 1 - start, digits.len() as int);
                assert(digits.subrange(0, digits.len() as int) =~= digits);
                assert(decimal_value(digits) > limit);
                assert(digits == unsigned_part(text@));
                assert(all_digits(digits));
                assert(digits.len() > 0);
            }
            return None;
        }
        k += 1;
    }
    assert(digits.subrange(0, digits.len() as int) =~= digits);
    if neg {
        Some((-v) as i64)
    } else {
        Some(v as i64)
    }
}

/// The epoch seconds of a sidecar's `photoTakenTime.timestamp`, given as
/// text or as an integer: text that is not empty is read as a decimal
/// integer; otherwise the integer form is taken.
pub open spec fn spec_timestamp_of(text: Option<Seq<char>>, number: Option<i64>) -> Option<i64> {
    match text {
        Some(t) => if t.len() > 0 { spec_parse_i64(t) } else { number },
        None => number,
    }
}

/// The epoch seconds of a sidecar's timestamp field, from its text or
/// integer form.
pub fn timestamp_of(text: Option<&str>, number: Option<i64>) -> (r: Option<i64>)
    ensures
        r == spec_timestamp_of(match text { Some(t) => Some(t@), None => None }, number),
{
    match text {
        Some(t) => if !t.is_empty() {
            parse_i64(t)
        } else {
            number
        },
        None => number,
    }
}


#[verifier::external_type_specification]
#[verifier::external_body]
pub struct ExJsonValue(serde_json::Value);

/// Relies on `serde_json::from_slice`: the document, when the bytes hold
/// valid JSON.
#[verifier::external_body]
fn json_from_slice(bytes: &[u8]) -> (r: Option<serde_json::Value>) {
    serde_json::from_slice(bytes).ok()
}

/// Relies on `serde_json::Value::get`: the member named `key` of an object.
#[verifier::external_body]
fn json_member<'a>(v: &'a serde_json::Value, key: &str) -> (r: Option<&'a serde_json::Value>) {
    v.get(key)
}

/// Relies on `serde_json::Value::as_str`: the text of a JSON string.
pub assume_specification[ serde_json::Value::as_str ](v: &serde_json::Value) -> Option<&str>;

/// Relies on `serde_json::Value::as_i64`: the value of a JSON integer that
/// fits `i64`.
pub assume_specification[ serde_json::Value::as_i64 ](v: &serde_json::Value) -> Option<i64>;

/// Parse Google's JSON sidecar and read `photoTakenTime.timestamp` (text or
/// integer, UNIX seconds) as the host's local wall-clock time.
pub fn parse_google_json(json_bytes: &[u8]) -> (r: Option<LocalDateTime>)
    ensures
        r is Some ==> r->0.wf(),
{
    let data = json_from_slice(json_bytes)?;
    let taken = json_member(&data, "photoTakenTime")?;
    let ts = json_member(taken, "timestamp")?;
    let epoch = timestamp_of(ts.as_str(), ts.as_i64())?;
    if epoch < crate::date::MIN_EPOCH || epoch > crate::date::MAX_EPOCH {
        return None;
    }
    crate::date::local_from_epoch(epoch)
}

// --------------------------------------------------- keys and lookups

/// Number of filename variants under which a media file seeks its sidecar.
pub const N_VARIANTS: usize = 7;

/// Variant `k` of a media filename: itself, shortened to Takeout's sidecar
/// budget, with its bracket swapped, without its extra suffix, without its
/// extension, without a trailing `-<word>` marker, with `(d).` collapsed.
pub open spec fn spec_variant(name: Seq<char>, k: int) -> Seq<char> {
    if k == 0 {
        name
    } else if k == 1 {
        spec_shorten_name(name)
    } else if k == 2 {
        spec_bracket_swap(name)
    } else if k == 3 {
        spec_remove_extra(name)
    } else if k == 4 {
        spec_no_extension(name)
    } else if k == 5 {
        spec_remove_extra_regex(name)
    } else {
        spec_remove_digit(name)
    }
}

/// The directory part of an archive path: up to its last '/'; empty when it
/// has none.
pub open spec fn spec_parent(path: Seq<char>) -> Seq<char> {
    match spec_last_occurrence(path, seq!['/']) {
        Some(p) => path.subrange(0, p),
        None => Seq::<char>::empty(),
    }
}

/// A name joined under a directory, with '/' between when the directory is
/// not empty.
pub open spec fn spec_join(dir: Seq<char>, name: Seq<char>) -> Seq<char> {
    if dir.len() == 0 { name } else { dir + seq!['/'] + name }
}

/// The index key that variant `k` of `filename` probes, beside `zip_path`.
pub open spec fn spec_variant_key(zip_path: Seq<char>, filename: Seq<char>, k: int) -> Seq<char> {
    spec_join(spec_parent(zip_path), spec_variant(filename, k))
}

/// The date of the first variant, from `k` on, that the index holds.
pub open spec fn spec_find_from(index: JsonDateIndex, zip_path: Seq<char>, filename: Seq<char>, k: int) -> Option<LocalDateTime>
    decreases N_VARIANTS - k,
{
    if k < 0 || k >= N_VARIANTS {
        None
    } else {
        match index.spec_get(spec_variant_key(zip_path, filename, k)) {
            Some(d) => Some(d),
            None => spec_find_from(index, zip_path, filename, k + 1),
        }
    }
}

/// Variant `k` of a filename.
fn variant(name: &str, k: usize) -> (r: Vec<char>)
    requires
        k < N_VARIANTS,
    ensures
        r@ == spec_variant(name@, k as int),
{
    let v = chars_of(name);
    if k == 0 {
        v
    } else if k == 1 {
        shorten_name(v.as_slice())
    } else if k == 2 {
        bracket_swap(v.as_slice())
    } else if k == 3 {
        chars_of(remove_extra(name).as_str())
    } else if k == 4 {
        no_extension(v.as_slice())
    } else if k == 5 {
        remove_extra_regex(v.as_slice())
    } else {
        remove_digit(v.as_slice())
    }
}

fn parent(path: &[char]) -> (r: Vec<char>)
    ensures
        r@ == spec_parent(path@),
{
    let slash: Vec<char> = vec!['/'];
    assert(slash@ =~= seq!['/']);
    match last_occurrence(path, slash.as_slice()) {
        Some(p) => copy_chars(vstd::slice::slice_subrange(path, 0, p)),
        None => Vec::new(),
    }
}

fn join(dir: &[char], name: &[char]) -> (r: Vec<char>)
    ensures
        r@ == spec_join(dir@, name@),
{
    if dir.len() == 0 {
        return copy_chars(name);
    }
    let mut r = copy_chars(dir);
    r.push('/');
    append_chars(&mut r, name);
    r
}

/// Find the sidecar date of a media file: the first of its filename
/// variants, joined under its directory, that the index holds. The order of
/// the variants is fixed, so `tryhard` changes nothing.
pub fn find_json_date(
    zip_path: &str,
    filename: &str,
    json_dates: &JsonDateIndex,
    tryhard: bool,
) -> (r: Option<LocalDateTime>)
    requires
        json_dates.wf(),
    ensures
        r == spec_find_from(*json_dates, zip_path@, filename@, 0),
{
    let zp = chars_of(zip_path);
    let dir = parent(zp.as_slice());
    let mut k: usize = 0;
    while k < N_VARIANTS
        invariant
            json_dates.wf(),
            dir@ == spec_parent(zip_path@),
            k <= N_VARIANTS,
            spec_find_from(*json_dates, zip_path@, filename@, 0) == spec_find_from(*json_dates, zip_path@, filename@, k as int),
        decreases N_VARIANTS - k,
    {
        let name = variant(filename, k);
        let key = join(dir.as_slice(), name.as_slice());
        if let Some(d) = json_dates.get(key.as_slice()) {
            return Some(d);
        }
        k += 1;
    }
    None
}

/// The media path a sidecar path stands for: the path without `.json`.
pub open spec fn spec_media_key(json_path: Seq<char>) -> Option<Seq<char>> {
    if crate::text::ends_with(json_path, ".json"@) {
        Some(json_path.subrange(0, json_path.len() - 5))
    } else {
        None
    }
}

/// Register a sidecar's date under the media path it stands for; a path
/// that already has a date keeps it.
pub fn register_json_date(json_path: &str, date: LocalDateTime, json_dates: &mut JsonDateIndex)
    requires
        old(json_dates).wf(),
    ensures
        final(json_dates).wf(),
        forall|k: Seq<char>| #[trigger] final(json_dates).spec_get(k) == match old(json_dates).spec_get(k) {
            Some(x) => Some(x),
            None => if spec_media_key(json_path@) == Some(k) { Some(date) } else { None },
        },
{
    let p = chars_of(json_path);
    let suffix = chars_of(".json");
    proof {
        reveal_strlit(".json");
    }
    if crate::text::ends_with_exec(p.as_slice(), suffix.as_slice()) {
        let key = copy_chars(vstd::slice::slice_subrange(p.as_slice(), 0, p.len() - 5));
        json_dates.insert_first(key.as_slice(), date);
    }
}

/// A sidecar read from an archive: its path and its bytes.
pub struct JsonEntry {
    pub path: String,
    pub bytes: Vec<u8>,
}

/// Build the index of sidecar dates from the sidecars of an archive, in
/// order; a sidecar without a readable date contributes nothing.
pub fn build_json_date_map(json_entries: &[JsonEntry]) -> (r: JsonDateIndex)
    ensures
        r.wf(),
        forall|k: Seq<char>| (#[trigger] r.spec_get(k)) is Some ==> r.spec_get(k)->0.wf()
            && exists|i: int| 0 <= i < json_entries@.len() && spec_media_key(json_entries@[i].path@) == Some(k),
{
    let mut index = JsonDateIndex::new();
    let mut i: usize = 0;
    while i < json_entries.len()
        invariant
            i <= json_entries@.len(),
            index.wf(),
            forall|k: Seq<char>| (#[trigger] index.spec_get(k)) is Some ==> index.spec_get(k)->0.wf()
                && exists|j: int| 0 <= j < i && spec_media_key(json_entries@[j].path@) == Some(k),
        decreases json_entries@.len() - i,
    {
        let e = &json_entries[i];
        if let Some(d) = parse_google_json(e.bytes.as_slice()) {
            register_json_date(e.path.as_str(), d, &mut index);
        }
        i += 1;
    }
    index
}

/// A media file finds its sidecar's date: when the sidecar's date is
/// registered under the key that variant `k` of the media's name forms
/// beside its archive path, and no earlier variant's key is registered,
/// the lookup returns that date.
pub proof fn lemma_lookup_finds_sidecar(
    index: JsonDateIndex,
    zip_path: Seq<char>,
    filename: Seq<char>,
    k: int,
    date: LocalDateTime,
)
    requires
        0 <= k < N_VARIANTS,
        index.spec_get(spec_variant_key(zip_path, filename, k)) == Some(date),
        forall|j: int| 0 <= j < k ==> index.spec_get(#[trigger] spec_variant_key(zip_path, filename, j)) is None,
    ensures
        spec_find_from(index, zip_path, filename, 0) == Some(date),
{
    lemma_find_skips(index, zip_path, filename, 0, k, date);
}

/// A registered sidecar is found: after registering the sidecar at
/// `json_path` with `date` (as `register_json_date` does, on an index that had
/// no date for its media path), a media file whose variant `k` forms that
/// media path beside `zip_path`, with no earlier variant registered, gets
/// `date` from the lookup.
pub proof fn lemma_registered_sidecar_found(
    before: JsonDateIndex,
    after: JsonDateIndex,
    json_path: Seq<char>,
    date: LocalDateTime,
    zip_path: Seq<char>,
    filename: Seq<char>,
    k: int,
)
    requires
        0 <= k < N_VARIANTS,
        forall|key: Seq<char>| #[trigger] after.spec_get(key) == match before.spec_get(key) {
            Some(x) => Some(x),
            None => if spec_media_key(json_path) == Some(key) { Some(date) } else { None },
        },
        spec_media_key(json_path) == Some(spec_variant_key(zip_path, filename, k)),
        before.spec_get(spec_variant_key(zip_path, filename, k)) is None,
        forall|j: int| 0 <= j < k ==> after.spec_get(#[trigger] spec_variant_key(zip_path, filename, j)) is None,
    ensures
        spec_find_from(after, zip_path, filename, 0) == Some(date),
{
    assert(after.spec_get(spec_variant_key(zip_path, filename, k)) == Some(date));
    lemma_lookup_finds_sidecar(after, zip_path, filename, k, date);
}

proof fn lemma_find_skips(
    index: JsonDateIndex,
    zip_path: Seq<char>,
    filename: Seq<char>,
    i: int,
    k: int,
    date: LocalDateTime,
)
    requires
        0 <= i <= k < N_VARIANTS,
        index.spec_get(spec_variant_key(zip_path, filename, k)) == Some(date),
        forall|j: int| 0 <= j < k ==> index.spec_get(#[trigger] spec_variant_key(zip_path, filename, j)) is None,
    ensures
        spec_find_from(index, zip_path, filename, i) == Some(date),
    decreases k - i,
{
    if i < k {
        lemma_find_skips(index, zip_path, filename, i + 1, k, date);
    }
}

} // verus!
