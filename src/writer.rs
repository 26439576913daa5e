//! Destination paths: the dated folder of each media file, with a numbered
//! name where another file already took the plain one.
use vstd::prelude::*;
use crate::date::LocalDateTime;
use crate::extras::spec_last_occurrence;
use crate::media::Media;
use crate::naming::{padded, spec_decimal, spec_year_text, year_text, zero_pad, decimal, lemma_decimal_injective};
use vstd::set_lib::{lemma_len_subset, lemma_len_union};
use crate::sidecar::spec_no_extension;
use crate::pathset::PathSet;
use crate::text::{chars_of, copy_chars, starts_with, string_of};
use crate::sidecar::append_chars;

verus! {

/// A file recorded as written by an earlier run.
pub struct WrittenFile {
    pub zip_path: String,
    pub output_path: String,
    pub size: u64,
}

/// A file found in the output directory before writing, with its size.
pub struct ExistingFile {
    pub path: String,
    pub size: u64,
}

/// The output path an earlier run recorded for an archive path.
pub open spec fn spec_saved(written: Seq<WrittenFile>, zip_path: Seq<char>) -> Option<Seq<char>>
    decreases written.len(),
{
    if written.len() == 0 {
        None
    } else if written[0].zip_path@ == zip_path {
        Some(written[0].output_path@)
    } else {
        spec_saved(written.drop_first(), zip_path)
    }
}

/// The size of an existing output file.
pub open spec fn spec_existing_size(existing: Seq<ExistingFile>, path: Seq<char>) -> Option<u64>
    decreases existing.len(),
{
    if existing.len() == 0 {
        None
    } else if existing[0].path@ == path {
        Some(existing[0].size)
    } else {
        spec_existing_size(existing.drop_first(), path)
    }
}

/// `a/b`.
pub open spec fn slash_join(a: Seq<char>, b: Seq<char>) -> Seq<char> {
    a + seq!['/'] + b
}

/// The folder a media file goes to: `<out>/YYYY/MM` when splitting by date
/// and dated, `<out>/date-unknown` when splitting and undated, else `<out>`.
pub open spec fn spec_sub_dir(out: Seq<char>, divide: bool, date: Option<LocalDateTime>) -> Seq<char> {
    if divide {
        match date {
            Some(d) => slash_join(slash_join(out, spec_year_text(d.year as int)), zero_pad(spec_decimal(d.month as nat), 2)),
            None => slash_join(out, "date-unknown"@),
        }
    } else {
        out
    }
}

/// The extension of a name, as `Path::extension` gives it (empty when none).
pub open spec fn spec_extension(name: Seq<char>) -> Seq<char> {
    match spec_last_occurrence(name, seq!['.']) {
        Some(p) => if p == 0 { Seq::empty() } else { name.subrange(p + 1, name.len() as int) },
        None => Seq::empty(),
    }
}

/// The name numbered `n`: `stem(n).ext`, or `stem(n)` without extension.
pub open spec fn spec_numbered(name: Seq<char>, n: nat) -> Seq<char> {
    let ext = spec_extension(name);
    let core = spec_no_extension(name) + seq!['('] + spec_decimal(n) + seq![')'];
    if ext.len() == 0 { core } else { core + seq!['.'] + ext }
}

/// `dir/stem(n).ext`: the name numbered `n` in `dir`.
pub open spec fn spec_candidate(dir: Seq<char>, name: Seq<char>, n: nat) -> Seq<char> {
    slash_join(dir, spec_numbered(name, n))
}

/// Different numbers give different candidate paths.
pub proof fn lemma_candidate_injective(dir: Seq<char>, name: Seq<char>, a: nat, b: nat)
    requires
        spec_candidate(dir, name, a) == spec_candidate(dir, name, b),
    ensures
        a == b,
{
    let pa = spec_numbered(name, a);
    let pb = spec_numbered(name, b);
    let pre = dir + seq!['/'];
    assert(spec_candidate(dir, name, a).subrange(pre.len() as int, spec_candidate(dir, name, a).len() as int) =~= pa);
    assert(spec_candidate(dir, name, b).subrange(pre.len() as int, spec_candidate(dir, name, b).len() as int) =~= pb);
    let stem = spec_no_extension(name);
    let ext = spec_extension(name);
    let da = spec_decimal(a);
    let db = spec_decimal(b);
    let tail: Seq<char> = if ext.len() == 0 { Seq::empty() } else { seq!['.'] + ext };
    assert(pa =~= stem + seq!['('] + da + seq![')'] + tail);
    assert(pb =~= stem + seq!['('] + db + seq![')'] + tail);
    assert(da.len() == db.len());
    let lo: int = stem.len() as int + 1;
    assert(pa.subrange(lo, lo + da.len()) =~= da);
    assert(pb.subrange(lo, lo + db.len()) =~= db);
    lemma_decimal_injective(a, b);
}

/// The candidates numbered 1 through `m`.
pub open spec fn candidates_upto(dir: Seq<char>, name: Seq<char>, m: nat) -> Set<Seq<char>>
    decreases m,
{
    if m == 0 {
        Set::empty()
    } else {
        candidates_upto(dir, name, (m - 1) as nat).insert(spec_candidate(dir, name, m))
    }
}

proof fn lemma_candidates_upto(dir: Seq<char>, name: Seq<char>, m: nat)
    ensures
        candidates_upto(dir, name, m).finite(),
        candidates_upto(dir, name, m).len() == m,
        forall|p: Seq<char>| #[trigger] candidates_upto(dir, name, m).contains(p)
            ==> exists|n: nat| 1 <= n <= m && p == spec_candidate(dir, name, n),
    decreases m,
{
    if m > 0 {
        let prev = candidates_upto(dir, name, (m - 1) as nat);
        lemma_candidates_upto(dir, name, (m - 1) as nat);
        if prev.contains(spec_candidate(dir, name, m)) {
            let n = choose|n: nat| 1 <= n <= m - 1 && spec_candidate(dir, name, m) == spec_candidate(dir, name, n);
            lemma_candidate_injective(dir, name, m, n);
        }
    }
}

/// When every name numbered 1 through `m` of one file lies among the paths
/// `a` and `b`, those lists hold at least `m` paths.
pub proof fn lemma_taken_bound(dir: Seq<char>, name: Seq<char>, m: nat, a: Seq<Seq<char>>, b: Seq<Seq<char>>)
    requires
        forall|n: nat| 1 <= n <= m ==> a.contains(#[trigger] spec_candidate(dir, name, n)) || b.contains(spec_candidate(dir, name, n)),
    ensures
        a.len() + b.len() >= m,
{
    let c = candidates_upto(dir, name, m);
    let t = a.to_set().union(b.to_set());
    lemma_candidates_upto(dir, name, m);
    assert forall|p: Seq<char>| c.contains(p) implies t.contains(p) by {
        let n = choose|n: nat| 1 <= n <= m && p == spec_candidate(dir, name, n);
        assert(a.contains(spec_candidate(dir, name, n)) || b.contains(spec_candidate(dir, name, n)));
    }
    a.lemma_cardinality_of_set();
    b.lemma_cardinality_of_set();
    lemma_len_union(a.to_set(), b.to_set());
    lemma_len_subset(c, t);
}

/// What a plan says of media file `j`: a file recorded by an earlier run
/// keeps its path and is skipped; any other goes to its folder under its own
/// name or a numbered one, and is skipped only when its own name already
/// holds a file of its size.
pub open spec fn assignment_ok(
    m: Media,
    out: Seq<char>,
    divide: bool,
    written: Seq<WrittenFile>,
    existing: Seq<ExistingFile>,
    dest: Seq<char>,
    skip: bool,
) -> bool {
    match spec_saved(written, m.zip_path@) {
        Some(p) => dest == p && skip,
        None => {
            let sub = spec_sub_dir(out, divide, m.date);
            let base = slash_join(sub, m.filename@);
            &&& (dest == base || exists|n: nat| n >= 1 && dest == #[trigger] slash_join(sub, spec_numbered(m.filename@, n)))
            &&& (dest != base ==> spec_existing_size(existing, dest) is None)
            &&& (dest == base ==> spec_existing_size(existing, dest) is None || spec_existing_size(existing, dest) == Some(m.size))
            &&& (skip <==> (dest == base && spec_existing_size(existing, dest) == Some(m.size)))
        },
    }
}

/// Where each media file goes, and which ones need no writing.
pub struct WritePlan {
    pub assignments: Vec<String>,
    pub skip: Vec<bool>,
    /// Folders to create, each once.
    pub dirs: Vec<String>,
}

/// Why no plan could be made.
#[derive(Debug, PartialEq, Eq, Structural)]
pub enum PlanError {
    /// Every numbered name of some file was taken.
    NamesExhausted,
}

/// Result of the write stage.
pub struct WriteResult {
    pub assignments: Vec<String>,
    pub files_skipped: u64,
}

pub(crate) fn concat3(a: &[char], b: char, c: &[char]) -> (r: Vec<char>)
    ensures
        r@ == a@ + seq![b] + c@,
{
    let mut r: Vec<char> = Vec::new();
    let mut k: usize = 0;
    while k < a.len()
        invariant
            k <= a@.len(),
            r@ == a@.subrange(0, k as int),
        decreases a@.len() - k,
    {
        r.push(a[k]);
        k += 1;
    }
    r.push(b);
    let mut k: usize = 0;
    while k < c.len()
        invariant
            k <= c@.len(),
            r@ == a@ + seq![b] + c@.subrange(0, k as int),
        decreases c@.len() - k,
    {
        r.push(c[k]);
        k += 1;
        proof {
            assert(r@ =~= a@ + seq![b] + c@.subrange(0, k as int));
        }
    }
    assert(a@.subrange(0, a@.len() as int) =~= a@);
    assert(c@.subrange(0, c@.len() as int) =~= c@);
    r
}

fn sub_dir(out: &[char], divide: bool, date: Option<LocalDateTime>) -> (r: Vec<char>)
    ensures
        r@ == spec_sub_dir(out@, divide, date),
{
    if !divide {
        return copy_chars(out);
    }
    match date {
        Some(d) => {
            let y = year_text(d.year);
            let first = concat3(out, '/', y.as_slice());
            let m = padded(d.month as u64, 2);
            concat3(first.as_slice(), '/', m.as_slice())
        },
        None => {
            let unknown = chars_of("date-unknown");
            concat3(out, '/', unknown.as_slice())
        },
    }
}


pub(crate) fn ext_and_stem(name: &[char]) -> (r: (Vec<char>, Vec<char>))
    ensures
        r.0@ == spec_no_extension(name@),
        r.1@ == spec_extension(name@),
{
    let dot: Vec<char> = vec!['.'];
    assert(dot@ =~= seq!['.']);
    let n = name.len();
    match crate::extras::last_occurrence(name, dot.as_slice()) {
        Some(p) => if p == 0 {
            (copy_chars(name), Vec::new())
        } else {
            assert(p < n);
            (copy_chars(vstd::slice::slice_subrange(name, 0, p)),
             copy_chars(vstd::slice::slice_subrange(name, p + 1, name.len())))
        },
        None => (copy_chars(name), Vec::new()),
    }
}

pub(crate) fn numbered(stem: &[char], ext: &[char], n: u32, name: Ghost<Seq<char>>) -> (r: Vec<char>)
    requires
        stem@ == spec_no_extension(name@),
        ext@ == spec_extension(name@),
    ensures
        r@ == spec_numbered(name@, n as nat),
{
    let mut r = copy_chars(stem);
    r.push('(');
    let d = decimal(n as u64);
    append_chars(&mut r, d.as_slice());
    r.push(')');
    if ext.len() > 0 {
        r.push('.');
        append_chars(&mut r, ext);
    }
    r
}

fn saved_path(written: &[WrittenFile], zip_path: &str) -> (r: Option<String>)
    ensures
        match r {
            Some(p) => spec_saved(written@, zip_path@) == Some(p@),
            None => spec_saved(written@, zip_path@) is None,
        },
{
    let z = chars_of(zip_path);
    let mut i: usize = 0;
    assert(written@.subrange(0, written@.len() as int) =~= written@);
    while i < written.len()
        invariant
            z@ == zip_path@,
            i <= written@.len(),
            spec_saved(written@, zip_path@) == spec_saved(written@.subrange(i as int, written@.len() as int), zip_path@),
        decreases written@.len() - i,
    {
        let ghost rest = written@.subrange(i as int, written@.len() as int);
        assert(rest.drop_first() =~= written@.subrange(i + 1, written@.len() as int));
        let q = chars_of(written[i].zip_path.as_str());
        if crate::text::slices_equal(q.as_slice(), z.as_slice()) {
            return Some(string_of(chars_of(written[i].output_path.as_str()).as_slice()));
        }
        i += 1;
    }
    None
}


/// The paths of the existing files, in order.
pub open spec fn existing_paths(existing: Seq<ExistingFile>) -> Seq<Seq<char>> {
    existing.map_values(|e: ExistingFile| e.path@)
}

proof fn lemma_existing_first(existing: Seq<ExistingFile>, p: Seq<char>, k: int)
    requires
        0 <= k < existing.len(),
        existing[k].path@ == p,
        forall|j: int| 0 <= j < k ==> existing[j].path@ != p,
    ensures
        spec_existing_size(existing, p) == Some(existing[k].size),
    decreases k,
{
    if k > 0 {
        assert(existing[0].path@ != p);
        lemma_existing_first(existing.drop_first(), p, k - 1);
    }
}

proof fn lemma_existing_none(existing: Seq<ExistingFile>, p: Seq<char>)
    requires
        forall|j: int| 0 <= j < existing.len() ==> existing[j].path@ != p,
    ensures
        spec_existing_size(existing, p) is None,
    decreases existing.len(),
{
    if existing.len() > 0 {
        assert(existing[0].path@ != p);
        lemma_existing_none(existing.drop_first(), p);
    }
}

/// An index of the existing files by path.
pub(crate) fn index_existing(existing: &[ExistingFile]) -> (r: PathSet)
    ensures
        r.wf(),
        r.contents() == existing_paths(existing@),
{
    let mut set = PathSet::new();
    let mut i: usize = 0;
    while i < existing.len()
        invariant
            i <= existing@.len(),
            set.wf(),
            set.contents() == existing_paths(existing@).subrange(0, i as int),
        decreases existing@.len() - i,
    {
        let p = chars_of(existing[i].path.as_str());
        set.insert(p.as_slice());
        proof {
            assert(set.contents() =~= existing_paths(existing@).subrange(0, i + 1));
        }
        i += 1;
    }
    assert(existing_paths(existing@).subrange(0, existing@.len() as int) =~= existing_paths(existing@));
    set
}

/// The size of the existing file at `p`, found through its index.
pub(crate) fn existing_lookup(existing: &[ExistingFile], index: &PathSet, p: &[char]) -> (r: Option<u64>)
    requires
        index.wf(),
        index.contents() == existing_paths(existing@),
    ensures
        r == spec_existing_size(existing@, p@),
{
    match index.find_first(p) {
        Some(k) => {
            proof {
                assert(existing@[k as int].path@ == existing_paths(existing@)[k as int]);
                assert forall|j: int| 0 <= j < k implies existing@[j].path@ != p@ by {
                    assert(existing_paths(existing@)[j] == existing@[j].path@);
                }
                lemma_existing_first(existing@, p@, k as int);
            }
            Some(existing[k].size)
        },
        None => {
            proof {
                assert forall|j: int| 0 <= j < existing@.len() implies existing@[j].path@ != p@ by {
                    assert(existing_paths(existing@)[j] == existing@[j].path@);
                }
                lemma_existing_none(existing@, p@);
            }
            None
        },
    }
}

/// A numbered name is longer than the name itself.
proof fn lemma_numbered_longer(name: Seq<char>, n: nat)
    ensures
        spec_numbered(name, n).len() > name.len(),
{
    crate::naming::lemma_decimal_nonempty(n);
    match spec_last_occurrence(name, seq!['.']) {
        Some(p) => {
            crate::extras::lemma_last_occurrence_in_range(name, seq!['.'], name.len() - 1);
        },
        None => {},
    }
}

/// A numbered path differs from the plain path in the same folder.
pub proof fn lemma_candidate_not_base(dir: Seq<char>, name: Seq<char>, n: nat)
    ensures
        spec_candidate(dir, name, n) != slash_join(dir, name),
{
    lemma_numbered_longer(name, n);
    assert(spec_candidate(dir, name, n).len() != slash_join(dir, name).len());
}

/// The plain destination of a record: its folder and its own name.
pub open spec fn spec_base(out: Seq<char>, divide: bool, m: Media) -> Seq<char> {
    slash_join(spec_sub_dir(out, divide, m.date), m.filename@)
}

/// Some fresh record before `j` with the same plain destination got a
/// numbered name.
pub open spec fn numbered_before(media: Seq<Media>, out: Seq<char>, divide: bool, written: Seq<WrittenFile>, assignments: Seq<Seq<char>>, j: int, b: Seq<char>) -> bool {
    exists|j2: int| 0 <= j2 < j && is_fresh(media, written, j2) && #[trigger] spec_base(out, divide, media[j2]) == b
        && assignments[j2] != b
}

/// Some earlier fresh record, or a recorded file, already has path `p`.
pub open spec fn taken_before(media: Seq<Media>, written: Seq<WrittenFile>, assignments: Seq<Seq<char>>, j: int, p: Seq<char>) -> bool {
    (exists|w: int| 0 <= w < written.len() && #[trigger] written[w].output_path@ == p)
    || (exists|j2: int| 0 <= j2 < j && is_fresh(media, written, j2) && #[trigger] assignments[j2] == p)
}

/// A fresh record takes its plain destination exactly when no earlier
/// record with that plain destination was numbered, no earlier record or
/// recorded file has that path, and the disk holds nothing there or a file
/// of the record's size.
pub open spec fn plain_name_rule(media: Seq<Media>, out: Seq<char>, divide: bool, written: Seq<WrittenFile>,
    existing: Seq<ExistingFile>, assignments: Seq<Seq<char>>, n: int) -> bool {
    forall|j: int| 0 <= j < n && is_fresh(media, written, j) ==> (
        (#[trigger] assignments[j] == spec_base(out, divide, media[j])) <==> (
            !numbered_before(media, out, divide, written, assignments, j, spec_base(out, divide, media[j]))
            && !taken_before(media, written, assignments, j, spec_base(out, divide, media[j]))
            && (spec_existing_size(existing, spec_base(out, divide, media[j])) is None
                || spec_existing_size(existing, spec_base(out, divide, media[j])) == Some(media[j].size))))
}

proof fn lemma_push_contains(s: Seq<Seq<char>>, x: Seq<char>)
    ensures
        forall|y: Seq<char>| #[trigger] s.push(x).contains(y) <==> (s.contains(y) || y == x),
{
    assert forall|y: Seq<char>| #[trigger] s.push(x).contains(y) <==> (s.contains(y) || y == x) by {
        if s.push(x).contains(y) {
            let k = choose|k: int| 0 <= k < s.push(x).len() && s.push(x)[k] == y;
            if k < s.len() {
                assert(s[k] == y);
            }
        }
        if s.contains(y) {
            let k = choose|k: int| 0 <= k < s.len() && s[k] == y;
            assert(s.push(x)[k] == y);
        }
        if y == x {
            assert(s.push(x)[s.len() as int] == y);
        }
    }
}

proof fn lemma_history_extends(media: Seq<Media>, out: Seq<char>, divide: bool, written: Seq<WrittenFile>,
    a0: Seq<Seq<char>>, a1: Seq<Seq<char>>, i: int)
    requires
        a0.len() == i,
        a1.len() == i + 1,
        forall|j: int| 0 <= j < i ==> a1[j] == a0[j],
    ensures
        forall|j: int, b: Seq<char>| 0 <= j <= i ==>
            (numbered_before(media, out, divide, written, a1, j, b) <==> #[trigger] numbered_before(media, out, divide, written, a0, j, b)),
        forall|j: int, q: Seq<char>| 0 <= j <= i ==>
            (taken_before(media, written, a1, j, q) <==> #[trigger] taken_before(media, written, a0, j, q)),
        forall|b: Seq<char>| #[trigger] numbered_before(media, out, divide, written, a1, i + 1, b) <==>
            (numbered_before(media, out, divide, written, a0, i, b)
                || (is_fresh(media, written, i) && spec_base(out, divide, media[i]) == b && a1[i] != b)),
        forall|q: Seq<char>| #[trigger] taken_before(media, written, a1, i + 1, q) <==>
            (taken_before(media, written, a0, i, q) || (is_fresh(media, written, i) && a1[i] == q)),
{
    assert forall|j: int, b: Seq<char>| 0 <= j <= i implies
        (numbered_before(media, out, divide, written, a1, j, b) <==> #[trigger] numbered_before(media, out, divide, written, a0, j, b)) by {
        if numbered_before(media, out, divide, written, a1, j, b) {
            let j2 = choose|j2: int| 0 <= j2 < j && is_fresh(media, written, j2) && #[trigger] spec_base(out, divide, media[j2]) == b && a1[j2] != b;
            assert(a0[j2] == a1[j2]);
        }
        if numbered_before(media, out, divide, written, a0, j, b) {
            let j2 = choose|j2: int| 0 <= j2 < j && is_fresh(media, written, j2) && #[trigger] spec_base(out, divide, media[j2]) == b && a0[j2] != b;
            assert(a0[j2] == a1[j2]);
        }
    }
    assert forall|j: int, q: Seq<char>| 0 <= j <= i implies
        (taken_before(media, written, a1, j, q) <==> #[trigger] taken_before(media, written, a0, j, q)) by {
        if exists|j2: int| 0 <= j2 < j && is_fresh(media, written, j2) && #[trigger] a1[j2] == q {
            let j2 = choose|j2: int| 0 <= j2 < j && is_fresh(media, written, j2) && #[trigger] a1[j2] == q;
            assert(a0[j2] == a1[j2]);
        }
        if exists|j2: int| 0 <= j2 < j && is_fresh(media, written, j2) && #[trigger] a0[j2] == q {
            let j2 = choose|j2: int| 0 <= j2 < j && is_fresh(media, written, j2) && #[trigger] a0[j2] == q;
            assert(a0[j2] == a1[j2]);
        }
    }
    assert forall|b: Seq<char>| #[trigger] numbered_before(media, out, divide, written, a1, i + 1, b) <==>
        (numbered_before(media, out, divide, written, a0, i, b)
            || (is_fresh(media, written, i) && spec_base(out, divide, media[i]) == b && a1[i] != b)) by {
        if numbered_before(media, out, divide, written, a1, i + 1, b) {
            let j2 = choose|j2: int| 0 <= j2 < i + 1 && is_fresh(media, written, j2) && #[trigger] spec_base(out, divide, media[j2]) == b && a1[j2] != b;
            if j2 < i {
                assert(a0[j2] == a1[j2]);
            }
        }
        if numbered_before(media, out, divide, written, a0, i, b) {
            let j2 = choose|j2: int| 0 <= j2 < i && is_fresh(media, written, j2) && #[trigger] spec_base(out, divide, media[j2]) == b && a0[j2] != b;
            assert(a0[j2] == a1[j2]);
        }
    }
    assert forall|q: Seq<char>| #[trigger] taken_before(media, written, a1, i + 1, q) <==>
        (taken_before(media, written, a0, i, q) || (is_fresh(media, written, i) && a1[i] == q)) by {
        if exists|j2: int| 0 <= j2 < i + 1 && is_fresh(media, written, j2) && #[trigger] a1[j2] == q {
            let j2 = choose|j2: int| 0 <= j2 < i + 1 && is_fresh(media, written, j2) && #[trigger] a1[j2] == q;
            if j2 < i {
                assert(a0[j2] == a1[j2]);
            }
        }
        if exists|j2: int| 0 <= j2 < i && is_fresh(media, written, j2) && #[trigger] a0[j2] == q {
            let j2 = choose|j2: int| 0 <= j2 < i && is_fresh(media, written, j2) && #[trigger] a0[j2] == q;
            assert(a0[j2] == a1[j2]);
        }
    }
}

/// The paths taken before fresh record `j` is placed: the recorded paths,
/// then the paths of the earlier fresh records, in order.
pub open spec fn taken_seq(media: Seq<Media>, written: Seq<WrittenFile>, a: Seq<Seq<char>>, j: int) -> Seq<Seq<char>>
    decreases j,
{
    if j <= 0 {
        written.map_values(|w: WrittenFile| w.output_path@)
    } else if is_fresh(media, written, j - 1) {
        taken_seq(media, written, a, j - 1).push(a[j - 1])
    } else {
        taken_seq(media, written, a, j - 1)
    }
}

/// The number that the last fresh record before `j` with plain destination
/// `b` received, 0 when none was numbered: where the count for `b` resumes.
pub open spec fn last_number(media: Seq<Media>, out: Seq<char>, divide: bool, written: Seq<WrittenFile>,
    a: Seq<Seq<char>>, j: int, b: Seq<char>) -> nat
    decreases j,
{
    if j <= 0 {
        0
    } else if is_fresh(media, written, j - 1) && spec_base(out, divide, media[j - 1]) == b && a[j - 1] != b {
        choose|n: nat| n >= 1 && a[j - 1] == #[trigger] spec_candidate(spec_sub_dir(out, divide, media[j - 1].date), media[j - 1].filename@, n)
    } else {
        last_number(media, out, divide, written, a, j - 1, b)
    }
}

/// A fresh record that does not take its plain destination takes the
/// first numbered name that is neither taken before it nor on disk,
/// counting on from the last number given for the same plain destination
/// (and wrapping round to 1 only past `u32::MAX`).
pub open spec fn numbering_rule(media: Seq<Media>, out: Seq<char>, divide: bool, written: Seq<WrittenFile>,
    existing: Seq<ExistingFile>, a: Seq<Seq<char>>, n: int) -> bool {
    forall|j: int| 0 <= j < n && is_fresh(media, written, j) && #[trigger] a[j] != spec_base(out, divide, media[j])
        ==> exists|c: nat| a[j] == spec_candidate(spec_sub_dir(out, divide, media[j].date), media[j].filename@, c)
            && first_free_in_order(taken_seq(media, written, a, j), existing_paths(existing),
                spec_sub_dir(out, divide, media[j].date), media[j].filename@,
                last_number(media, out, divide, written, a, j, spec_base(out, divide, media[j])), c)
}

proof fn lemma_history_stable(media: Seq<Media>, out: Seq<char>, divide: bool, written: Seq<WrittenFile>,
    a0: Seq<Seq<char>>, a1: Seq<Seq<char>>, j: int, b: Seq<char>)
    requires
        0 <= j <= a0.len(),
        a0.len() <= a1.len(),
        forall|x: int| 0 <= x < a0.len() ==> a1[x] == a0[x],
    ensures
        taken_seq(media, written, a1, j) == taken_seq(media, written, a0, j),
        last_number(media, out, divide, written, a1, j, b) == last_number(media, out, divide, written, a0, j, b),
    decreases j,
{
    if j > 0 {
        lemma_history_stable(media, out, divide, written, a0, a1, j - 1, b);
        assert(a1[j - 1] == a0[j - 1]);
    }
}

proof fn lemma_last_number_zero(media: Seq<Media>, out: Seq<char>, divide: bool, written: Seq<WrittenFile>,
    a: Seq<Seq<char>>, j: int, b: Seq<char>)
    requires
        !numbered_before(media, out, divide, written, a, j, b),
    ensures
        last_number(media, out, divide, written, a, j, b) == 0,
    decreases j,
{
    if j > 0 {
        if is_fresh(media, written, j - 1) && spec_base(out, divide, media[j - 1]) == b && a[j - 1] != b {
            assert(numbered_before(media, out, divide, written, a, j, b));
        }
        assert(!numbered_before(media, out, divide, written, a, j - 1, b)) by {
            if numbered_before(media, out, divide, written, a, j - 1, b) {
                let j2 = choose|j2: int| 0 <= j2 < j - 1 && is_fresh(media, written, j2) && #[trigger] spec_base(out, divide, media[j2]) == b && a[j2] != b;
                assert(numbered_before(media, out, divide, written, a, j, b));
            }
        }
        lemma_last_number_zero(media, out, divide, written, a, j - 1, b);
    }
}

proof fn lemma_last_number_step(media: Seq<Media>, out: Seq<char>, divide: bool, written: Seq<WrittenFile>,
    a: Seq<Seq<char>>, i: int, b: Seq<char>, c: nat)
    requires
        0 <= i,
    ensures
        !(is_fresh(media, written, i) && spec_base(out, divide, media[i]) == b && a[i] != b)
            ==> last_number(media, out, divide, written, a, i + 1, b) == last_number(media, out, divide, written, a, i, b),
        (is_fresh(media, written, i) && spec_base(out, divide, media[i]) == b && a[i] != b && c >= 1
            && a[i] == spec_candidate(spec_sub_dir(out, divide, media[i].date), media[i].filename@, c))
            ==> last_number(media, out, divide, written, a, i + 1, b) == c,
{
    if is_fresh(media, written, i) && spec_base(out, divide, media[i]) == b && a[i] != b && c >= 1
        && a[i] == spec_candidate(spec_sub_dir(out, divide, media[i].date), media[i].filename@, c) {
        let sub = spec_sub_dir(out, divide, media[i].date);
        let n = choose|n: nat| n >= 1 && a[i] == #[trigger] spec_candidate(sub, media[i].filename@, n);
        lemma_candidate_injective(sub, media[i].filename@, n, c);
    }
}

/// Media file `j` keeps no path from an earlier run.
pub open spec fn is_fresh(media: Seq<Media>, written: Seq<WrittenFile>, j: int) -> bool {
    spec_saved(written, media[j].zip_path@) is None
}

/// A plan meets its contract for the first `n` media files.
pub open spec fn plan_ok(
    media: Seq<Media>,
    out: Seq<char>,
    divide: bool,
    written: Seq<WrittenFile>,
    existing: Seq<ExistingFile>,
    assignments: Seq<Seq<char>>,
    skip: Seq<bool>,
    n: int,
) -> bool {
    &&& assignments.len() == n
    &&& skip.len() == n
    &&& forall|j: int| 0 <= j < n ==> assignment_ok(media[j], out, divide, written, existing, #[trigger] assignments[j], skip[j])
    &&& forall|j1: int, j2: int| 0 <= j1 < n && 0 <= j2 < n && j1 != j2 && is_fresh(media, written, j1)
        && is_fresh(media, written, j2) ==> #[trigger] assignments[j1] != #[trigger] assignments[j2]
    &&& forall|j: int, w: int| 0 <= j < n && 0 <= w < written.len() && is_fresh(media, written, j)
        ==> #[trigger] assignments[j] != #[trigger] written[w].output_path@
}

/// The views of the planned paths.
pub open spec fn string_views(v: Seq<String>) -> Seq<Seq<char>> {
    v.map_values(|p: String| p@)
}

pub(crate) proof fn lemma_not_on_disk(existing: Seq<ExistingFile>, p: Seq<char>)
    requires
        !existing_paths(existing).contains(p),
    ensures
        spec_existing_size(existing, p) is None,
{
    assert forall|j: int| 0 <= j < existing.len() implies existing[j].path@ != p by {
        assert(existing_paths(existing)[j] == existing[j].path@);
    }
    lemma_existing_none(existing, p);
}

/// Number `n` names a path taken in `a` or `b`.
pub open spec fn number_taken(a: Seq<Seq<char>>, b: Seq<Seq<char>>, sub: Seq<char>, name: Seq<char>, n: nat) -> bool {
    a.contains(spec_candidate(sub, name, n)) || b.contains(spec_candidate(sub, name, n))
}

/// `n` is the first number not taken when counting up from `start + 1`
/// to `u32::MAX` and then from 1.
pub open spec fn first_free_in_order(a: Seq<Seq<char>>, b: Seq<Seq<char>>, sub: Seq<char>, name: Seq<char>, start: nat, n: nat) -> bool {
    ||| (start < n && forall|m: nat| start < m < n ==> #[trigger] number_taken(a, b, sub, name, m))
    ||| (n <= start && (forall|m: nat| start < m <= u32::MAX ==> #[trigger] number_taken(a, b, sub, name, m))
        && forall|m: nat| 1 <= m < n ==> #[trigger] number_taken(a, b, sub, name, m))
}

/// The first free numbered name of a file in `sub`: numbers after `start`
/// first, then from 1 up to `start`. Free means neither in `used` nor on disk.
/// `None` only when every number from 1 to `u32::MAX` is taken.
pub(crate) fn find_free(
    used: &PathSet,
    on_disk: &PathSet,
    existing: Ghost<Seq<ExistingFile>>,
    sub: &[char],
    stem: &[char],
    ext: &[char],
    name: Ghost<Seq<char>>,
    start: u32,
) -> (r: Option<(Vec<char>, u32)>)
    requires
        used.wf(),
        on_disk.wf(),
        on_disk.contents() == existing_paths(existing@),
        stem@ == spec_no_extension(name@),
        ext@ == spec_extension(name@),
    ensures
        match r {
            Some((p, n)) => n >= 1 && p@ == spec_candidate(sub@, name@, n as nat)
                && !used.contents().contains(p@) && !existing_paths(existing@).contains(p@)
                && spec_existing_size(existing@, p@) is None
                && first_free_in_order(used.contents(), existing_paths(existing@), sub@, name@, start as nat, n as nat),
            None => forall|n: nat| 1 <= n <= u32::MAX ==> used.contents().contains(#[trigger] spec_candidate(sub@, name@, n))
                || existing_paths(existing@).contains(spec_candidate(sub@, name@, n)),
        },
{
    let mut c: u32 = start;
    while c < u32::MAX
        invariant
            used.wf(),
            on_disk.wf(),
            on_disk.contents() == existing_paths(existing@),
            stem@ == spec_no_extension(name@),
            ext@ == spec_extension(name@),
            start <= c <= u32::MAX,
            forall|n: nat| start < n <= c ==> used.contents().contains(#[trigger] spec_candidate(sub@, name@, n))
                || existing_paths(existing@).contains(spec_candidate(sub@, name@, n)),
        decreases u32::MAX - c,
    {
        c += 1;
        let nm = numbered(stem, ext, c, name);
        let cand = concat3(sub, '/', nm.as_slice());
        assert(cand@ == spec_candidate(sub@, name@, c as nat));
        if !used.contains(cand.as_slice()) && !on_disk.contains(cand.as_slice()) {
            proof {
                lemma_not_on_disk(existing@, cand@);
                assert forall|m: nat| start < m < c implies #[trigger] number_taken(used.contents(), existing_paths(existing@), sub@, name@, m) by {
                    assert(used.contents().contains(spec_candidate(sub@, name@, m)) || existing_paths(existing@).contains(spec_candidate(sub@, name@, m)));
                }
            }
            return Some((cand, c));
        }
    }
    let mut c: u32 = 0;
    while c < start
        invariant
            used.wf(),
            on_disk.wf(),
            on_disk.contents() == existing_paths(existing@),
            stem@ == spec_no_extension(name@),
            ext@ == spec_extension(name@),
            c <= start,
            forall|n: nat| 1 <= n <= c ==> used.contents().contains(#[trigger] spec_candidate(sub@, name@, n))
                || existing_paths(existing@).contains(spec_candidate(sub@, name@, n)),
            forall|n: nat| start < n <= u32::MAX ==> used.contents().contains(#[trigger] spec_candidate(sub@, name@, n))
                || existing_paths(existing@).contains(spec_candidate(sub@, name@, n)),
        decreases start - c,
    {
        c += 1;
        let nm = numbered(stem, ext, c, name);
        let cand = concat3(sub, '/', nm.as_slice());
        assert(cand@ == spec_candidate(sub@, name@, c as nat));
        if !used.contains(cand.as_slice()) && !on_disk.contains(cand.as_slice()) {
            proof {
                lemma_not_on_disk(existing@, cand@);
                assert forall|m: nat| start < m <= u32::MAX implies #[trigger] number_taken(used.contents(), existing_paths(existing@), sub@, name@, m) by {
                    assert(used.contents().contains(spec_candidate(sub@, name@, m)) || existing_paths(existing@).contains(spec_candidate(sub@, name@, m)));
                }
                assert forall|m: nat| 1 <= m < c implies #[trigger] number_taken(used.contents(), existing_paths(existing@), sub@, name@, m) by {
                    assert(used.contents().contains(spec_candidate(sub@, name@, m)) || existing_paths(existing@).contains(spec_candidate(sub@, name@, m)));
                }
            }
            return Some((cand, c));
        }
    }
    None
}

/// Assign each media file its destination, in input order. A file that an
/// earlier run recorded keeps its recorded path and is skipped. Any other
/// goes to its folder (`<out>/YYYY/MM`, `<out>/date-unknown` or `<out>`)
/// under its own name when no earlier file took that name and the name is
/// free on disk or holds a file of the same size (then it is skipped as
/// already written); otherwise under `stem(N).ext`, with `N` counted on
/// from the last number used for that name, the first that is neither
/// taken nor on disk. New paths are distinct from each other and from the
/// recorded ones.
pub fn plan_destinations(
    media: &[Media],
    output_dir: &str,
    divide_to_dates: bool,
    already_written: &[WrittenFile],
    existing_files: &[ExistingFile],
) -> (r: Result<WritePlan, PlanError>)
    ensures
        r is Ok ==> plan_ok(media@, output_dir@, divide_to_dates, already_written@, existing_files@,
            string_views(r->Ok_0.assignments@), r->Ok_0.skip@, media@.len() as int),
        media@.len() + already_written@.len() + existing_files@.len() < u32::MAX ==> r is Ok,
        r is Ok ==> numbering_rule(media@, output_dir@, divide_to_dates, already_written@, existing_files@,
            string_views(r->Ok_0.assignments@), media@.len() as int),
        r is Ok ==> plain_name_rule(media@, output_dir@, divide_to_dates, already_written@, existing_files@,
            string_views(r->Ok_0.assignments@), media@.len() as int),
        r is Ok ==> forall|j: int| 0 <= j < media@.len() && is_fresh(media@, already_written@, j)
            ==> string_views(r->Ok_0.dirs@).contains(#[trigger] spec_sub_dir(output_dir@, divide_to_dates, media@[j].date)),
        r is Ok ==> forall|a: int, b: int| 0 <= a < b < r->Ok_0.dirs@.len() ==> #[trigger] r->Ok_0.dirs@[a]@ != #[trigger] r->Ok_0.dirs@[b]@,
{
    let out = chars_of(output_dir);
    let mut used = PathSet::new();
    let mut w: usize = 0;
    while w < already_written.len()
        invariant
            used.wf(),
            w <= already_written@.len(),
            used.contents().len() == w,
            used.contents() == already_written@.subrange(0, w as int).map_values(|x: WrittenFile| x.output_path@),
            forall|q: Seq<char>| used.contents().contains(q) ==> exists|x: int| 0 <= x < w && #[trigger] already_written@[x].output_path@ == q,
            forall|x: int| 0 <= x < w ==> used.contents().contains(#[trigger] already_written@[x].output_path@),
        decreases already_written@.len() - w,
    {
        let p = chars_of(already_written[w].output_path.as_str());
        let ghost u0 = used.contents();
        used.insert(p.as_slice());
        proof {
            assert forall|x: int| 0 <= x < w + 1 implies used.contents().contains(#[trigger] already_written@[x].output_path@) by {
                if x < w {
                    let k = choose|k: int| 0 <= k < u0.len() && u0[k] == already_written@[x].output_path@;
                    assert(used.contents()[k] == u0[k]);
                } else {
                    assert(used.contents()[u0.len() as int] == already_written@[x].output_path@);
                }
            }
            assert forall|q: Seq<char>| used.contents().contains(q) implies exists|x: int| 0 <= x < w + 1 && #[trigger] already_written@[x].output_path@ == q by {
                let k = choose|k: int| 0 <= k < used.contents().len() && used.contents()[k] == q;
                if k < u0.len() {
                    assert(u0[k] == used.contents()[k]);
                    assert(u0.contains(q));
                } else {
                    assert(already_written@[w as int].output_path@ == q);
                }
            }
        }
        proof {
            assert(used.contents() =~= already_written@.subrange(0, w + 1).map_values(|x: WrittenFile| x.output_path@));
        }
        w += 1;
    }
    assert(already_written@.subrange(0, already_written@.len() as int) =~= already_written@);
    let on_disk = index_existing(existing_files);
    let mut keys = PathSet::new();
    let mut vals: Vec<u32> = Vec::new();
    let mut dir_set = PathSet::new();
    let mut dirs: Vec<String> = Vec::new();
    let mut assignments: Vec<String> = Vec::new();
    let mut skip: Vec<bool> = Vec::new();
    let mut i: usize = 0;
    while i < media.len()
        invariant
            out@ == output_dir@,
            i <= media@.len(),
            keys.wf(),
            keys.contents().len() == vals@.len(),
            used.wf(),
            used.contents().len() <= already_written@.len() + i,
            dir_set.wf(),
            dir_set.contents() == string_views(dirs@),
            forall|j: int| 0 <= j < i && is_fresh(media@, already_written@, j)
                ==> dir_set.contents().contains(#[trigger] spec_sub_dir(out@, divide_to_dates, media@[j].date)),
            forall|a: int, b: int| 0 <= a < b < dirs@.len() ==> #[trigger] dirs@[a]@ != #[trigger] dirs@[b]@,
            on_disk.wf(),
            on_disk.contents() == existing_paths(existing_files@),
            plan_ok(media@, out@, divide_to_dates, already_written@, existing_files@,
                string_views(assignments@), skip@, i as int),
            plain_name_rule(media@, out@, divide_to_dates, already_written@, existing_files@, string_views(assignments@), i as int),
            numbering_rule(media@, out@, divide_to_dates, already_written@, existing_files@, string_views(assignments@), i as int),
            used.contents() == taken_seq(media@, already_written@, string_views(assignments@), i as int),
            forall|k: int| 0 <= k < vals@.len() ==> #[trigger] vals@[k] as nat
                == last_number(media@, out@, divide_to_dates, already_written@, string_views(assignments@), i as int, keys.contents()[k]),
            forall|k1: int, k2: int| 0 <= k1 < k2 < keys.contents().len() ==> #[trigger] keys.contents()[k1] != #[trigger] keys.contents()[k2],
            forall|b: Seq<char>| keys.contents().contains(b)
                <==> #[trigger] numbered_before(media@, out@, divide_to_dates, already_written@, string_views(assignments@), i as int, b),
            forall|k: int| 0 <= k < vals@.len() ==> #[trigger] vals@[k] >= 1,
            forall|q: Seq<char>| used.contents().contains(q)
                ==> #[trigger] taken_before(media@, already_written@, string_views(assignments@), i as int, q),
            forall|x: int| 0 <= x < already_written@.len() ==> used.contents().contains(#[trigger] already_written@[x].output_path@),
            forall|j: int| 0 <= j < i && is_fresh(media@, already_written@, j) ==> used.contents().contains(#[trigger] string_views(assignments@)[j]),
        decreases media@.len() - i,
    {
        let m = &media[i];
        let ghost a0 = string_views(assignments@);
        let ghost s0 = skip@;
        let ghost u0 = used.contents();
        if let Some(saved) = saved_path(already_written, m.zip_path.as_str()) {
            assignments.push(saved);
            skip.push(true);
            proof {
                assert(string_views(assignments@) =~= a0.push(saved@));
                assert(skip@ =~= s0.push(true));
                let a1 = string_views(assignments@);
                lemma_history_extends(media@, out@, divide_to_dates, already_written@, a0, a1, i as int);
                assert forall|b: Seq<char>| keys.contents().contains(b)
                    <==> #[trigger] numbered_before(media@, out@, divide_to_dates, already_written@, a1, i + 1, b) by {
                    assert(numbered_before(media@, out@, divide_to_dates, already_written@, a1, i + 1, b)
                        == numbered_before(media@, out@, divide_to_dates, already_written@, a0, i as int, b));
                }
                assert forall|q: Seq<char>| used.contents().contains(q)
                    implies #[trigger] taken_before(media@, already_written@, a1, i + 1, q) by {
                    assert(taken_before(media@, already_written@, a0, i as int, q));
                }
                lemma_history_stable(media@, out@, divide_to_dates, already_written@, a0, a1, i as int, seq![]);
                assert(used.contents() == taken_seq(media@, already_written@, a1, i + 1));
                assert forall|k: int| 0 <= k < vals@.len() implies #[trigger] vals@[k] as nat
                    == last_number(media@, out@, divide_to_dates, already_written@, a1, i + 1, keys.contents()[k]) by {
                    lemma_history_stable(media@, out@, divide_to_dates, already_written@, a0, a1, i as int, keys.contents()[k]);
                    lemma_last_number_step(media@, out@, divide_to_dates, already_written@, a1, i as int, keys.contents()[k], 0);
                }
                assert forall|j: int| 0 <= j < i + 1 && is_fresh(media@, already_written@, j) && #[trigger] a1[j] != spec_base(out@, divide_to_dates, media@[j])
                    implies exists|c: nat| a1[j] == spec_candidate(spec_sub_dir(out@, divide_to_dates, media@[j].date), media@[j].filename@, c)
                        && first_free_in_order(taken_seq(media@, already_written@, a1, j), existing_paths(existing_files@),
                            spec_sub_dir(out@, divide_to_dates, media@[j].date), media@[j].filename@,
                            last_number(media@, out@, divide_to_dates, already_written@, a1, j, spec_base(out@, divide_to_dates, media@[j])), c) by {
                    assert(a1[j] == a0[j]);
                    lemma_history_stable(media@, out@, divide_to_dates, already_written@, a0, a1, j, spec_base(out@, divide_to_dates, media@[j]));
                }
                assert forall|j: int| 0 <= j < i + 1 && is_fresh(media@, already_written@, j) implies (
                    (#[trigger] a1[j] == spec_base(out@, divide_to_dates, media@[j])) <==> (
                        !numbered_before(media@, out@, divide_to_dates, already_written@, a1, j, spec_base(out@, divide_to_dates, media@[j]))
                        && !taken_before(media@, already_written@, a1, j, spec_base(out@, divide_to_dates, media@[j]))
                        && (spec_existing_size(existing_files@, spec_base(out@, divide_to_dates, media@[j])) is None
                            || spec_existing_size(existing_files@, spec_base(out@, divide_to_dates, media@[j])) == Some(media@[j].size)))) by {
                    assert(a1[j] == a0[j]);
                    assert(numbered_before(media@, out@, divide_to_dates, already_written@, a1, j, spec_base(out@, divide_to_dates, media@[j]))
                        == numbered_before(media@, out@, divide_to_dates, already_written@, a0, j, spec_base(out@, divide_to_dates, media@[j])));
                    assert(taken_before(media@, already_written@, a1, j, spec_base(out@, divide_to_dates, media@[j]))
                        == taken_before(media@, already_written@, a0, j, spec_base(out@, divide_to_dates, media@[j])));
                }
            }
            i += 1;
            continue;
        }
        let sub = sub_dir(out.as_slice(), divide_to_dates, m.date);
        let ghost ds0 = dir_set.contents();
        let ghost dv0 = dirs@;
        if !dir_set.contains(sub.as_slice()) {
            dir_set.insert(sub.as_slice());
            dirs.push(string_of(sub.as_slice()));
            proof {
                assert(dir_set.contents()[ds0.len() as int] == sub@);
                assert(dir_set.contents() =~= string_views(dirs@));
                assert forall|a: int, b: int| 0 <= a < b < dirs@.len() implies #[trigger] dirs@[a]@ != #[trigger] dirs@[b]@ by {
                    if b == dv0.len() {
                        assert(ds0[a] == dv0[a]@);
                    }
                }
            }
        }
        proof {
            assert(dir_set.contents().contains(sub@));
            assert forall|j: int| 0 <= j < i && is_fresh(media@, already_written@, j)
                implies dir_set.contents().contains(#[trigger] spec_sub_dir(out@, divide_to_dates, media@[j].date)) by {
                let k = choose|k: int| 0 <= k < ds0.len() && ds0[k] == spec_sub_dir(out@, divide_to_dates, media@[j].date);
                assert(dir_set.contents()[k] == ds0[k]);
            }
        }
        let name = chars_of(m.filename.as_str());
        let base = concat3(sub.as_slice(), '/', name.as_slice());
        let slot = keys.find_first(base.as_slice());
        let counter: u32 = match slot {
            Some(k) => vals[k],
            None => 0,
        };
        let ghost k0 = keys.contents();
        let ghost mut cn: nat = 0;
        let ghost bb = spec_base(out@, divide_to_dates, media@[i as int]);
        assert(base@ == bb);
        proof {
            match slot {
                Some(k) => {
                    assert(k0.contains(base@));
                    assert(vals@[k as int] >= 1);
                },
                None => {},
            }
            if used.contents().contains(bb) {
                assert(taken_before(media@, already_written@, a0, i as int, bb));
            }
            if taken_before(media@, already_written@, a0, i as int, bb) {
                if exists|w: int| 0 <= w < already_written@.len() && #[trigger] already_written@[w].output_path@ == bb {
                    let w = choose|w: int| 0 <= w < already_written@.len() && #[trigger] already_written@[w].output_path@ == bb;
                    assert(used.contents().contains(already_written@[w].output_path@));
                } else {
                    let j2 = choose|j2: int| 0 <= j2 < i && is_fresh(media@, already_written@, j2) && #[trigger] a0[j2] == bb;
                    assert(used.contents().contains(a0[j2]));
                }
            }
        }
        assert((counter == 0) == !numbered_before(media@, out@, divide_to_dates, already_written@, a0, i as int, bb));
        proof {
            match slot {
                Some(k) => {
                    assert(keys.contents()[k as int] == bb);
                },
                None => {
                    lemma_last_number_zero(media@, out@, divide_to_dates, already_written@, a0, i as int, bb);
                },
            }
        }
        assert(counter as nat == last_number(media@, out@, divide_to_dates, already_written@, a0, i as int, bb));
        let can_use_base = counter == 0 && !used.contains(base.as_slice());
        let existing = existing_lookup(existing_files, &on_disk, base.as_slice());
        let existing_is_same = can_use_base && existing == Some(m.size);
        let dest: Vec<char>;
        let skipped: bool;
        if existing_is_same || (can_use_base && existing.is_none()) {
            dest = base;
            skipped = existing_is_same;
        } else {
            let (stem, ext) = ext_and_stem(name.as_slice());
            let (found, c) = match find_free(&used, &on_disk, Ghost(existing_files@), sub.as_slice(), stem.as_slice(),
                ext.as_slice(), Ghost(m.filename@), counter) {
                Some(x) => x,
                None => {
                    proof {
                        lemma_taken_bound(sub@, m.filename@, u32::MAX as nat, used.contents(), existing_paths(existing_files@));
                    }
                    return Err(PlanError::NamesExhausted);
                },
            };
            match slot {
                Some(k) => {
                    vals.set(k, c);
                    proof {
                        assert forall|b2: Seq<char>| keys.contents().contains(b2) <==> (k0.contains(b2) || b2 == bb) by {}
                    }
                },
                None => {
                    keys.insert(base.as_slice());
                    vals.push(c);
                    proof {
                        lemma_push_contains(k0, bb);
                        assert forall|b2: Seq<char>| keys.contents().contains(b2) <==> (k0.contains(b2) || b2 == bb) by {
                            assert(k0.push(bb).contains(b2) <==> (k0.contains(b2) || b2 == bb));
                        }
                    }
                },
            }
            assert forall|b2: Seq<char>| keys.contents().contains(b2) <==> (k0.contains(b2) || b2 == bb) by {}
            proof {
                lemma_candidate_not_base(sub@, m.filename@, c as nat);
                cn = c as nat;
            }
            dest = found;
            skipped = false;
        }
        assert(!u0.contains(dest@));
        let ghost d = dest@;
        used.insert(dest.as_slice());
        assignments.push(string_of(dest.as_slice()));
        skip.push(skipped);
        proof {
            assert(string_views(assignments@) =~= a0.push(d));
            assert(skip@ =~= s0.push(skipped));
            let a1 = string_views(assignments@);
            lemma_history_extends(media@, out@, divide_to_dates, already_written@, a0, a1, i as int);
            assert((d == bb) == (can_use_base && (existing is None || existing == Some(m.size))));
            lemma_history_stable(media@, out@, divide_to_dates, already_written@, a0, a1, i as int, bb);
            assert(used.contents() =~= taken_seq(media@, already_written@, a1, i + 1));
            assert forall|k: int| 0 <= k < vals@.len() implies #[trigger] vals@[k] as nat
                == last_number(media@, out@, divide_to_dates, already_written@, a1, i + 1, keys.contents()[k]) by {
                let kb = keys.contents()[k];
                lemma_history_stable(media@, out@, divide_to_dates, already_written@, a0, a1, i as int, kb);
                lemma_last_number_step(media@, out@, divide_to_dates, already_written@, a1, i as int, kb, cn);
            }
            assert forall|j: int| 0 <= j < i + 1 && is_fresh(media@, already_written@, j) && #[trigger] a1[j] != spec_base(out@, divide_to_dates, media@[j])
                implies exists|c: nat| a1[j] == spec_candidate(spec_sub_dir(out@, divide_to_dates, media@[j].date), media@[j].filename@, c)
                    && first_free_in_order(taken_seq(media@, already_written@, a1, j), existing_paths(existing_files@),
                        spec_sub_dir(out@, divide_to_dates, media@[j].date), media@[j].filename@,
                        last_number(media@, out@, divide_to_dates, already_written@, a1, j, spec_base(out@, divide_to_dates, media@[j])), c) by {
                lemma_history_stable(media@, out@, divide_to_dates, already_written@, a0, a1, j, spec_base(out@, divide_to_dates, media@[j]));
                if j < i {
                    assert(a1[j] == a0[j]);
                } else {
                    assert(a1[j] == spec_candidate(sub@, m.filename@, cn));
                }
            }
            assert forall|b2: Seq<char>| keys.contents().contains(b2)
                <==> #[trigger] numbered_before(media@, out@, divide_to_dates, already_written@, a1, i + 1, b2) by {
                if d == bb {
                    assert(keys.contents() == k0);
                } else {
                    assert(keys.contents().contains(b2) <==> (k0.contains(b2) || b2 == bb));
                }
            }
            assert forall|j: int| 0 <= j < i + 1 && is_fresh(media@, already_written@, j) implies (
                (#[trigger] a1[j] == spec_base(out@, divide_to_dates, media@[j])) <==> (
                    !numbered_before(media@, out@, divide_to_dates, already_written@, a1, j, spec_base(out@, divide_to_dates, media@[j]))
                    && !taken_before(media@, already_written@, a1, j, spec_base(out@, divide_to_dates, media@[j]))
                    && (spec_existing_size(existing_files@, spec_base(out@, divide_to_dates, media@[j])) is None
                        || spec_existing_size(existing_files@, spec_base(out@, divide_to_dates, media@[j])) == Some(media@[j].size)))) by {
                assert(numbered_before(media@, out@, divide_to_dates, already_written@, a1, j, spec_base(out@, divide_to_dates, media@[j]))
                    == numbered_before(media@, out@, divide_to_dates, already_written@, a0, j, spec_base(out@, divide_to_dates, media@[j])));
                assert(taken_before(media@, already_written@, a1, j, spec_base(out@, divide_to_dates, media@[j]))
                    == taken_before(media@, already_written@, a0, j, spec_base(out@, divide_to_dates, media@[j])));
                if j < i {
                    assert(a1[j] == a0[j]);
                }
            }
            assert forall|x: int| 0 <= x < already_written@.len() implies used.contents().contains(#[trigger] already_written@[x].output_path@) by {
                let k = choose|k: int| 0 <= k < u0.len() && u0[k] == already_written@[x].output_path@;
                assert(used.contents()[k] == u0[k]);
            }
            assert forall|j: int| 0 <= j < i + 1 && is_fresh(media@, already_written@, j) implies used.contents().contains(#[trigger] string_views(assignments@)[j]) by {
                if j < i {
                    let k = choose|k: int| 0 <= k < u0.len() && u0[k] == a0[j];
                    assert(used.contents()[k] == u0[k]);
                } else {
                    assert(used.contents()[u0.len() as int] == d);
                }
            }
        }
        i += 1;
    }
    Ok(WritePlan { assignments, skip, dirs })
}


proof fn lemma_join_under(out: Seq<char>, sub: Seq<char>, x: Seq<char>)
    requires
        sub == out || starts_with(sub, out + seq!['/']),
    ensures
        starts_with(slash_join(sub, x), out + seq!['/']),
{
    let pre = out + seq!['/'];
    let d = slash_join(sub, x);
    if sub == out {
        assert(d.subrange(0, pre.len() as int) =~= pre);
    } else {
        assert(d.subrange(0, pre.len() as int) =~= sub.subrange(0, pre.len() as int));
    }
}

proof fn lemma_sub_dir_under(out: Seq<char>, divide: bool, date: Option<LocalDateTime>)
    ensures
        spec_sub_dir(out, divide, date) == out || starts_with(spec_sub_dir(out, divide, date), out + seq!['/']),
{
    if divide {
        match date {
            Some(d) => {
                let y = slash_join(out, spec_year_text(d.year as int));
                lemma_join_under(out, out, spec_year_text(d.year as int));
                lemma_join_under(out, y, zero_pad(spec_decimal(d.month as nat), 2));
            },
            None => {
                lemma_join_under(out, out, "date-unknown"@);
            },
        }
    }
}

/// Every path that a plan assigns afresh lies under the output root, and
/// no two media files share a path: fresh paths differ from each other and
/// from the paths that an earlier run recorded.
pub proof fn lemma_plan_under_root_and_unique(
    media: Seq<Media>,
    out: Seq<char>,
    divide: bool,
    written: Seq<WrittenFile>,
    existing: Seq<ExistingFile>,
    assignments: Seq<Seq<char>>,
    skip: Seq<bool>,
)
    requires
        plan_ok(media, out, divide, written, existing, assignments, skip, media.len() as int),
    ensures
        forall|j: int| 0 <= j < media.len() && is_fresh(media, written, j)
            ==> starts_with(#[trigger] assignments[j], out + seq!['/']),
        forall|j1: int, j2: int| 0 <= j1 < media.len() && 0 <= j2 < media.len() && j1 != j2
            && is_fresh(media, written, j1) && is_fresh(media, written, j2)
            ==> #[trigger] assignments[j1] != #[trigger] assignments[j2],
        forall|j: int, w: int| 0 <= j < media.len() && 0 <= w < written.len() && is_fresh(media, written, j)
            ==> #[trigger] assignments[j] != #[trigger] written[w].output_path@,
{
    assert forall|j: int| 0 <= j < media.len() && is_fresh(media, written, j)
        implies starts_with(#[trigger] assignments[j], out + seq!['/']) by {
        assert(assignment_ok(media[j], out, divide, written, existing, assignments[j], skip[j]));
        let sub = spec_sub_dir(out, divide, media[j].date);
        lemma_sub_dir_under(out, divide, media[j].date);
        if assignments[j] == slash_join(sub, media[j].filename@) {
            lemma_join_under(out, sub, media[j].filename@);
        } else {
            let n = choose|n: nat| n >= 1 && assignments[j] == #[trigger] slash_join(sub, spec_numbered(media[j].filename@, n));
            lemma_join_under(out, sub, spec_numbered(media[j].filename@, n));
        }
    }
}


/// Resuming repeats no recorded work: every media file that an earlier run
/// recorded as written keeps the recorded path and is skipped, so only the
/// files without a record are written.
pub proof fn lemma_resume_skips_recorded(
    media: Seq<Media>,
    out: Seq<char>,
    divide: bool,
    written: Seq<WrittenFile>,
    existing: Seq<ExistingFile>,
    assignments: Seq<Seq<char>>,
    skip: Seq<bool>,
)
    requires
        plan_ok(media, out, divide, written, existing, assignments, skip, media.len() as int),
    ensures
        forall|j: int| 0 <= j < media.len() && !is_fresh(media, written, j)
            ==> #[trigger] skip[j] && assignments[j] == spec_saved(written, media[j].zip_path@)->0,
        forall|j: int| 0 <= j < media.len() && is_fresh(media, written, j) && !(#[trigger] skip[j])
            ==> spec_existing_size(existing, assignments[j]) != Some(media[j].size)
                || assignments[j] != slash_join(spec_sub_dir(out, divide, media[j].date), media[j].filename@),
{
    assert forall|j: int| 0 <= j < media.len() && !is_fresh(media, written, j)
        implies #[trigger] skip[j] && assignments[j] == spec_saved(written, media[j].zip_path@)->0 by {
        assert(assignment_ok(media[j], out, divide, written, existing, assignments[j], skip[j]));
    }
    assert forall|j: int| 0 <= j < media.len() && is_fresh(media, written, j) && !(#[trigger] skip[j])
        implies spec_existing_size(existing, assignments[j]) != Some(media[j].size)
            || assignments[j] != slash_join(spec_sub_dir(out, divide, media[j].date), media[j].filename@) by {
        assert(assignment_ok(media[j], out, divide, written, existing, assignments[j], skip[j]));
    }
}


proof fn lemma_saved_entry(written: Seq<WrittenFile>, z: Seq<char>)
    requires
        spec_saved(written, z) is Some,
    ensures
        exists|w: int| 0 <= w < written.len() && #[trigger] written[w].zip_path@ == z
            && written[w].output_path@ == spec_saved(written, z)->0,
    decreases written.len(),
{
    if written[0].zip_path@ != z {
        lemma_saved_entry(written.drop_first(), z);
        let w = choose|w: int| 0 <= w < written.drop_first().len() && #[trigger] written.drop_first()[w].zip_path@ == z
            && written.drop_first()[w].output_path@ == spec_saved(written.drop_first(), z)->0;
        assert(written[w + 1] == written.drop_first()[w]);
    }
}

/// Every media file of a plan gets a path under the output root, distinct
/// from every other file's, provided the recorded paths lie under the root
/// and differ from each other, and the media files come from distinct
/// archive paths.
pub proof fn lemma_plan_all_under_root_and_unique(
    media: Seq<Media>,
    out: Seq<char>,
    divide: bool,
    written: Seq<WrittenFile>,
    existing: Seq<ExistingFile>,
    assignments: Seq<Seq<char>>,
    skip: Seq<bool>,
)
    requires
        plan_ok(media, out, divide, written, existing, assignments, skip, media.len() as int),
        forall|w: int| 0 <= w < written.len() ==> starts_with(#[trigger] written[w].output_path@, out + seq!['/']),
        forall|w1: int, w2: int| 0 <= w1 < w2 < written.len() ==> #[trigger] written[w1].output_path@ != #[trigger] written[w2].output_path@,
        forall|j1: int, j2: int| 0 <= j1 < j2 < media.len() ==> #[trigger] media[j1].zip_path@ != #[trigger] media[j2].zip_path@,
    ensures
        forall|j: int| 0 <= j < media.len() ==> starts_with(#[trigger] assignments[j], out + seq!['/']),
        forall|j1: int, j2: int| 0 <= j1 < media.len() && 0 <= j2 < media.len() && j1 != j2
            ==> #[trigger] assignments[j1] != #[trigger] assignments[j2],
{
    lemma_plan_under_root_and_unique(media, out, divide, written, existing, assignments, skip);
    assert forall|j: int| 0 <= j < media.len() implies starts_with(#[trigger] assignments[j], out + seq!['/']) by {
        assert(assignment_ok(media[j], out, divide, written, existing, assignments[j], skip[j]));
        if !is_fresh(media, written, j) {
            lemma_saved_entry(written, media[j].zip_path@);
        }
    }
    assert forall|j1: int, j2: int| 0 <= j1 < media.len() && 0 <= j2 < media.len() && j1 != j2
        implies #[trigger] assignments[j1] != #[trigger] assignments[j2] by {
        assert(assignment_ok(media[j1], out, divide, written, existing, assignments[j1], skip[j1]));
        assert(assignment_ok(media[j2], out, divide, written, existing, assignments[j2], skip[j2]));
        if !is_fresh(media, written, j1) {
            lemma_saved_entry(written, media[j1].zip_path@);
        }
        if !is_fresh(media, written, j2) {
            lemma_saved_entry(written, media[j2].zip_path@);
        }
        if !is_fresh(media, written, j1) && !is_fresh(media, written, j2) {
            let w1 = choose|w: int| 0 <= w < written.len() && #[trigger] written[w].zip_path@ == media[j1].zip_path@
                && written[w].output_path@ == spec_saved(written, media[j1].zip_path@)->0;
            let w2 = choose|w: int| 0 <= w < written.len() && #[trigger] written[w].zip_path@ == media[j2].zip_path@
                && written[w].output_path@ == spec_saved(written, media[j2].zip_path@)->0;
            if j1 < j2 {
                assert(media[j1].zip_path@ != media[j2].zip_path@);
            } else {
                assert(media[j2].zip_path@ != media[j1].zip_path@);
            }
            assert(w1 != w2);
            if w1 < w2 {
                assert(written[w1].output_path@ != written[w2].output_path@);
            } else {
                assert(written[w2].output_path@ != written[w1].output_path@);
            }
        }
    }
}

} // verus!
