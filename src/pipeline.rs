//! The stages between scan and write: dates, album merge, and the run's
//! control and progress state.
use vstd::prelude::*;
use crate::checkpoint::CancellationToken;
use crate::date::{extract_date, spec_extract_date, DateResult, LocalDateTime};
use crate::guess::spec_guess_date;
use std::collections::HashMap;
use crate::media::{add_to_group, groups_ok, lemma_groups_same_sizes, size_groups, Media};
use crate::sidecar::{find_json_date, spec_find_from, JsonDateIndex};
use crate::zip_scan::{mime_top, mime_top_of, str_eq, AlbumGroup};

verus! {

/// Control of a run: whether to resume, and the token that pauses or
/// cancels it.
#[derive(Clone, Debug)]
pub struct ProcessControl {
    pub resume: bool,
    pub cancel_token: Option<CancellationToken>,
}

impl ProcessControl {
    /// No resume, no token.
    pub fn new() -> (r: Self)
        ensures
            !r.resume,
            r.cancel_token is None,
    {
        ProcessControl { resume: false, cancel_token: None }
    }

    /// The same control with resuming set to `resume`.
    pub fn with_resume(self, resume: bool) -> (r: Self)
        ensures
            r.resume == resume,
            r.cancel_token == self.cancel_token,
    {
        let mut s = self;
        s.resume = resume;
        s
    }

    /// The same control with a cancellation token.
    pub fn with_cancel_token(self, token: CancellationToken) -> (r: Self)
        ensures
            r.resume == self.resume,
            r.cancel_token == Some(token),
    {
        let mut s = self;
        s.cancel_token = Some(token);
        s
    }
}

/// One progress event.
#[derive(Clone, Debug)]
pub struct Progress {
    pub stage: String,
    pub current: u64,
    pub total: u64,
    pub message: String,
}

/// What a run did.
#[derive(Clone, Debug)]
pub struct ProcessResult {
    pub total_media: u64,
    pub duplicates_removed: u64,
    pub files_written: u64,
    pub files_skipped: u64,
    pub warnings: Vec<String>,
}

/// Least time between two progress events, in milliseconds.
pub const PROGRESS_INTERVAL_MS: u64 = 200;

/// Rate limit of progress events: at most one per 200 ms, except that the
/// last event of a stage always passes.
pub struct ThrottledProgress {
    last_emit_ms: Option<u64>,
}

impl ThrottledProgress {
    /// When an event last passed the limit; `None` before the first.
    pub closed spec fn spec_last_emit(&self) -> Option<u64> {
        self.last_emit_ms
    }

    /// A limiter that lets the first event pass.
    pub fn new() -> (r: Self)
        ensures
            r.spec_last_emit() is None,
    {
        ThrottledProgress { last_emit_ms: None }
    }

    /// Whether the event `current` of `total`, at `now_ms`, is to be
    /// emitted: the last event of a stage always is; any other only when
    /// 200 ms passed since the last one that the limit let through.
    pub fn report(&mut self, current: u64, total: u64, now_ms: u64) -> (emit: bool)
        ensures
            ({
                let done = current as int + 1 >= total as int;
                let due = match old(self).spec_last_emit() {
                    Some(t) => now_ms >= t && now_ms - t >= PROGRESS_INTERVAL_MS,
                    None => true,
                };
                &&& emit == (done || due)
                &&& final(self).spec_last_emit() == if !done && due { Some(now_ms) } else { old(self).spec_last_emit() }
            }),
    {
        let done = current >= total || total - current <= 1;
        if done {
            return true;
        }
        let due = match self.last_emit_ms {
            Some(t) => now_ms >= t && now_ms - t >= PROGRESS_INTERVAL_MS,
            None => true,
        };
        if due {
            self.last_emit_ms = Some(now_ms);
        }
        due
    }
}

/// A vector in reverse order.
fn reversed<T>(v: Vec<T>) -> (r: Vec<T>)
    ensures
        r@ == v@.reverse(),
{
    let ghost all = v@;
    let mut rest = v;
    let mut out: Vec<T> = Vec::new();
    while rest.len() > 0
        invariant
            all.len() == rest@.len() + out@.len(),
            rest@ == all.subrange(0, rest@.len() as int),
            out@ == all.reverse().subrange(0, out@.len() as int),
        decreases rest@.len(),
    {
        let x = rest.pop().unwrap();
        out.push(x);
        proof {
            assert(out@ =~= all.reverse().subrange(0, out@.len() as int));
        }
    }
    assert(out@ =~= all.reverse());
    out
}

/// The date fields of record `m` after a date pass found `r` for it.
pub open spec fn with_date(m: Media, r: Option<DateResult>) -> (Option<LocalDateTime>, u8) {
    match r {
        Some(d) => (Some(d.date), d.accuracy),
        None => (m.date, m.date_accuracy),
    }
}

/// Record `b` is record `a` with date fields `d`.
pub open spec fn dated(a: Media, b: Media, d: (Option<LocalDateTime>, u8)) -> bool {
    &&& b.zip_path == a.zip_path
    &&& b.zip_index == a.zip_index
    &&& b.entry_index == a.entry_index
    &&& b.filename == a.filename
    &&& b.size == a.size
    &&& b.hash == a.hash
    &&& b.albums == a.albums
    &&& b.date == d.0
    &&& b.date_accuracy == d.1
}

/// The sidecar-or-filename date of a record.
pub open spec fn spec_json_or_guess(m: Media, index: JsonDateIndex, allow_guess: bool) -> Option<DateResult> {
    spec_extract_date(spec_find_from(index, m.zip_path@, m.filename@, 0), None, spec_guess_date(m.filename@), allow_guess)
}

/// The in-memory date pass over the records from `from` on: each takes its
/// sidecar date, else (when allowed) the date its filename encodes; a
/// record with neither keeps its fields.
pub fn apply_json_and_guess(media: Vec<Media>, from: usize, json_dates: &JsonDateIndex, allow_guess: bool) -> (r: Vec<Media>)
    requires
        json_dates.wf(),
    ensures
        r@.len() == media@.len(),
        forall|i: int| 0 <= i < r@.len() ==> dated(media@[i], r@[i],
            if i >= from { with_date(media@[i], spec_json_or_guess(media@[i], *json_dates, allow_guess)) }
            else { (media@[i].date, media@[i].date_accuracy) }),
{
    let ghost all = media@;
    let n = media.len();
    let mut rest = media;
    let mut rev: Vec<Media> = Vec::new();
    while rest.len() > 0
        invariant
            json_dates.wf(),
            n == all.len(),
            rest@.len() + rev@.len() == n,
            rest@ == all.subrange(0, rest@.len() as int),
            forall|k: int| 0 <= k < rev@.len() ==> {
                let i = n - 1 - k;
                dated(all[i], #[trigger] rev@[k],
                    if i >= from { with_date(all[i], spec_json_or_guess(all[i], *json_dates, allow_guess)) }
                    else { (all[i].date, all[i].date_accuracy) })
            },
        decreases rest@.len(),
    {
        let mut m = rest.pop().unwrap();
        let i = rest.len();
        if i >= from {
            let jd = find_json_date(m.zip_path.as_str(), m.filename.as_str(), json_dates, false);
            let res = extract_date(jd, None, m.filename.as_str(), allow_guess);
            if let Some(d) = res {
                m.date = Some(d.date);
                m.date_accuracy = d.accuracy;
            }
        }
        rev.push(m);
    }
    let r = reversed(rev);
    assert forall|i: int| 0 <= i < r@.len() implies dated(all[i], r@[i],
        if i >= from { with_date(all[i], spec_json_or_guess(all[i], *json_dates, allow_guess)) }
        else { (all[i].date, all[i].date_accuracy) }) by {
        assert(r@[i] == rev@[n - 1 - i]);
    }
    r
}

/// Largest image read whole for EXIF.
pub const MAX_EXIF_SIZE: u64 = 32 * 1024 * 1024;

/// Record `m` is to be read for EXIF: undated, at most 32 MiB, an image.
pub open spec fn is_exif_target(m: Media) -> bool {
    m.date is None && m.size <= MAX_EXIF_SIZE && mime_top_of(m.filename@) == Some("image"@)
}

/// Indices, from `from` on and in order, of the records to read for EXIF.
pub fn exif_targets(media: &[Media], from: usize) -> (r: Vec<usize>)
    ensures
        forall|k: int| 0 <= k < r@.len() ==> from <= r@[k] < media@.len() && is_exif_target(media@[r@[k] as int]),
        forall|i: int| from <= i < media@.len() && is_exif_target(media@[i]) ==> r@.contains(i as usize),
        forall|a: int, b: int| 0 <= a < b < r@.len() ==> r@[a] < r@[b],
{
    let mut r: Vec<usize> = Vec::new();
    let mut i: usize = from;
    while i < media.len()
        invariant
            from <= i,
            forall|k: int| 0 <= k < r@.len() ==> from <= r@[k] < i && r@[k] < media@.len() && is_exif_target(media@[r@[k] as int]),
            forall|x: int| from <= x < i && x < media@.len() && is_exif_target(media@[x]) ==> r@.contains(x as usize),
            forall|a: int, b: int| 0 <= a < b < r@.len() ==> r@[a] < r@[b],
        decreases media@.len() - i,
    {
        let m = &media[i];
        let mut target = false;
        if m.date.is_none() && m.size <= MAX_EXIF_SIZE {
            if let Some(t) = mime_top(m.filename.as_str()) {
                target = str_eq(t.as_str(), "image");
                proof {
                    reveal_strlit("image");
                }
            }
        }
        let ghost r0 = r@;
        assert(target == is_exif_target(media@[i as int]));
        if target {
            r.push(i);
        }
        assert forall|x: int| from <= x < i + 1 && x < media@.len() && is_exif_target(media@[x]) implies r@.contains(x as usize) by {
            if x < i {
                let k = choose|k: int| 0 <= k < r0.len() && r0[k] == x as usize;
                assert(r@[k] == r0[k]);
            } else {
                assert(r@[r@.len() - 1] == i);
            }
        }
        i += 1;
    }
    r
}

/// Install the dates that the EXIF readers found: `results[i]`, when
/// present, becomes the date of record `i`.
pub fn apply_dates(media: Vec<Media>, results: &[Option<DateResult>]) -> (r: Vec<Media>)
    requires
        results@.len() == media@.len(),
    ensures
        r@.len() == media@.len(),
        forall|i: int| 0 <= i < r@.len() ==> dated(media@[i], r@[i], with_date(media@[i], results@[i])),
{
    let ghost all = media@;
    let n = media.len();
    let mut rest = media;
    let mut rev: Vec<Media> = Vec::new();
    while rest.len() > 0
        invariant
            n == all.len(),
            results@.len() == n,
            rest@.len() + rev@.len() == n,
            rest@ == all.subrange(0, rest@.len() as int),
            forall|k: int| 0 <= k < rev@.len() ==> dated(all[n - 1 - k], #[trigger] rev@[k], with_date(all[n - 1 - k], results@[n - 1 - k])),
        decreases rest@.len(),
    {
        let mut m = rest.pop().unwrap();
        let i = rest.len();
        if let Some(d) = results[i] {
            m.date = Some(d.date);
            m.date_accuracy = d.accuracy;
        }
        rev.push(m);
    }
    let r = reversed(rev);
    assert forall|i: int| 0 <= i < r@.len() implies dated(all[i], r@[i], with_date(all[i], results@[i])) by {
        assert(r@[i] == rev@[n - 1 - i]);
    }
    r
}


/// `name` is among the album names.
pub open spec fn album_in(albums: Seq<String>, name: Seq<char>) -> bool {
    exists|k: int| 0 <= k < albums.len() && #[trigger] albums[k]@ == name
}

/// Some record has the entry's filename and size and lists the album.
pub open spec fn has_member(ms: Seq<Media>, name: Seq<char>, filename: Seq<char>, size: u64) -> bool {
    exists|i: int| 0 <= i < ms.len() && #[trigger] ms[i].filename@ == filename && ms[i].size == size && album_in(ms[i].albums@, name)
}

/// `b` is `a` with album names appended to records and records appended.
pub open spec fn grows(a: Seq<Media>, b: Seq<Media>) -> bool {
    &&& b.len() >= a.len()
    &&& forall|i: int| 0 <= i < a.len() ==> {
        &&& (#[trigger] b[i]).filename == a[i].filename
        &&& b[i].zip_path == a[i].zip_path
        &&& b[i].zip_index == a[i].zip_index
        &&& b[i].entry_index == a[i].entry_index
        &&& b[i].size == a[i].size
        &&& b[i].hash == a[i].hash
        &&& b[i].date == a[i].date
        &&& b[i].date_accuracy == a[i].date_accuracy
        &&& b[i].albums@.len() >= a[i].albums@.len()
        &&& forall|k: int| 0 <= k < a[i].albums@.len() ==> b[i].albums@[k] == #[trigger] a[i].albums@[k]
    }
}

proof fn lemma_member_kept(a: Seq<Media>, b: Seq<Media>, name: Seq<char>, filename: Seq<char>, size: u64)
    requires
        grows(a, b),
        has_member(a, name, filename, size),
    ensures
        has_member(b, name, filename, size),
{
    let i = choose|i: int| 0 <= i < a.len() && #[trigger] a[i].filename@ == filename && a[i].size == size && album_in(a[i].albums@, name);
    let k = choose|k: int| 0 <= k < a[i].albums@.len() && #[trigger] a[i].albums@[k]@ == name;
    assert(b[i].albums@[k] == a[i].albums@[k]);
    assert(b[i].filename@ == filename);
}

fn last_match(media: &Vec<Media>, groups: &HashMap<u64, Vec<usize>>, filename: &str, size: u64) -> (r: Option<usize>)
    requires
        groups_ok(media@, groups@, media@.len() as int),
    ensures
        match r {
            Some(i) => i < media@.len() && media@[i as int].filename@ == filename@ && media@[i as int].size == size,
            None => forall|i: int| 0 <= i < media@.len() ==> !(media@[i].filename@ == filename@ && media@[i].size == size),
        },
{
    let g = match groups.get(&size) {
        Some(g) => g,
        None => {
            assert forall|i: int| 0 <= i < media@.len() implies !(media@[i].filename@ == filename@ && media@[i].size == size) by {
                assert(groups@.contains_key(media@[i].size));
            }
            return None;
        },
    };
    let n = media.len();
    let mut x: usize = g.len();
    while x > 0
        invariant
            n == media@.len(),
            groups_ok(media@, groups@, media@.len() as int),
            groups@.contains_key(size),
            *g == groups@[size],
            x <= g@.len(),
            forall|y: int| x <= y < g@.len() ==> media@[g@[y] as int].filename@ != filename@,
        decreases x,
    {
        x -= 1;
        let j = g[x];
        if str_eq(media[j].filename.as_str(), filename) {
            return Some(j);
        }
    }
    assert forall|i: int| 0 <= i < media@.len() implies !(media@[i].filename@ == filename@ && media@[i].size == size) by {
        if media@[i].size == size {
            assert(groups@[media@[i].size]@.contains(i as usize));
            let y = choose|y: int| 0 <= y < g@.len() && g@[y] == i as usize;
            assert(g@[y] as int == i);
        }
    }
    None
}

fn album_listed(albums: &Vec<String>, name: &str) -> (r: bool)
    ensures
        r == album_in(albums@, name@),
{
    let mut k: usize = 0;
    while k < albums.len()
        invariant
            k <= albums@.len(),
            forall|j: int| 0 <= j < k ==> albums@[j]@ != name@,
        decreases albums@.len() - k,
    {
        if str_eq(albums[k].as_str(), name) {
            return true;
        }
        k += 1;
    }
    false
}

/// Records from position `from` on have a filename and size that no
/// earlier record has.
pub open spec fn appended_are_new(ms: Seq<Media>, from: int) -> bool {
    forall|k1: int, k2: int| 0 <= k1 < k2 < ms.len() && k2 >= from
        ==> !(#[trigger] ms[k1].filename@ == #[trigger] ms[k2].filename@ && ms[k1].size == ms[k2].size)
}

/// Merge album members into the records: a member joins the last record
/// of the same filename and size (adding the album once), or else becomes a
/// new record of that album. Afterwards each member has a record of its
/// filename and size that lists its album.
pub fn merge_albums(media: &mut Vec<Media>, groups: &[AlbumGroup])
    ensures
        grows(old(media)@, final(media)@),
        forall|g: int, e: int| 0 <= g < groups@.len() && 0 <= e < groups@[g].entries@.len()
            ==> has_member(final(media)@, groups@[g].name@, #[trigger] groups@[g].entries@[e].filename@, groups@[g].entries@[e].size),
        appended_are_new(final(media)@, old(media)@.len() as int),
{
    let ghost start = media@;
    let mut sizes = size_groups(media.as_slice());
    let mut g: usize = 0;
    while g < groups.len()
        invariant
            g <= groups@.len(),
            grows(start, media@),
            appended_are_new(media@, start.len() as int),
            groups_ok(media@, sizes@, media@.len() as int),
            forall|g2: int, e: int| 0 <= g2 < g && 0 <= e < groups@[g2].entries@.len()
                ==> has_member(media@, groups@[g2].name@, #[trigger] groups@[g2].entries@[e].filename@, groups@[g2].entries@[e].size),
        decreases groups@.len() - g,
    {
        let group = &groups[g];
        let mut e: usize = 0;
        while e < group.entries.len()
            invariant
                g < groups@.len(),
                *group == groups@[g as int],
                e <= group.entries@.len(),
                grows(start, media@),
                appended_are_new(media@, start.len() as int),
                groups_ok(media@, sizes@, media@.len() as int),
                forall|g2: int, e2: int| 0 <= g2 < g && 0 <= e2 < groups@[g2].entries@.len()
                    ==> has_member(media@, groups@[g2].name@, #[trigger] groups@[g2].entries@[e2].filename@, groups@[g2].entries@[e2].size),
                forall|e2: int| 0 <= e2 < e
                    ==> has_member(media@, group.name@, #[trigger] group.entries@[e2].filename@, group.entries@[e2].size),
            decreases group.entries@.len() - e,
        {
            let ae = &group.entries[e];
            let ghost before = media@;
            match last_match(media, &sizes, ae.filename.as_str(), ae.size) {
                Some(i) => {
                    if !album_listed(&media[i].albums, group.name.as_str()) {
                        media[i].albums.push(group.name.clone());
                        assert(media@[i as int].albums@.last()@ == group.name@);
                    }
                    assert(album_in(media@[i as int].albums@, group.name@));
                    proof {
                        assert forall|j: int| 0 <= j < before.len() implies #[trigger] media@[j].size == before[j].size by {
                            if j != i {
                                assert(media@[j] == before[j]);
                            }
                        }
                        lemma_groups_same_sizes(before, media@, sizes@, before.len() as int);
                    }
                },
                None => {
                    let mut m = Media::new(ae.zip_path.clone(), ae.zip_index, ae.entry_index, ae.filename.clone(), ae.size);
                    m.albums.push(group.name.clone());
                    let n = media.len();
                    media.push(m);
                    proof {
                        assert forall|j: int| 0 <= j < before.len() implies #[trigger] media@[j].size == before[j].size by {
                            assert(media@[j] == before[j]);
                        }
                        lemma_groups_same_sizes(before, media@, sizes@, before.len() as int);
                    }
                    add_to_group(&mut sizes, Ghost(media@), n, ae.size);
                    assert(album_in(media@.last().albums@, group.name@)) by {
                        assert(media@.last().albums@[0]@ == group.name@);
                    }
                    assert(media@.last().filename@ == ae.filename@);
                },
            }
            proof {
                assert(grows(before, media@));
                assert forall|k1: int, k2: int| 0 <= k1 < k2 < media@.len() && k2 >= start.len()
                    implies !(#[trigger] media@[k1].filename@ == #[trigger] media@[k2].filename@ && media@[k1].size == media@[k2].size) by {
                    if k2 < before.len() {
                        assert(media@[k1].filename == before[k1].filename && media@[k1].size == before[k1].size);
                        assert(media@[k2].filename == before[k2].filename && media@[k2].size == before[k2].size);
                    } else {
                        assert(media@[k1].filename == before[k1].filename && media@[k1].size == before[k1].size);
                    }
                }
                assert forall|i: int| 0 <= i < start.len() implies {
                    &&& (#[trigger] media@[i]).filename == start[i].filename
                    &&& media@[i].zip_path == start[i].zip_path
                    &&& media@[i].zip_index == start[i].zip_index
                    &&& media@[i].entry_index == start[i].entry_index
                    &&& media@[i].size == start[i].size
                    &&& media@[i].hash == start[i].hash
                    &&& media@[i].date == start[i].date
                    &&& media@[i].date_accuracy == start[i].date_accuracy
                    &&& media@[i].albums@.len() >= start[i].albums@.len()
                    &&& forall|k: int| 0 <= k < start[i].albums@.len() ==> media@[i].albums@[k] == #[trigger] start[i].albums@[k]
                } by {
                    assert(before[i].albums@.len() >= start[i].albums@.len());
                    assert forall|k: int| 0 <= k < start[i].albums@.len() implies media@[i].albums@[k] == #[trigger] start[i].albums@[k] by {
                        assert(before[i].albums@[k] == start[i].albums@[k]);
                    }
                }
                assert forall|g2: int, e2: int| 0 <= g2 < g && 0 <= e2 < groups@[g2].entries@.len()
                    implies has_member(media@, groups@[g2].name@, #[trigger] groups@[g2].entries@[e2].filename@, groups@[g2].entries@[e2].size) by {
                    lemma_member_kept(before, media@, groups@[g2].name@, groups@[g2].entries@[e2].filename@, groups@[g2].entries@[e2].size);
                }
                assert forall|e2: int| 0 <= e2 < e + 1
                    implies has_member(media@, group.name@, #[trigger] group.entries@[e2].filename@, group.entries@[e2].size) by {
                    if e2 < e {
                        lemma_member_kept(before, media@, group.name@, group.entries@[e2].filename@, group.entries@[e2].size);
                    }
                }
            }
            e += 1;
        }
        g += 1;
    }
}

} // verus!
