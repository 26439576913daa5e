//! Media records and duplicate removal.
use vstd::prelude::*;
use std::collections::HashMap;
use crate::date::{LocalDateTime, ACCURACY_NONE};

verus! {

broadcast use vstd::std_specs::hash::group_hash_axioms;

/// One photo or video found in an archive.
#[derive(Debug)]
pub struct Media {
    /// Path inside the archive.
    pub zip_path: String,
    /// Which input archive holds it.
    pub zip_index: usize,
    /// Position of the entry inside its archive.
    pub entry_index: usize,
    /// The last component of `zip_path`.
    pub filename: String,
    /// Size in bytes.
    pub size: u64,
    /// Hex SHA-256 of the content, computed only where another record has
    /// the same size.
    pub hash: Option<String>,
    /// Capture time.
    pub date: Option<LocalDateTime>,
    /// Rank of the date's source: 0 best, 255 none.
    pub date_accuracy: u8,
    /// Albums it belongs to, in order of first mention.
    pub albums: Vec<String>,
}

impl Media {
    /// A record with no hash, no date and no album.
    pub fn new(zip_path: String, zip_index: usize, entry_index: usize, filename: String, size: u64) -> (r: Self)
        ensures
            r.zip_path@ == zip_path@,
            r.zip_index == zip_index,
            r.entry_index == entry_index,
            r.filename@ == filename@,
            r.size == size,
            r.hash is None,
            r.date is None,
            r.date_accuracy == ACCURACY_NONE,
            r.albums@.len() == 0,
    {
        Media {
            zip_path,
            zip_index,
            entry_index,
            filename,
            size,
            hash: None,
            date: None,
            date_accuracy: ACCURACY_NONE,
            albums: Vec::new(),
        }
    }
}

/// Byte length of a filename in UTF-8, as `str::len` reports it.
pub open spec fn name_len(s: Seq<char>) -> usize {
    vstd::utf8::encode_utf8(s).len() as usize
}

/// Records `i` and `j` carry the same size and the same hash.
pub open spec fn same_content(ms: Seq<Media>, i: int, j: int) -> bool {
    &&& ms[i].hash is Some
    &&& ms[j].hash is Some
    &&& ms[i].size == ms[j].size
    &&& ms[i].hash->0@ == ms[j].hash->0@
}

/// Record `j` ranks before record `i`: better date accuracy, then a shorter
/// filename, then an earlier position.
pub open spec fn ranks_before(ms: Seq<Media>, j: int, i: int) -> bool {
    ||| ms[j].date_accuracy < ms[i].date_accuracy
    ||| (ms[j].date_accuracy == ms[i].date_accuracy && name_len(ms[j].filename@) < name_len(ms[i].filename@))
    ||| (ms[j].date_accuracy == ms[i].date_accuracy && name_len(ms[j].filename@) == name_len(ms[i].filename@) && j < i)
}

/// Record `i` is a duplicate to drop: another record with the same content
/// ranks before it.
pub open spec fn is_dropped(ms: Seq<Media>, i: int) -> bool {
    exists|j: int| 0 <= j < ms.len() && j != i && #[trigger] same_content(ms, i, j) && ranks_before(ms, j, i)
}

/// The records among the first `n` that survive, in order.
pub open spec fn survivors_upto(ms: Seq<Media>, n: int) -> Seq<Media>
    decreases n,
{
    if n <= 0 {
        Seq::empty()
    } else if is_dropped(ms, n - 1) {
        survivors_upto(ms, n - 1)
    } else {
        survivors_upto(ms, n - 1).push(ms[n - 1])
    }
}

/// The records that survive duplicate removal, in order.
pub open spec fn survivors(ms: Seq<Media>) -> Seq<Media> {
    survivors_upto(ms, ms.len() as int)
}

/// Some other record has the same size.
pub open spec fn size_shared(ms: Seq<Media>, i: int) -> bool {
    exists|j: int| 0 <= j < ms.len() && j != i && #[trigger] ms[j].size == ms[i].size
}

/// `groups` lists, under each size, the positions of the records of that
/// size, ascending, and every record is listed.
pub open spec fn groups_ok(ms: Seq<Media>, groups: Map<u64, Vec<usize>>, n: int) -> bool {
    &&& forall|sz: u64, k: int| groups.contains_key(sz) && 0 <= k < groups[sz]@.len()
        ==> #[trigger] groups[sz]@[k] < n && ms[groups[sz]@[k] as int].size == sz
    &&& forall|j: int| 0 <= j < n ==> groups.contains_key(#[trigger] ms[j].size) && groups[ms[j].size]@.contains(j as usize)
    &&& forall|sz: u64, a: int, b: int| groups.contains_key(sz) && 0 <= a < b < groups[sz]@.len()
        ==> #[trigger] groups[sz]@[a] < #[trigger] groups[sz]@[b]
}

/// List record `i` under its size `sz`.
pub fn add_to_group(groups: &mut HashMap<u64, Vec<usize>>, ms: Ghost<Seq<Media>>, i: usize, sz: u64)
    requires
        groups_ok(ms@, old(groups)@, i as int),
        i < ms@.len(),
        ms@[i as int].size == sz,
    ensures
        groups_ok(ms@, final(groups)@, i + 1),
{
    let ghost media = ms@;
    let ghost g0 = groups@;
    let mut bucket = match groups.remove(&sz) {
        Some(b) => b,
        None => Vec::new(),
    };
    let ghost b0 = bucket@;
    assert(g0.contains_key(sz) ==> b0 == g0[sz]@);
    assert(!g0.contains_key(sz) ==> b0.len() == 0);
    bucket.push(i);
    groups.insert(sz, bucket);
    proof {
        assert forall|s2: u64, k: int| groups@.contains_key(s2) && 0 <= k < groups@[s2]@.len()
            implies #[trigger] groups@[s2]@[k] < i + 1 && media[groups@[s2]@[k] as int].size == s2 by {
            if s2 != sz {
                assert(groups@[s2] == g0[s2]);
            } else if k < b0.len() {
                assert(groups@[s2]@[k] == g0[sz]@[k]);
            }
        }
        assert forall|j: int| 0 <= j < i + 1 implies groups@.contains_key(#[trigger] media[j].size) && groups@[media[j].size]@.contains(j as usize) by {
            if j < i {
                let s2 = media[j].size;
                if s2 != sz {
                    assert(groups@[s2] == g0[s2]);
                } else {
                    let x = choose|x: int| 0 <= x < g0[sz]@.len() && g0[sz]@[x] == j as usize;
                    assert(groups@[sz]@[x] == j as usize);
                }
            } else {
                assert(groups@[sz]@[b0.len() as int] == i);
            }
        }
        assert forall|s2: u64, a: int, b: int| groups@.contains_key(s2) && 0 <= a < b < groups@[s2]@.len()
            implies #[trigger] groups@[s2]@[a] < #[trigger] groups@[s2]@[b] by {
            if s2 != sz {
                assert(groups@[s2] == g0[s2]);
            } else if b < b0.len() {
                assert(groups@[s2]@[a] == g0[sz]@[a]);
                assert(groups@[s2]@[b] == g0[sz]@[b]);
            } else {
                assert(groups@[s2]@[a] == g0[sz]@[a]);
            }
        }
    }
}

/// Groups stay right for records whose sizes did not change.
pub proof fn lemma_groups_same_sizes(ms1: Seq<Media>, ms2: Seq<Media>, g: Map<u64, Vec<usize>>, n: int)
    requires
        groups_ok(ms1, g, n),
        n <= ms1.len(),
        n <= ms2.len(),
        forall|j: int| 0 <= j < n ==> #[trigger] ms2[j].size == ms1[j].size,
    ensures
        groups_ok(ms2, g, n),
{
    assert forall|sz: u64, k: int| g.contains_key(sz) && 0 <= k < g[sz]@.len()
        implies #[trigger] g[sz]@[k] < n && ms2[g[sz]@[k] as int].size == sz by {
        assert(ms2[g[sz]@[k] as int].size == ms1[g[sz]@[k] as int].size);
    }
    assert forall|j: int| 0 <= j < n implies g.contains_key(#[trigger] ms2[j].size) && g[ms2[j].size]@.contains(j as usize) by {
        assert(ms1[j].size == ms2[j].size);
    }
}

/// Positions of the records, grouped by size.
pub fn size_groups(media: &[Media]) -> (r: HashMap<u64, Vec<usize>>)
    ensures
        groups_ok(media@, r@, media@.len() as int),
{
    let mut groups: HashMap<u64, Vec<usize>> = HashMap::new();
    let mut i: usize = 0;
    while i < media.len()
        invariant
            i <= media@.len(),
            groups_ok(media@, groups@, i as int),
        decreases media@.len() - i,
    {
        add_to_group(&mut groups, Ghost(media@), i, media[i].size);
        i += 1;
    }
    groups
}

/// Indices of the records that share their size with another record: the
/// ones whose content must be hashed.
pub fn needs_hash(media: &[Media]) -> (r: Vec<usize>)
    ensures
        forall|k: int| 0 <= k < r@.len() ==> r@[k] < media@.len() && size_shared(media@, r@[k] as int),
        forall|i: int| 0 <= i < media@.len() && size_shared(media@, i) ==> r@.contains(i as usize),
        forall|a: int, b: int| 0 <= a < b < r@.len() ==> r@[a] < r@[b],
{
    let groups = size_groups(media);
    let mut r: Vec<usize> = Vec::new();
    let mut i: usize = 0;
    while i < media.len()
        invariant
            i <= media@.len(),
            groups_ok(media@, groups@, media@.len() as int),
            forall|k: int| 0 <= k < r@.len() ==> r@[k] < i && size_shared(media@, r@[k] as int),
            forall|x: int| 0 <= x < i && size_shared(media@, x) ==> r@.contains(x as usize),
            forall|a: int, b: int| 0 <= a < b < r@.len() ==> r@[a] < r@[b],
        decreases media@.len() - i,
    {
        let sz = media[i].size;
        let shared = match groups.get(&sz) {
            Some(g) => g.len() >= 2,
            None => false,
        };
        proof {
            let g = groups@[sz]@;
            assert(groups@.contains_key(media@[i as int].size));
            let xi = choose|x: int| 0 <= x < g.len() && g[x] == i;
            if shared {
                let other: int = if xi == 0 { 1 } else { 0 };
                assert(g[other] != g[xi]) by {
                    if other < xi { assert(g[other] < g[xi]); } else { assert(g[xi] < g[other]); }
                }
                assert(media@[g[other] as int].size == media@[i as int].size);
                assert(size_shared(media@, i as int));
            } else {
                if size_shared(media@, i as int) {
                    let j = choose|j: int| 0 <= j < media@.len() && j != i && #[trigger] media@[j].size == media@[i as int].size;
                    assert(groups@[media@[j].size]@.contains(j as usize));
                    let xj = choose|x: int| 0 <= x < g.len() && g[x] == j as usize;
                    assert(xj != xi);
                }
            }
        }
        let ghost r0 = r@;
        if shared {
            r.push(i);
            assert(r@[r@.len() - 1] == i);
        }
        assert forall|x: int| 0 <= x < i + 1 && size_shared(media@, x) implies r@.contains(x as usize) by {
            if x < i {
                assert(r0.contains(x as usize));
                let k = choose|k: int| 0 <= k < r0.len() && r0[k] == x as usize;
                assert(r@[k] == r0[k]);
            } else {
                assert(r@[r@.len() - 1] == i);
            }
        }
        i += 1;
    }
    r
}

/// Result of duplicate removal.
pub struct DedupResult {
    pub media: Vec<Media>,
    pub warnings: Vec<String>,
}

fn same_hash(a: &Option<String>, b: &Option<String>) -> (r: bool)
    ensures
        r == (a is Some && b is Some && a->0@ == b->0@),
{
    match (a, b) {
        (Some(x), Some(y)) => x.eq(y),
        _ => false,
    }
}

/// Whether record `i` is a duplicate to drop, comparing it with the
/// records of its size only.
fn dropped(media: &[Media], groups: &HashMap<u64, Vec<usize>>, i: usize) -> (r: bool)
    requires
        i < media@.len(),
        groups_ok(media@, groups@, media@.len() as int),
    ensures
        r == is_dropped(media@, i as int),
{
    let sz = media[i].size;
    assert(groups@.contains_key(media@[i as int].size));
    let g = match groups.get(&sz) {
        Some(g) => g,
        None => { return false; },
    };
    let mut x: usize = 0;
    while x < g.len()
        invariant
            i < media@.len(),
            groups_ok(media@, groups@, media@.len() as int),
            groups@.contains_key(sz),
            sz == media@[i as int].size,
            *g == groups@[sz],
            x <= g@.len(),
            forall|y: int| 0 <= y < x ==> !(g@[y] != i && #[trigger] same_content(media@, i as int, g@[y] as int) && ranks_before(media@, g@[y] as int, i as int)),
        decreases g@.len() - x,
    {
        let j = g[x];
        assert(j < media@.len());
        if j != i && media[j].size == media[i].size && same_hash(&media[i].hash, &media[j].hash) {
            let aj = media[j].date_accuracy;
            let ai = media[i].date_accuracy;
            let lj = media[j].filename.as_str().len();
            let li = media[i].filename.as_str().len();
            if aj < ai || (aj == ai && (lj < li || (lj == li && j < i))) {
                assert(same_content(media@, i as int, j as int));
                return true;
            }
        }
        x += 1;
    }
    proof {
        if is_dropped(media@, i as int) {
            let j = choose|j: int| 0 <= j < media@.len() && j != i && #[trigger] same_content(media@, i as int, j) && ranks_before(media@, j, i as int);
            assert(groups@[media@[j].size]@.contains(j as usize));
            let y = choose|y: int| 0 <= y < g@.len() && g@[y] == j as usize;
            assert(g@[y] as int == j);
        }
    }
    false
}

/// Remove duplicates: among records of equal size and hash, keep only the
/// one with the best date accuracy, then the shortest filename, then the
/// first position. Records without a hash are kept. The survivors keep
/// their order.
pub fn deduplicate(media: Vec<Media>, warnings: Vec<String>) -> (r: DedupResult)
    ensures
        r.media@ == survivors(media@),
        r.warnings@ == warnings@,
{
    let n = media.len();
    let groups = size_groups(media.as_slice());
    let mut drop_flags: Vec<bool> = Vec::new();
    let mut i: usize = 0;
    while i < n
        invariant
            n == media@.len(),
            groups_ok(media@, groups@, n as int),
            i <= n,
            drop_flags@.len() == i,
            forall|k: int| 0 <= k < i ==> drop_flags@[k] == is_dropped(media@, k),
        decreases n - i,
    {
        let d = dropped(media.as_slice(), &groups, i);
        drop_flags.push(d);
        i += 1;
    }
    let ghost all = media@;
    let mut rest = media;
    let mut reversed: Vec<Media> = Vec::new();
    let mut k: usize = n;
    while k > 0
        invariant
            k <= n,
            n == all.len(),
            drop_flags@.len() == n,
            forall|x: int| 0 <= x < n ==> drop_flags@[x] == is_dropped(all, x),
            rest@ == all.subrange(0, k as int),
            survivors(all) == survivors_upto(all, k as int) + reversed@.reverse(),
        decreases k,
    {
        let m = rest.pop().unwrap();
        k -= 1;
        proof {
            assert(rest@ =~= all.subrange(0, k as int));
        }
        if !drop_flags[k] {
            let ghost before = reversed@;
            reversed.push(m);
            proof {
                assert(reversed@.reverse() =~= seq![m] + before.reverse());
                assert(survivors_upto(all, k + 1) == survivors_upto(all, k as int).push(all[k as int]));
                assert(survivors_upto(all, k as int).push(all[k as int]) + before.reverse()
                    =~= survivors_upto(all, k as int) + (seq![m] + before.reverse()));
            }
        }
    }
    let mut out: Vec<Media> = Vec::new();
    let ghost rev = reversed@;
    assert(survivors(all) == rev.reverse()) by {
        assert(survivors_upto(all, 0) + rev.reverse() =~= rev.reverse());
    }
    while reversed.len() > 0
        invariant
            rev.len() == out@.len() + reversed@.len(),
            reversed@ == rev.subrange(0, reversed@.len() as int),
            out@ == rev.reverse().subrange(0, out@.len() as int),
        decreases reversed@.len(),
    {
        let m = reversed.pop().unwrap();
        out.push(m);
        proof {
            assert(out@ =~= rev.reverse().subrange(0, out@.len() as int));
        }
    }
    assert(out@ =~= rev.reverse());
    DedupResult { media: out, warnings }
}


/// The best-ranked record among the first `n` that has the same content as
/// record `i`; -1 when there is none.
pub open spec fn best_upto(ms: Seq<Media>, i: int, n: int) -> int
    decreases n,
{
    if n <= 0 {
        -1
    } else {
        let b = best_upto(ms, i, n - 1);
        if same_content(ms, i, n - 1) && (b == -1 || ranks_before(ms, n - 1, b)) {
            n - 1
        } else {
            b
        }
    }
}

proof fn lemma_best_upto(ms: Seq<Media>, i: int, n: int)
    requires
        0 <= i < ms.len(),
        0 <= n <= ms.len(),
    ensures
        best_upto(ms, i, n) == -1 || (0 <= best_upto(ms, i, n) < n && same_content(ms, i, best_upto(ms, i, n))),
        best_upto(ms, i, n) == -1 ==> forall|k: int| 0 <= k < n ==> !same_content(ms, i, k),
        forall|k: int| 0 <= k < n && same_content(ms, i, k) && k != best_upto(ms, i, n)
            ==> ranks_before(ms, best_upto(ms, i, n), k),
    decreases n,
{
    if n > 0 {
        lemma_best_upto(ms, i, n - 1);
        let b = best_upto(ms, i, n - 1);
        assert forall|k: int| 0 <= k < n && same_content(ms, i, k) && k != best_upto(ms, i, n)
            implies ranks_before(ms, best_upto(ms, i, n), k) by {
            if k < n - 1 && k != b && b != -1 && best_upto(ms, i, n) == n - 1 {
                assert(ranks_before(ms, b, k));
                assert(ranks_before(ms, n - 1, b));
            }
        }
    }
}

/// Deduplication keeps exactly one record of each content: for a record
/// `i` that has a hash, exactly one record of equal size and hash is not
/// dropped, and no record of that content has a better date accuracy, or
/// the same accuracy and a shorter filename.
pub proof fn lemma_dedup_keeps_best(ms: Seq<Media>, i: int)
    requires
        0 <= i < ms.len(),
        ms[i].hash is Some,
    ensures
        exists|j: int| 0 <= j < ms.len() && #[trigger] same_content(ms, i, j) && !is_dropped(ms, j),
        forall|j1: int, j2: int|
            0 <= j1 < ms.len() && 0 <= j2 < ms.len() && #[trigger] same_content(ms, i, j1) && #[trigger] same_content(ms, i, j2)
                && !is_dropped(ms, j1) && !is_dropped(ms, j2) ==> j1 == j2,
        forall|j: int, k: int|
            0 <= j < ms.len() && 0 <= k < ms.len() && #[trigger] same_content(ms, i, j) && !is_dropped(ms, j)
                && #[trigger] same_content(ms, i, k) ==> ms[j].date_accuracy < ms[k].date_accuracy
                || (ms[j].date_accuracy == ms[k].date_accuracy && name_len(ms[j].filename@) <= name_len(ms[k].filename@)),
{
    let n = ms.len() as int;
    lemma_best_upto(ms, i, n);
    let b = best_upto(ms, i, n);
    assert(same_content(ms, i, i));
    assert(!is_dropped(ms, b)) by {
        if is_dropped(ms, b) {
            let j = choose|j: int| 0 <= j < ms.len() && j != b && #[trigger] same_content(ms, b, j) && ranks_before(ms, j, b);
            assert(same_content(ms, i, j));
            assert(ranks_before(ms, b, j));
        }
    }
    assert(same_content(ms, i, b));
    assert forall|j1: int, j2: int|
        0 <= j1 < ms.len() && 0 <= j2 < ms.len() && #[trigger] same_content(ms, i, j1) && #[trigger] same_content(ms, i, j2)
            && !is_dropped(ms, j1) && !is_dropped(ms, j2) implies j1 == j2 by {
        if j1 != j2 {
            assert(same_content(ms, j1, j2));
            assert(same_content(ms, j2, j1));
            if ranks_before(ms, j1, j2) {
                assert(is_dropped(ms, j2));
            } else {
                assert(ranks_before(ms, j2, j1));
                assert(is_dropped(ms, j1));
            }
        }
    }
    assert forall|j: int, k: int|
        0 <= j < ms.len() && 0 <= k < ms.len() && #[trigger] same_content(ms, i, j) && !is_dropped(ms, j)
            && #[trigger] same_content(ms, i, k) implies ms[j].date_accuracy < ms[k].date_accuracy
            || (ms[j].date_accuracy == ms[k].date_accuracy && name_len(ms[j].filename@) <= name_len(ms[k].filename@)) by {
        if k != j {
            assert(same_content(ms, j, k));
            if ranks_before(ms, k, j) {
                assert(is_dropped(ms, j));
            }
        }
    }
}


/// Positions of the surviving records among the first `n`, in order.
pub open spec fn survivor_positions_upto(ms: Seq<Media>, n: int) -> Seq<int>
    decreases n,
{
    if n <= 0 {
        Seq::empty()
    } else if is_dropped(ms, n - 1) {
        survivor_positions_upto(ms, n - 1)
    } else {
        survivor_positions_upto(ms, n - 1).push(n - 1)
    }
}

proof fn lemma_survivor_positions(ms: Seq<Media>, n: int)
    requires
        0 <= n <= ms.len(),
    ensures
        ({
            let p = survivor_positions_upto(ms, n);
            let r = survivors_upto(ms, n);
            &&& p.len() == r.len()
            &&& forall|k: int| 0 <= k < p.len() ==> 0 <= #[trigger] p[k] < n && r[k] == ms[p[k]] && !is_dropped(ms, p[k])
            &&& forall|a: int, b: int| 0 <= a < b < p.len() ==> #[trigger] p[a] < #[trigger] p[b]
            &&& forall|i: int| 0 <= i < n && !is_dropped(ms, i) ==> p.contains(i)
        }),
    decreases n,
{
    if n > 0 {
        lemma_survivor_positions(ms, n - 1);
        let p0 = survivor_positions_upto(ms, n - 1);
        let p = survivor_positions_upto(ms, n);
        if !is_dropped(ms, n - 1) {
            assert(p == p0.push(n - 1));
            assert forall|i: int| 0 <= i < n && !is_dropped(ms, i) implies p.contains(i) by {
                if i < n - 1 {
                    let k = choose|k: int| 0 <= k < p0.len() && p0[k] == i;
                    assert(p[k] == i);
                } else {
                    assert(p[p0.len() as int] == i);
                }
            }
        }
    }
}

/// Result record `x` has the same size and hash as input record `i`.
pub open spec fn same_content_as(x: Media, m: Media) -> bool {
    x.hash is Some && m.hash is Some && x.size == m.size && x.hash->0@ == m.hash->0@
}

/// Deduplication leaves exactly one record of each content: for an input
/// record with a hash, exactly one record of the result has its size and
/// hash, and no input record of that content has a better date accuracy,
/// or the same accuracy and a shorter filename.
pub proof fn lemma_dedup_result(ms: Seq<Media>, i: int)
    requires
        0 <= i < ms.len(),
        ms[i].hash is Some,
    ensures
        exists|k: int| 0 <= k < survivors(ms).len() && same_content_as(#[trigger] survivors(ms)[k], ms[i]),
        forall|k1: int, k2: int| 0 <= k1 < survivors(ms).len() && 0 <= k2 < survivors(ms).len()
            && same_content_as(#[trigger] survivors(ms)[k1], ms[i]) && same_content_as(#[trigger] survivors(ms)[k2], ms[i]) ==> k1 == k2,
        forall|k: int, y: int| 0 <= k < survivors(ms).len() && 0 <= y < ms.len()
            && same_content_as(#[trigger] survivors(ms)[k], ms[i]) && #[trigger] same_content(ms, i, y)
            ==> survivors(ms)[k].date_accuracy < ms[y].date_accuracy
                || (survivors(ms)[k].date_accuracy == ms[y].date_accuracy
                    && name_len(survivors(ms)[k].filename@) <= name_len(ms[y].filename@)),
{
    let n = ms.len() as int;
    lemma_survivor_positions(ms, n);
    lemma_dedup_keeps_best(ms, i);
    let p = survivor_positions_upto(ms, n);
    let r = survivors(ms);
    let j = choose|j: int| 0 <= j < ms.len() && #[trigger] same_content(ms, i, j) && !is_dropped(ms, j);
    let k = choose|k: int| 0 <= k < p.len() && p[k] == j;
    assert(same_content_as(r[k], ms[i]));
    assert forall|k1: int, k2: int| 0 <= k1 < r.len() && 0 <= k2 < r.len()
        && same_content_as(#[trigger] r[k1], ms[i]) && same_content_as(#[trigger] r[k2], ms[i]) implies k1 == k2 by {
        assert(same_content(ms, i, p[k1]));
        assert(same_content(ms, i, p[k2]));
        if k1 < k2 {
            assert(p[k1] < p[k2]);
        } else if k2 < k1 {
            assert(p[k2] < p[k1]);
        }
    }
    assert forall|k: int, y: int| 0 <= k < r.len() && 0 <= y < ms.len()
        && same_content_as(#[trigger] r[k], ms[i]) && #[trigger] same_content(ms, i, y)
        implies r[k].date_accuracy < ms[y].date_accuracy
            || (r[k].date_accuracy == ms[y].date_accuracy && name_len(r[k].filename@) <= name_len(ms[y].filename@)) by {
        assert(same_content(ms, i, p[k]));
        assert(r[k] == ms[p[k]]);
    }
}

} // verus!
