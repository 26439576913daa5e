//! Album output: the per-album copies under `<out>/albums`, and the rows of
//! `albums.json`.
use vstd::prelude::*;
use crate::media::Media;
use crate::text::{chars_of, copy_chars, starts_with, starts_with_exec, string_of};
use crate::pathset::PathSet;
use crate::writer::{slash_join, spec_numbered, spec_existing_size, ExistingFile};

verus! {

/// The folder of an album: `<out>/albums/<name>`.
pub open spec fn spec_album_dir(out: Seq<char>, album: Seq<char>) -> Seq<char> {
    slash_join(slash_join(out, "albums"@), album)
}

/// The relative path from a folder to a file, as pathdiff computes it.
pub uninterp spec fn relative_path_of(path: Seq<char>, base: Seq<char>) -> Option<Seq<char>>;

/// Relies on pathdiff's `diff_paths`: the path of `path` relative to `base`,
/// when one can be formed; it depends on the two paths alone.
#[verifier::external_body]
fn diff_paths(path: &str, base: &str) -> (r: Option<String>)
    ensures
        match r {
            Some(t) => relative_path_of(path@, base@) == Some(t@),
            None => relative_path_of(path@, base@) is None,
        },
{
    pathdiff::diff_paths(path, base).map(|p| p.to_string_lossy().into_owned())
}

/// What a relative link in an album folder points to: the written file
/// relative to the album folder, or the written path itself when no
/// relative path can be formed.
pub open spec fn spec_link_target(source: Seq<char>, album_dir: Seq<char>) -> Seq<char> {
    match relative_path_of(source, album_dir) {
        Some(t) => t,
        None => source,
    }
}

/// The target of a relative link to `source` placed in `album_dir`.
pub fn link_target(source: &str, album_dir: &str) -> (r: String)
    ensures
        r@ == spec_link_target(source@, album_dir@),
{
    match diff_paths(source, album_dir) {
        Some(t) => t,
        None => String::from_str(source),
    }
}

/// One file to mirror into an album folder.
pub struct AlbumCopy {
    /// Where the file was written.
    pub source: String,
    /// The album folder.
    pub album_dir: String,
    /// The path of the copy or link.
    pub dest: String,
}

/// What a plan of album copies says of one copy: it sits in its album's
/// folder under the file's name or a numbered one, and no file exists there.
pub open spec fn album_copy_ok(out: Seq<char>, album: Seq<char>, filename: Seq<char>, source: Seq<char>, c: AlbumCopy, existing: Seq<ExistingFile>) -> bool {
    let dir = spec_album_dir(out, album);
    &&& c.album_dir@ == dir
    &&& c.source@ == source
    &&& (c.dest@ == slash_join(dir, filename) || exists|n: nat| n >= 1 && c.dest@ == #[trigger] slash_join(dir, spec_numbered(filename, n)))
    &&& spec_existing_size(existing, c.dest@) is None
}

/// The album memberships of the first `n` records, in order: pairs of a
/// record's position and the position of one of its albums.
pub open spec fn memberships_upto(media: Seq<Media>, n: int) -> Seq<(int, int)>
    decreases n,
{
    if n <= 0 {
        Seq::empty()
    } else {
        memberships_upto(media, n - 1) + Seq::new(media[n - 1].albums@.len(), |x: int| (n - 1, x))
    }
}

/// All album memberships, record by record, album by album.
pub open spec fn memberships(media: Seq<Media>) -> Seq<(int, int)> {
    memberships_upto(media, media.len() as int)
}

/// The memberships handled once record `i` is done up to its album `j`.
pub open spec fn memberships_at(media: Seq<Media>, i: int, j: int) -> Seq<(int, int)> {
    memberships_upto(media, i) + Seq::new(j as nat, |x: int| (i, x))
}

proof fn lemma_memberships_in_range(media: Seq<Media>, n: int)
    requires
        0 <= n <= media.len(),
    ensures
        forall|k: int| 0 <= k < memberships_upto(media, n).len() ==> {
            let mb = #[trigger] memberships_upto(media, n)[k];
            0 <= mb.0 < n && 0 <= mb.1 < media[mb.0].albums@.len()
        },
    decreases n,
{
    if n > 0 {
        lemma_memberships_in_range(media, n - 1);
        let prev = memberships_upto(media, n - 1);
        assert forall|k: int| 0 <= k < memberships_upto(media, n).len() implies {
            let mb = #[trigger] memberships_upto(media, n)[k];
            0 <= mb.0 < n && 0 <= mb.1 < media[mb.0].albums@.len()
        } by {
            if k < prev.len() {
                assert(memberships_upto(media, n)[k] == prev[k]);
            }
        }
    }
}

/// Copy `c` is the copy of membership `mb`.
pub open spec fn copy_for(media: Seq<Media>, assignments: Seq<String>, out: Seq<char>, existing: Seq<ExistingFile>, mb: (int, int), c: AlbumCopy) -> bool {
    album_copy_ok(out, media[mb.0].albums@[mb.1]@, media[mb.0].filename@, assignments[mb.0]@, c, existing)
}

/// Plan the album copies: for each record, in order, and each of its
/// albums, one copy in `<out>/albums/<album>/` under the file's name or, when
/// that is taken by an earlier copy or by a file on disk, the first free
/// `stem(N).ext` from N = 1. The copies follow the memberships one to one
/// and their paths differ from each other. Planning fails only when every
/// numbered name of some file is taken, which needs at least `u32::MAX`
/// copies and files on disk.
pub fn plan_album_copies(
    media: &[Media],
    assignments: &[String],
    output_dir: &str,
    existing_files: &[ExistingFile],
) -> (r: Option<Vec<AlbumCopy>>)
    requires
        assignments@.len() == media@.len(),
    ensures
        r is Some ==> r->0@.len() == memberships(media@).len(),
        r is Some ==> forall|k: int| 0 <= k < r->0@.len()
            ==> copy_for(media@, assignments@, output_dir@, existing_files@, memberships(media@)[k], #[trigger] r->0@[k]),
        r is Some ==> forall|a: int, b: int| 0 <= a < b < r->0@.len() ==> #[trigger] r->0@[a].dest@ != #[trigger] r->0@[b].dest@,
        memberships(media@).len() + existing_files@.len() < u32::MAX ==> r is Some,
{
    let out = chars_of(output_dir);
    let albums_word = chars_of("albums");
    let albums_root = crate::writer::concat3(out.as_slice(), '/', albums_word.as_slice());
    let mut used = PathSet::new();
    let on_disk = crate::writer::index_existing(existing_files);
    let mut copies: Vec<AlbumCopy> = Vec::new();
    let mut i: usize = 0;
    proof {
        lemma_memberships_in_range(media@, media@.len() as int);
    }
    while i < media.len()
        invariant
            out@ == output_dir@,
            albums_root@ == slash_join(output_dir@, "albums"@),
            assignments@.len() == media@.len(),
            i <= media@.len(),
            used.wf(),
            on_disk.wf(),
            on_disk.contents() == crate::writer::existing_paths(existing_files@),
            used.contents().len() == copies@.len(),
            copies@.len() == memberships_upto(media@, i as int).len(),
            memberships_upto(media@, i as int).len() <= memberships(media@).len(),
            forall|k: int| 0 <= k < copies@.len() ==> used.contents()[k] == #[trigger] copies@[k].dest@,
            forall|a: int, b: int| 0 <= a < b < copies@.len() ==> #[trigger] copies@[a].dest@ != #[trigger] copies@[b].dest@,
            forall|k: int| 0 <= k < copies@.len()
                ==> copy_for(media@, assignments@, output_dir@, existing_files@, memberships_upto(media@, i as int)[k], #[trigger] copies@[k]),
        decreases media@.len() - i,
    {
        let m = &media[i];
        let name = chars_of(m.filename.as_str());
        let mut j: usize = 0;
        proof {
            lemma_memberships_prefix(media@, i as int + 1, media@.len() as int);
            assert(memberships_at(media@, i as int, 0) =~= memberships_upto(media@, i as int));
        }
        while j < m.albums.len()
            invariant
                out@ == output_dir@,
                albums_root@ == slash_join(output_dir@, "albums"@),
                assignments@.len() == media@.len(),
                i < media@.len(),
                *m == media@[i as int],
                name@ == m.filename@,
                j <= m.albums@.len(),
                used.wf(),
                on_disk.wf(),
                on_disk.contents() == crate::writer::existing_paths(existing_files@),
                used.contents().len() == copies@.len(),
                copies@.len() == memberships_at(media@, i as int, j as int).len(),
                memberships_upto(media@, i as int + 1).len() <= memberships(media@).len(),
                forall|k: int| 0 <= k < copies@.len() ==> used.contents()[k] == #[trigger] copies@[k].dest@,
                forall|a: int, b: int| 0 <= a < b < copies@.len() ==> #[trigger] copies@[a].dest@ != #[trigger] copies@[b].dest@,
                forall|k: int| 0 <= k < copies@.len()
                    ==> copy_for(media@, assignments@, output_dir@, existing_files@, memberships_at(media@, i as int, j as int)[k], #[trigger] copies@[k]),
            decreases m.albums@.len() - j,
        {
            let album = chars_of(m.albums[j].as_str());
            let dir = crate::writer::concat3(albums_root.as_slice(), '/', album.as_slice());
            let base = crate::writer::concat3(dir.as_slice(), '/', name.as_slice());
            let mut dest = copy_chars(base.as_slice());
            if used.contains(base.as_slice()) || on_disk.contains(base.as_slice()) {
                let (stem, ext) = crate::writer::ext_and_stem(name.as_slice());
                match crate::writer::find_free(&used, &on_disk, Ghost(existing_files@), dir.as_slice(), stem.as_slice(),
                    ext.as_slice(), Ghost(m.filename@), 0) {
                    Some((p, _n)) => {
                        dest = p;
                    },
                    None => {
                        proof {
                            crate::writer::lemma_taken_bound(dir@, m.filename@, u32::MAX as nat, used.contents(),
                                crate::writer::existing_paths(existing_files@));
                            assert(memberships_at(media@, i as int, j as int).len() < memberships_upto(media@, i as int + 1).len()) by {
                                assert(memberships_upto(media@, i as int + 1) =~= memberships_at(media@, i as int, m.albums@.len() as int));
                            }
                        }
                        return None;
                    },
                }
            } else {
                proof {
                    crate::writer::lemma_not_on_disk(existing_files@, base@);
                }
            }
            let ghost u0 = used.contents();
            let ghost c0 = copies@;
            assert(!u0.contains(dest@));
            let copy = AlbumCopy {
                source: string_of(chars_of(assignments[i].as_str()).as_slice()),
                album_dir: string_of(dir.as_slice()),
                dest: string_of(dest.as_slice()),
            };
            used.insert(dest.as_slice());
            copies.push(copy);
            proof {
                let done = memberships_at(media@, i as int, j as int + 1);
                assert(done =~= memberships_at(media@, i as int, j as int).push((i as int, j as int)));
                assert(copy_for(media@, assignments@, output_dir@, existing_files@, (i as int, j as int), copy));
                assert forall|a: int, b: int| 0 <= a < b < copies@.len() implies #[trigger] copies@[a].dest@ != #[trigger] copies@[b].dest@ by {
                    if b == c0.len() {
                        assert(u0[a] == c0[a].dest@);
                    }
                }
                assert forall|k: int| 0 <= k < copies@.len()
                    implies copy_for(media@, assignments@, output_dir@, existing_files@, done[k], #[trigger] copies@[k]) by {
                    if k < c0.len() {
                        assert(copies@[k] == c0[k]);
                    }
                }
            }
            j += 1;
        }
        proof {
            assert(memberships_upto(media@, i as int + 1) =~= memberships_at(media@, i as int, m.albums@.len() as int));
        }
        i += 1;
    }
    Some(copies)
}

proof fn lemma_memberships_prefix(media: Seq<Media>, a: int, b: int)
    requires
        0 <= a <= b,
    ensures
        memberships_upto(media, a).len() <= memberships_upto(media, b).len(),
    decreases b - a,
{
    if a < b {
        lemma_memberships_prefix(media, a, b - 1);
    }
}

/// A path relative to the output root when it lies under it (else kept
/// whole), with every '\\' written as '/'.
pub open spec fn spec_relative(dest: Seq<char>, out: Seq<char>) -> Seq<char> {
    let rel = if starts_with(dest, out + seq!['/']) { dest.subrange(out.len() as int + 1, dest.len() as int) } else { dest };
    rel.map_values(|c: char| if c == '\\' { '/' } else { c })
}

/// One file listed under an album in `albums.json`.
pub struct AlbumFileRow {
    pub album: String,
    pub filename: String,
    /// Path relative to the output root, with '/' separators.
    pub output_path: String,
}

fn relative(dest: &str, out: &[char]) -> (r: String)
    ensures
        r@ == spec_relative(dest@, out@),
{
    let d = chars_of(dest);
    let prefix = crate::writer::concat3(out, '/', &[]);
    assert(prefix@ =~= out@ + seq!['/']);
    let start: usize = if starts_with_exec(d.as_slice(), prefix.as_slice()) { prefix.len() } else { 0 };
    let ghost rel = if starts_with(dest@, out@ + seq!['/']) { dest@.subrange(out@.len() as int + 1, dest@.len() as int) } else { dest@ };
    assert(rel =~= d@.subrange(start as int, d@.len() as int));
    let mut r: Vec<char> = Vec::new();
    let mut k: usize = start;
    while k < d.len()
        invariant
            start <= k <= d@.len(),
            r@ == d@.subrange(start as int, k as int).map_values(|c: char| if c == '\\' { '/' } else { c }),
        decreases d@.len() - k,
    {
        let c = d[k];
        r.push(if c == '\\' { '/' } else { c });
        k += 1;
        proof {
            assert(r@ =~= d@.subrange(start as int, k as int).map_values(|c: char| if c == '\\' { '/' } else { c }));
        }
    }
    string_of(r.as_slice())
}

/// Row `row` lists membership `mb`.
pub open spec fn row_for(media: Seq<Media>, assignments: Seq<String>, out: Seq<char>, mb: (int, int), row: AlbumFileRow) -> bool {
    &&& row.album@ == media[mb.0].albums@[mb.1]@
    &&& row.filename@ == media[mb.0].filename@
    &&& row.output_path@ == spec_relative(assignments[mb.0]@, out)
}

/// The rows of `albums.json`: one per album membership, record by record
/// and album by album, giving the album, the filename and the output path
/// relative to the output root.
pub fn album_rows(media: &[Media], assignments: &[String], output_dir: &str) -> (r: Vec<AlbumFileRow>)
    requires
        assignments@.len() == media@.len(),
    ensures
        r@.len() == memberships(media@).len(),
        forall|k: int| 0 <= k < r@.len() ==> row_for(media@, assignments@, output_dir@, memberships(media@)[k], #[trigger] r@[k]),
{
    let out = chars_of(output_dir);
    let mut rows: Vec<AlbumFileRow> = Vec::new();
    let mut i: usize = 0;
    while i < media.len()
        invariant
            out@ == output_dir@,
            assignments@.len() == media@.len(),
            i <= media@.len(),
            rows@.len() == memberships_upto(media@, i as int).len(),
            forall|k: int| 0 <= k < rows@.len()
                ==> row_for(media@, assignments@, output_dir@, memberships_upto(media@, i as int)[k], #[trigger] rows@[k]),
        decreases media@.len() - i,
    {
        let m = &media[i];
        let mut j: usize = 0;
        proof {
            assert(memberships_at(media@, i as int, 0) =~= memberships_upto(media@, i as int));
        }
        while j < m.albums.len()
            invariant
                out@ == output_dir@,
                assignments@.len() == media@.len(),
                i < media@.len(),
                *m == media@[i as int],
                j <= m.albums@.len(),
                rows@.len() == memberships_at(media@, i as int, j as int).len(),
                forall|k: int| 0 <= k < rows@.len()
                    ==> row_for(media@, assignments@, output_dir@, memberships_at(media@, i as int, j as int)[k], #[trigger] rows@[k]),
            decreases m.albums@.len() - j,
        {
            let row = AlbumFileRow {
                album: m.albums[j].clone(),
                filename: m.filename.clone(),
                output_path: relative(assignments[i].as_str(), out.as_slice()),
            };
            let ghost r0 = rows@;
            rows.push(row);
            proof {
                let done = memberships_at(media@, i as int, j as int + 1);
                assert(done =~= memberships_at(media@, i as int, j as int).push((i as int, j as int)));
                assert forall|k: int| 0 <= k < rows@.len()
                    implies row_for(media@, assignments@, output_dir@, done[k], #[trigger] rows@[k]) by {
                    if k < r0.len() {
                        assert(rows@[k] == r0[k]);
                    }
                }
            }
            j += 1;
        }
        proof {
            assert(memberships_upto(media@, i as int + 1) =~= memberships_at(media@, i as int, m.albums@.len() as int));
        }
        i += 1;
    }
    rows
}

} // verus!
