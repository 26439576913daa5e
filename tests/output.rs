use gpth::checkpoint::{check_step, compute_options_hash, CheckStep, Checkpoint, ProcessOptions};
use gpth::date::{DateResult, LocalDateTime, ACCURACY_EXIF};
use gpth::sidecar::{register_json_date, JsonDateIndex};
use gpth::media::{deduplicate, needs_hash, Media};
use gpth::pipeline::{apply_dates, apply_json_and_guess, exif_targets, merge_albums, ProcessControl, ThrottledProgress};
use gpth::writer::{plan_destinations, ExistingFile, WrittenFile};
use gpth::zip_scan::{AlbumEntry, AlbumGroup};
use gpth::CancellationToken;

fn dated(path: &str, name: &str, size: u64, month: u32, accuracy: u8) -> Media {
    let mut m = Media::new(path.to_string(), 0, 0, name.to_string(), size);
    m.date = Some(LocalDateTime { year: 2023, month, day: 1, hour: 0, minute: 0, second: 0 });
    m.date_accuracy = accuracy;
    m
}

fn options() -> ProcessOptions {
    ProcessOptions {
        zip_files: vec!["test.zip".to_string()],
        output: "/tmp/output".to_string(),
        divide_to_dates: true,
        skip_extras: false,
        no_guess: false,
        albums: false,
        album_dest: "year".to_string(),
        album_link: false,
        album_json: None,
        force: false,
    }
}

#[test]
fn basic_date_split() {
    let media = vec![dated("Takeout/Google Photos/Photos from 2023/IMG_0001.jpg", "IMG_0001.jpg", 10, 9, 0)];
    let plan = plan_destinations(&media, "out", true, &[], &[]).unwrap();
    assert_eq!(plan.assignments, vec!["out/2023/09/IMG_0001.jpg".to_string()]);
    assert_eq!(plan.skip, vec![false]);
    assert_eq!(plan.dirs, vec!["out/2023/09".to_string()]);
}

#[test]
fn undated_goes_to_date_unknown() {
    let media = vec![Media::new("a/x.jpg".to_string(), 0, 0, "x.jpg".to_string(), 5)];
    let plan = plan_destinations(&media, "out", true, &[], &[]).unwrap();
    assert_eq!(plan.assignments, vec!["out/date-unknown/x.jpg".to_string()]);
}

#[test]
fn collision_numbering() {
    let media = vec![
        dated("a/IMG_0004.jpg", "IMG_0004.jpg", 10, 3, 0),
        dated("b/IMG_0004.jpg", "IMG_0004.jpg", 20, 7, 0),
        dated("c/IMG_0004.jpg", "IMG_0004.jpg", 30, 8, 0),
    ];
    let plan = plan_destinations(&media, "out", false, &[], &[]).unwrap();
    assert_eq!(plan.assignments, vec![
        "out/IMG_0004.jpg".to_string(),
        "out/IMG_0004(1).jpg".to_string(),
        "out/IMG_0004(2).jpg".to_string(),
    ]);
}

#[test]
fn existing_files_and_resume() {
    let media = vec![
        dated("a/A.jpg", "A.jpg", 10, 3, 0),
        dated("a/B.jpg", "B.jpg", 10, 3, 0),
        dated("a/C.jpg", "C.jpg", 10, 3, 0),
    ];
    let existing = vec![
        ExistingFile { path: "out/A.jpg".to_string(), size: 10 },
        ExistingFile { path: "out/B.jpg".to_string(), size: 99 },
    ];
    let plan = plan_destinations(&media, "out", false, &[], &existing).unwrap();
    assert_eq!(plan.assignments[0], "out/A.jpg");
    assert_eq!(plan.assignments[1], "out/B(1).jpg");
    assert_eq!(plan.skip, vec![true, false, false]);

    let written = vec![WrittenFile { zip_path: "a/C.jpg".to_string(), output_path: "out/C.jpg".to_string(), size: 10 }];
    let resumed = plan_destinations(&media, "out", false, &written, &[]).unwrap();
    assert_eq!(resumed.skip.iter().filter(|s| **s).count(), 1);
    assert_eq!(resumed.assignments[2], "out/C.jpg");
    assert_eq!(resumed.assignments[0], "out/A.jpg");
}

#[test]
fn dedup_keeps_best_date() {
    let mut a = dated("p/A.jpg", "A.jpg", 100, 1, 0);
    let mut b = dated("p/A(1).jpg", "A(1).jpg", 100, 1, 2);
    let c = dated("p/other.jpg", "other.jpg", 7, 1, 0);
    a.hash = Some("abc".to_string());
    b.hash = Some("abc".to_string());
    let media = vec![b, a, c];
    assert_eq!(needs_hash(&media), vec![0, 1]);
    let r = deduplicate(media, vec![]);
    let names: Vec<&str> = r.media.iter().map(|m| m.filename.as_str()).collect();
    assert_eq!(names, vec!["A.jpg", "other.jpg"]);
}

#[test]
fn dedup_tie_breaks_on_name_length() {
    let mut a = dated("p/IMG_0002-edited.jpg", "IMG_0002-edited.jpg", 50, 1, 2);
    let mut b = dated("p/IMG_0002.jpg", "IMG_0002.jpg", 50, 1, 2);
    a.hash = Some("h".to_string());
    b.hash = Some("h".to_string());
    let r = deduplicate(vec![a, b], vec!["w".to_string()]);
    assert_eq!(r.media.len(), 1);
    assert_eq!(r.media[0].filename, "IMG_0002.jpg");
    assert_eq!(r.warnings, vec!["w".to_string()]);
}

#[test]
fn album_merge() {
    let mut media = vec![dated("Takeout/Google Photos/Photos from 2023/IMG_0003.jpg", "IMG_0003.jpg", 33, 5, 0)];
    let groups = vec![AlbumGroup {
        name: "Trip".to_string(),
        entries: vec![
            AlbumEntry { filename: "IMG_0003.jpg".to_string(), zip_path: "Takeout/Google Photos/Trip/IMG_0003.jpg".to_string(), zip_index: 0, entry_index: 4, size: 33 },
            AlbumEntry { filename: "only.jpg".to_string(), zip_path: "Takeout/Google Photos/Trip/only.jpg".to_string(), zip_index: 0, entry_index: 5, size: 8 },
        ],
    }];
    merge_albums(&mut media, &groups);
    merge_albums(&mut media, &groups);
    assert_eq!(media.len(), 2);
    assert_eq!(media[0].albums, vec!["Trip".to_string()]);
    assert_eq!(media[1].filename, "only.jpg");
    assert_eq!(media[1].albums, vec!["Trip".to_string()]);
}

#[test]
fn test_options_hash_changes() {
    let opts1 = options();
    let mut opts2 = options();
    opts2.divide_to_dates = false;
    assert_ne!(compute_options_hash(&opts1), compute_options_hash(&opts2));
}

#[test]
fn options_hash_is_hex_sha256() {
    let h = compute_options_hash(&options());
    assert_eq!(h.len(), 64);
    assert!(h.chars().all(|c| c.is_ascii_hexdigit() && !c.is_ascii_uppercase()));
}

#[test]
fn checkpoint_compatibility() {
    let opts = options();
    let mut cp = Checkpoint::new(&opts, vec![11], 5);
    assert!(cp.is_compatible(&opts, &[11]));
    assert!(!cp.is_compatible(&opts, &[12]));
    let mut other = options();
    other.skip_extras = true;
    assert!(!cp.is_compatible(&other, &[11]));
    let mut more = options();
    more.zip_files.push("b.zip".to_string());
    assert!(!cp.is_compatible(&more, &[11]));
    cp.mark_written("Photos/img.jpg", "2023/01/img.jpg", 1024, 6);
    assert_eq!(cp.written_files.len(), 1);
    assert!(cp.is_compatible(&opts, &[11]));
    cp.mark_completed(7);
    assert!(!cp.is_compatible(&opts, &[11]));
}

#[test]
fn test_cancellation_token() {
    let token = CancellationToken::new();
    assert!(!token.is_cancelled());
    assert!(!token.is_paused());
    assert!(check_step(token.is_cancelled(), token.is_paused()) == CheckStep::Proceed);

    token.cancel();
    assert!(token.is_cancelled());
    assert!(check_step(token.is_cancelled(), token.is_paused()) == CheckStep::Cancelled);
}

#[test]
fn pause_waits_and_cancel_wins() {
    let token = CancellationToken::new();
    token.set_paused(true);
    assert!(check_step(token.is_cancelled(), token.is_paused()) == CheckStep::Wait);
    token.cancel();
    assert!(check_step(token.is_cancelled(), token.is_paused()) == CheckStep::Cancelled);
    token.set_paused(false);
    assert!(!token.is_paused());
}

#[test]
fn progress_throttle() {
    let mut tp = ThrottledProgress::new();
    assert!(tp.report(0, 10, 1000));
    assert!(!tp.report(1, 10, 1100));
    assert!(tp.report(2, 10, 1200));
    assert!(tp.report(9, 10, 1201));
}

#[test]
fn control_builders() {
    let c = ProcessControl::new();
    assert!(!c.resume);
    let c = c.with_resume(true).with_cancel_token(CancellationToken::new());
    assert!(c.resume);
    assert!(c.cancel_token.is_some());
}

#[test]
fn album_copies_and_rows() {
    let mut a = dated("p/IMG_0003.jpg", "IMG_0003.jpg", 33, 5, 0);
    a.albums = vec!["Trip".to_string(), "Best".to_string()];
    let mut b = dated("q/IMG_0003.jpg", "IMG_0003.jpg", 44, 6, 0);
    b.albums = vec!["Trip".to_string()];
    let media = vec![a, b];
    let assignments = vec!["out/2023/05/IMG_0003.jpg".to_string(), "out/2023/06/IMG_0003.jpg".to_string()];
    let copies = gpth::albums::plan_album_copies(&media, &assignments, "out", &[]).unwrap();
    let dests: Vec<&str> = copies.iter().map(|c| c.dest.as_str()).collect();
    assert_eq!(dests, vec!["out/albums/Trip/IMG_0003.jpg", "out/albums/Best/IMG_0003.jpg", "out/albums/Trip/IMG_0003(1).jpg"]);
    assert_eq!(copies[0].album_dir, "out/albums/Trip");
    assert_eq!(copies[2].source, "out/2023/06/IMG_0003.jpg");

    let rows = gpth::albums::album_rows(&media, &assignments, "out");
    assert_eq!(rows.len(), 3);
    assert_eq!(rows[0].album, "Trip");
    assert_eq!(rows[0].filename, "IMG_0003.jpg");
    assert_eq!(rows[0].output_path, "2023/05/IMG_0003.jpg");
    assert_eq!(rows[2].output_path, "2023/06/IMG_0003.jpg");
}

#[test]
fn album_copy_avoids_existing() {
    let mut a = dated("p/x.jpg", "x.jpg", 1, 5, 0);
    a.albums = vec!["Trip".to_string()];
    let existing = vec![ExistingFile { path: "out/albums/Trip/x.jpg".to_string(), size: 1 }];
    let copies = gpth::albums::plan_album_copies(&[a], &["out/x.jpg".to_string()], "out", &existing).unwrap();
    assert_eq!(copies[0].dest, "out/albums/Trip/x(1).jpg");
}

#[test]
fn checkpoint_saver_throttle() {
    let cp = Checkpoint::new(&options(), vec![1], 0);
    let mut saver = gpth::CheckpointSaver::new(cp, "out".to_string(), 0);
    let mut due = false;
    for k in 0..99 {
        due = saver.mark_written(&format!("p/{k}.jpg"), &format!("out/{k}.jpg"), 1, 0, 10);
    }
    assert!(!due);
    assert!(saver.mark_written("p/last.jpg", "out/last.jpg", 1, 0, 10));
    saver.saved(20);
    assert!(!saver.mark_written("p/n.jpg", "out/n.jpg", 1, 0, 4000));
    assert!(saver.mark_written("p/m.jpg", "out/m.jpg", 1, 0, 5020));
    assert_eq!(saver.get_written_map().len(), 102);
}

#[test]
fn dates_applied_to_records() {
    let d = LocalDateTime { year: 2021, month: 2, day: 3, hour: 4, minute: 5, second: 6 };
    let mut index = JsonDateIndex::new();
    register_json_date("p/a.jpg.json", d, &mut index);
    let media = vec![
        Media::new("p/a.jpg".to_string(), 0, 0, "a.jpg".to_string(), 1),
        Media::new("p/IMG_20190509_154733.jpg".to_string(), 0, 1, "IMG_20190509_154733.jpg".to_string(), 2),
        Media::new("p/c.jpg".to_string(), 0, 2, "c.jpg".to_string(), 3),
        Media::new("p/d.mp4".to_string(), 0, 3, "d.mp4".to_string(), 4),
    ];
    let media = apply_json_and_guess(media, 0, &index, true);
    assert_eq!(media[0].date, Some(d));
    assert_eq!(media[0].date_accuracy, 0);
    assert_eq!(media[1].date_accuracy, 2);
    assert_eq!(media[2].date, None);
    assert_eq!(exif_targets(&media, 0), vec![2]);
    let found = vec![None, None, Some(DateResult { date: d, accuracy: ACCURACY_EXIF }), None];
    let media = apply_dates(media, &found);
    assert_eq!(media[2].date, Some(d));
    assert_eq!(media[2].date_accuracy, 1);
    assert_eq!(media[3].date, None);
}

#[test]
fn album_links_are_relative_to_album_folder() {
    assert_eq!(gpth::albums::link_target("out/2023/05/a.jpg", "out/albums/Trip"), "../../2023/05/a.jpg");
}
