use gpth::extras::{is_extra, remove_extra};
use gpth::folder_classify::{extract_album_name, is_in_year_folder, is_year_folder};
use gpth::zip_scan::{classify_entry, decode_zip_name, is_media_name, EntryKind, ScanResult};

#[test]
fn folder_classify_test_year_folders() {
    assert!(is_year_folder("Photos from 2023"));
    assert!(is_year_folder("Fotos von 2021"));
    assert!(is_year_folder("2023 年の写真"));
    assert!(is_year_folder("2023년의 사진"));
    assert!(is_year_folder("2023年的照片"));
    assert!(!is_year_folder("My Vacation"));
    assert!(!is_year_folder("Photos from abcd"));
}

#[test]
fn year_range_bounds() {
    assert!(is_year_folder("Photos from 1800"));
    assert!(is_year_folder("Photos from 2099"));
    assert!(!is_year_folder("Photos from 1799"));
    assert!(!is_year_folder("Photos from 0000"));
    assert!(!is_year_folder("Photos from 2100"));
    assert!(!is_year_folder("Photos from 20231"));
}

#[test]
fn path_in_year_folder() {
    assert!(is_in_year_folder("Takeout/Google Photos/Photos from 2023/IMG_0001.jpg"));
    assert!(!is_in_year_folder("Takeout/Google Photos/Trip/IMG_0003.jpg"));
}

#[test]
fn album_names() {
    assert_eq!(extract_album_name("Takeout/Google Photos/Trip/IMG_0003.jpg"), Some("Trip".to_string()));
    assert_eq!(extract_album_name("Takeout/Google Photos/Photos from 2023/IMG_0001.jpg"), None);
    assert_eq!(extract_album_name("Takeout/Google Photos/Trip"), None);
    assert_eq!(extract_album_name("Takeout/Google Фото/Отпуск/a.jpg"), Some("Отпуск".to_string()));
}

#[test]
fn extras_detection() {
    assert!(is_extra("IMG_0002-edited"));
    assert!(is_extra("IMG_0002-EDITED"));
    assert!(is_extra("photo-bearbeitet"));
    assert!(!is_extra("IMG_0002"));
    assert_eq!(remove_extra("IMG_0002-edited.jpg"), "IMG_0002.jpg");
    assert_eq!(remove_extra("IMG_0002-Edited.jpg"), "IMG_0002.jpg");
    assert_eq!(remove_extra("IMG_0002.jpg"), "IMG_0002.jpg");
}

#[test]
fn extras_skip_scenario() {
    let path = "Takeout/Google Photos/Photos from 2023/IMG_0002-edited.jpg";
    assert!(matches!(classify_entry(path, false, true, false), EntryKind::Skip));
    match classify_entry(path, false, false, false) {
        EntryKind::Media { filename, album, in_year } => {
            assert_eq!(filename, "IMG_0002-edited.jpg");
            assert!(album.is_none());
            assert!(in_year);
        }
        _ => panic!("expected a media entry"),
    }
}

#[test]
fn entry_kinds() {
    assert!(matches!(classify_entry("Takeout/Google Photos/Photos from 2023/a.jpg.json", false, false, false), EntryKind::Sidecar));
    assert!(matches!(classify_entry("Takeout/Google Photos/Photos from 2023/", true, false, false), EntryKind::Skip));
    assert!(matches!(classify_entry("Takeout/Google Photos/Photos from 2023/notes.txt", false, false, false), EntryKind::Skip));
    match classify_entry("Takeout/Google Photos/Trip/IMG_0003.jpg", false, false, true) {
        EntryKind::Media { album, in_year, .. } => {
            assert_eq!(album, Some("Trip".to_string()));
            assert!(!in_year);
        }
        _ => panic!("expected an album entry"),
    }
    assert!(matches!(classify_entry("Takeout/Google Photos/Trip/IMG_0003.jpg", false, false, false), EntryKind::Skip));
}

#[test]
fn media_types() {
    assert!(is_media_name("a.jpg"));
    assert!(is_media_name("a.MP4"));
    assert!(!is_media_name("a.json"));
    assert!(!is_media_name("README"));
}

#[test]
fn entry_name_decoding() {
    assert_eq!(decode_zip_name("Photos/a.jpg".as_bytes()), "Photos/a.jpg");
    // "写真" in Shift_JIS
    assert_eq!(decode_zip_name(&[0x8e, 0xca, 0x90, 0x5e]), "写真");
}

#[test]
fn extras_after_normalization() {
    // "e" followed by a combining acute accent composes to "é" under NFC
    assert!(is_extra("photo-modifie\u{301}"));
    assert_eq!(remove_extra("photo-modifie\u{301}.jpg"), "photo.jpg");
}

#[test]
fn lossy_entry_names() {
    assert_eq!(decode_zip_name(&[0xff, b'a']), "\u{fffd}a");
}

#[test]
fn scan_records_entries() {
    let mut scan = ScanResult::new();
    scan.add_media_entry("Takeout/Google Photos/Photos from 2023/a.jpg", "a.jpg", None, true, 0, 3, 10);
    scan.add_media_entry("Takeout/Google Photos/Trip/b.jpg", "b.jpg", Some("Trip"), false, 0, 4, 11);
    scan.add_media_entry("Takeout/Google Photos/Trip/c.jpg", "c.jpg", Some("Trip"), false, 1, 5, 12);
    scan.add_sidecar("Takeout/Google Photos/Photos from 2023/a.jpg.json", br#"{"photoTakenTime":{"timestamp":"1693526400"}}"#);
    assert_eq!(scan.media.len(), 1);
    assert_eq!(scan.media[0].entry_index, 3);
    assert_eq!(scan.album_entries.len(), 1);
    assert_eq!(scan.album_entries[0].name, "Trip");
    assert_eq!(scan.album_entries[0].entries.len(), 2);
    assert_eq!(scan.album_entries[0].entries[1].zip_index, 1);
    assert_eq!(scan.json_dates.len(), 1);
}

#[test]
fn remove_extra_beside_length_changing_lowercase() {
    assert_eq!(remove_extra("\u{130}MG-Edited.jpg"), "\u{130}MG.jpg");
    assert_eq!(remove_extra("a-edited-edited.jpg"), "a-edited.jpg");
}
