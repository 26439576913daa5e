use gpth::date::{extract_date, extract_exif_date, parse_exif_datetime, LocalDateTime, ACCURACY_GUESS, ACCURACY_JSON};
use gpth::guess::guess_date_from_filename;

fn dt(year: i32, month: u32, day: u32, hour: u32, minute: u32, second: u32) -> LocalDateTime {
    LocalDateTime { year, month, day, hour, minute, second }
}

#[test]
fn test_guess_patterns() {
    assert!(guess_date_from_filename("Screenshot_20190919-053857.jpg").is_some());
    assert!(guess_date_from_filename("IMG_20190509_154733.jpg").is_some());
    assert!(guess_date_from_filename("signal-2020-10-26-163832.jpg").is_some());
    assert!(guess_date_from_filename("2016_01_30_11_49_15.mp4").is_some());
    assert!(guess_date_from_filename("random_photo.jpg").is_none());
}

#[test]
fn guess_values() {
    assert_eq!(guess_date_from_filename("Screenshot_20190919-053857.jpg"), Some(dt(2019, 9, 19, 5, 38, 57)));
    assert_eq!(guess_date_from_filename("IMG_20190509_154733.jpg"), Some(dt(2019, 5, 9, 15, 47, 33)));
    assert_eq!(guess_date_from_filename("2016_01_30_11_49_15.mp4"), Some(dt(2016, 1, 30, 11, 49, 15)));
    assert_eq!(guess_date_from_filename("x-2020-10-26-16-38-32.jpg"), Some(dt(2020, 10, 26, 16, 38, 32)));
    assert_eq!(guess_date_from_filename("some/dir/IMG_20190509_154733.jpg"), Some(dt(2019, 5, 9, 15, 47, 33)));
    assert_eq!(guess_date_from_filename("IMG_20190230_154733.jpg"), None);
}

#[test]
fn guess_truncates_to_fourteen_digits() {
    assert_eq!(guess_date_from_filename("20190509154733123.jpg"), Some(dt(2019, 5, 9, 15, 47, 33)));
    assert_eq!(guess_date_from_filename("20190509154733.jpg"), Some(dt(2019, 5, 9, 15, 47, 33)));
}

#[test]
fn exif_separators() {
    let colon = parse_exif_datetime("2019:05:09 15:47:33");
    assert_eq!(colon, Some(dt(2019, 5, 9, 15, 47, 33)));
    assert_eq!(parse_exif_datetime("2019/05/09 15:47:33"), colon);
    assert_eq!(parse_exif_datetime("2019\\05\\09 15:47:33"), colon);
    assert_eq!(parse_exif_datetime("2019-05-09 15:47:33"), colon);
    assert_eq!(parse_exif_datetime("2019:05:09"), Some(dt(2019, 5, 9, 0, 0, 0)));
    assert_eq!(parse_exif_datetime("garbage"), None);
}

#[test]
fn exif_on_non_image_bytes() {
    assert_eq!(extract_exif_date(b"not an image"), None);
}

#[test]
fn date_priority() {
    let j = dt(2020, 1, 2, 3, 4, 5);
    let r = extract_date(Some(j), None, "IMG_20190509_154733.jpg", true).unwrap();
    assert_eq!(r.date, j);
    assert_eq!(r.accuracy, ACCURACY_JSON);
    let g = extract_date(None, None, "IMG_20190509_154733.jpg", true).unwrap();
    assert_eq!(g.date, dt(2019, 5, 9, 15, 47, 33));
    assert_eq!(g.accuracy, ACCURACY_GUESS);
    assert!(extract_date(None, None, "IMG_20190509_154733.jpg", false).is_none());
    assert!(extract_date(None, Some(b"xx"), "random.jpg", true).is_none());
}
