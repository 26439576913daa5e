use gpth::date::LocalDateTime;
use gpth::sidecar::{
    bracket_swap, find_json_date, no_extension, parse_i64, register_json_date, remove_digit, remove_extra_regex,
    shorten_name, timestamp_of, JsonDateIndex,
};

fn chars(s: &str) -> Vec<char> {
    s.chars().collect()
}

fn text(v: Vec<char>) -> String {
    v.into_iter().collect()
}

fn dt(day: u32) -> LocalDateTime {
    LocalDateTime { year: 2023, month: 9, day, hour: 0, minute: 0, second: 0 }
}

#[test]
fn bracket_swap_uses_last_bracket() {
    assert_eq!(text(bracket_swap(&chars("foo(1).jpg"))), "foo.jpg(1)");
    assert_eq!(text(bracket_swap(&chars("a(1).b(2).jpg"))), "a(1).b.jpg(2)");
    assert_eq!(text(bracket_swap(&chars("plain.jpg"))), "plain.jpg");
}

#[test]
fn shorten_at_sidecar_budget() {
    let exact = "a".repeat(46);
    assert_eq!(text(shorten_name(&chars(&exact))), exact);
    let long = "b".repeat(47);
    assert_eq!(text(shorten_name(&chars(&long))), "b".repeat(46));
    // 45 ASCII bytes then a 2-byte character: 47 bytes, cut before it
    let mixed = format!("{}é", "c".repeat(45));
    assert_eq!(text(shorten_name(&chars(&mixed))), "c".repeat(45));
}

#[test]
fn other_variants() {
    assert_eq!(text(no_extension(&chars("IMG_1.jpg"))), "IMG_1");
    assert_eq!(text(no_extension(&chars(".hidden"))), ".hidden");
    assert_eq!(text(no_extension(&chars("a.b.c"))), "a.b");
    assert_eq!(text(remove_extra_regex(&chars("IMG_1-bearbeitet.jpg"))), "IMG_1.jpg");
    assert_eq!(text(remove_extra_regex(&chars("IMG_1-edited(1).jpg"))), "IMG_1.jpg");
    assert_eq!(text(remove_extra_regex(&chars("IMG_1.jpg"))), "IMG_1.jpg");
    assert_eq!(text(remove_digit(&chars("IMG(1).jpg"))), "IMG.jpg");
    assert_eq!(text(remove_digit(&chars("a(1).b(2).c"))), "a.b.c");
}

#[test]
fn timestamps() {
    assert_eq!(parse_i64("1693526400"), Some(1693526400));
    assert_eq!(parse_i64("-5"), Some(-5));
    assert_eq!(parse_i64("+7"), Some(7));
    assert_eq!(parse_i64("9223372036854775807"), Some(i64::MAX));
    assert_eq!(parse_i64("-9223372036854775808"), Some(i64::MIN));
    assert_eq!(parse_i64("9223372036854775808"), None);
    assert_eq!(parse_i64("12a"), None);
    assert_eq!(parse_i64(""), None);
    assert_eq!(timestamp_of(Some("1693526400"), None), Some(1693526400));
    assert_eq!(timestamp_of(None, Some(42)), Some(42));
    assert_eq!(timestamp_of(Some(""), None), None);
}

#[test]
fn sidecar_lookup_by_variant() {
    let mut index = JsonDateIndex::new();
    register_json_date("Takeout/Google Photos/Photos from 2023/IMG_0001.jpg.json", dt(1), &mut index);
    register_json_date("Takeout/Google Photos/Photos from 2023/foo.jpg(1).json", dt(2), &mut index);
    register_json_date("Takeout/Google Photos/Photos from 2023/IMG_0001.jpg.json", dt(3), &mut index);
    assert_eq!(index.len(), 2);
    let dir = "Takeout/Google Photos/Photos from 2023/";
    assert_eq!(find_json_date(&format!("{dir}IMG_0001.jpg"), "IMG_0001.jpg", &index, false), Some(dt(1)));
    assert_eq!(find_json_date(&format!("{dir}foo(1).jpg"), "foo(1).jpg", &index, false), Some(dt(2)));
    assert_eq!(find_json_date(&format!("{dir}IMG_0001-edited.jpg"), "IMG_0001-edited.jpg", &index, true), Some(dt(1)));
    assert_eq!(find_json_date("Other/IMG_0001.jpg", "IMG_0001.jpg", &index, false), None);
}

#[test]
fn json_parse() {
    assert!(gpth::sidecar::parse_google_json(br#"{"photoTakenTime":{"timestamp":"1693526400"}}"#).is_some());
    assert!(gpth::sidecar::parse_google_json(br#"{"photoTakenTime":{"timestamp":1693526400}}"#).is_some());
    assert!(gpth::sidecar::parse_google_json(br#"{"title":"x"}"#).is_none());
    assert!(gpth::sidecar::parse_google_json(b"not json").is_none());
}

#[test]
fn json_out_of_range_epochs() {
    assert!(gpth::sidecar::parse_google_json(br#"{"photoTakenTime":{"timestamp":"9223372036854775807"}}"#).is_none());
    assert!(gpth::sidecar::parse_google_json(br#"{"photoTakenTime":{"timestamp":"253402300800"}}"#).is_none());
    assert!(gpth::sidecar::parse_google_json(br#"{"photoTakenTime":{"timestamp":"253402300799"}}"#).is_some());
}
