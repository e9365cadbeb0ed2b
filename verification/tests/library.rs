use revela::cache::PreviewCache;
use revela::catalog::{clean_tags, stored_flag, stored_rating, tags_from_list};
use revela::decode::{captured_from_exif, datetime_cuts_cleanly, is_raw_ext, is_supported_ext, normalize_exif_datetime, raw_exts, image_exts};
use revela::pipeline::stage_key;
use revela::thumbs::{content_key, is_thumb_of, legacy_thumb_file_name, thumb_file_name, FileStamp, FNV_OFFSET, THUMB_SIZE};

#[test]
fn raw_extensions_in_any_case() {
    assert!(is_raw_ext("cr2"));
    assert!(is_raw_ext("CR3"));
    assert!(is_raw_ext("Nef"));
    assert!(is_raw_ext("3fr"));
    assert!(!is_raw_ext("jpg"));
    assert!(!is_raw_ext(""));
    assert!(!is_raw_ext("cr"));
    assert_eq!(raw_exts().len(), 22);
}

#[test]
fn supported_extensions() {
    assert!(is_supported_ext("JPG"));
    assert!(is_supported_ext("jpeg"));
    assert!(is_supported_ext("TIFF"));
    assert!(is_supported_ext("webp"));
    assert!(is_supported_ext("DNG"));
    assert!(!is_supported_ext("txt"));
    assert!(!is_supported_ext("gif"));
    assert_eq!(image_exts().len(), 7);
    for e in raw_exts() {
        assert!(is_supported_ext(e));
        assert!(is_supported_ext(&e.to_uppercase()));
    }
}

#[test]
fn exif_datetime_is_normalized() {
    assert_eq!(normalize_exif_datetime("2023:05:14 10:20:30").as_deref(), Some("2023-05-14T10:20:30"));
    assert_eq!(normalize_exif_datetime("  2023:05:14 10:20:30.55 \n").as_deref(), Some("2023-05-14T10:20:30"));
    assert_eq!(normalize_exif_datetime("2023-05-14 10:20:30"), None);
    assert_eq!(normalize_exif_datetime("2023:05:14"), None);
    assert_eq!(normalize_exif_datetime(""), None);
}

#[test]
fn exif_datetime_that_would_be_cut_mid_character_is_flagged() {
    assert!(datetime_cuts_cleanly("2023:05:14 10:20:30"));
    assert!(datetime_cuts_cleanly("not a date"));
    // 'é' occupies bytes 10 and 11
    assert!(!datetime_cuts_cleanly("2023:05:14é10:20:30"));
}

#[test]
fn capture_time_prefers_the_original_field() {
    assert_eq!(captured_from_exif(Some("2020:01:02 03:04:05"), Some("2021:01:01 00:00:00")).as_deref(), Some("2020-01-02T03:04:05"));
    assert_eq!(captured_from_exif(Some("garbage"), Some("2021:01:01 00:00:00")).as_deref(), Some("2021-01-01T00:00:00"));
    assert_eq!(captured_from_exif(None, Some("bad")), None);
    assert_eq!(captured_from_exif(None, None), None);
}

#[test]
fn content_key_is_fnv1a_of_path_size_and_stamp() {
    assert_eq!(THUMB_SIZE, 512);
    assert_eq!(content_key("/photos/a.jpg", None), 0xcbe9aafd22203390);
    let st = FileStamp { len: 1234, modified_secs: None };
    assert_eq!(content_key("/photos/a.jpg", Some(st)), 0x4a5881b7dc466416);
    let st = FileStamp { len: 1234, modified_secs: Some(1_700_000_000) };
    assert_eq!(content_key("/photos/a.jpg", Some(st)), 0xf0e8deb636b24781);
}

#[test]
fn stage_key_hashes_the_json_text() {
    assert_eq!(stage_key(""), FNV_OFFSET);
    assert_eq!(stage_key("a"), 0xaf63dc4c8601ec8c);
    assert_ne!(stage_key("{\"r\":1}"), stage_key("{\"r\":2}"));
}

#[test]
fn thumbnail_names() {
    assert_eq!(thumb_file_name(42, 0xabc), "42-0000000000000abc.jpg");
    assert_eq!(thumb_file_name(-7, u64::MAX), "-7-ffffffffffffffff.jpg");
    assert_eq!(thumb_file_name(i64::MIN, 0), "-9223372036854775808-0000000000000000.jpg");
    assert_eq!(legacy_thumb_file_name(42), "42.jpg");
}

#[test]
fn thumbnail_names_belong_to_exactly_one_photo() {
    let name = thumb_file_name(42, 0x1234);
    assert!(is_thumb_of(&name, 42));
    assert!(!is_thumb_of(&name, 4));
    assert!(!is_thumb_of(&name, 420));
    assert!(!is_thumb_of(&name, -42));
    assert!(!is_thumb_of(&thumb_file_name(420, 1), 42));
    assert!(is_thumb_of(&thumb_file_name(-3, 9), -3));
    assert!(!is_thumb_of("42.jpg", 42));
}

#[test]
fn cache_returns_what_was_inserted_for_the_same_path() {
    let mut c: PreviewCache<u32> = PreviewCache::new(4);
    c.insert(1, "/a.jpg", 10);
    assert_eq!(c.get(1, "/a.jpg"), Some(&10));
    assert_eq!(c.get(1, "/b.jpg"), None);
    assert_eq!(c.get(2, "/a.jpg"), None);
    c.insert(1, "/b.jpg", 11);
    assert_eq!(c.get(1, "/b.jpg"), Some(&11));
    assert_eq!(c.get(1, "/a.jpg"), None);
}

#[test]
fn cache_drops_the_oldest_entry() {
    let mut c: PreviewCache<&str> = PreviewCache::new(2);
    c.insert(1, "p1", "one");
    c.insert(2, "p2", "two");
    c.insert(1, "p1", "uno"); // replacing keeps id 1 the oldest
    c.insert(3, "p3", "three");
    assert_eq!(c.get(1, "p1"), None);
    assert_eq!(c.get(2, "p2"), Some(&"two"));
    assert_eq!(c.get(3, "p3"), Some(&"three"));
}

#[test]
fn cache_of_capacity_zero_keeps_nothing() {
    let mut c: PreviewCache<u8> = PreviewCache::new(0);
    c.insert(5, "x", 1);
    assert_eq!(c.get(5, "x"), None);
}

#[test]
fn ratings_and_flags_are_clamped() {
    assert_eq!(stored_rating(-3), 0);
    assert_eq!(stored_rating(3), 3);
    assert_eq!(stored_rating(9), 5);
    assert_eq!(stored_flag(-1), 0);
    assert_eq!(stored_flag(1), 1);
    assert_eq!(stored_flag(7), 2);
    assert_eq!(stored_rating(stored_rating(42)), stored_rating(42));
}

#[test]
fn tags_are_trimmed_and_blank_ones_dropped() {
    let tags = vec!["  beach ".to_string(), "".to_string(), "\t ".to_string(), "film".to_string()];
    let clean = clean_tags(&tags);
    assert_eq!(clean, vec!["beach".to_string(), "film".to_string()]);
    assert_eq!(clean_tags(&clean), clean);
}

#[test]
fn tag_list_splits_on_unit_separator() {
    assert!(tags_from_list(None).is_empty());
    assert_eq!(tags_from_list(Some("a\u{1f}b c\u{1f}d")), vec!["a", "b c", "d"]);
    assert_eq!(tags_from_list(Some("solo")), vec!["solo"]);
    assert_eq!(tags_from_list(Some("")), vec![""]);
}
