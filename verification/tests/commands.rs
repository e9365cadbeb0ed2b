use revela::commands::{
    conflict_policy, dup_summary, dup_threshold, export_format, export_name, new_stem, numbered_file_name,
    output_file_name, preset_name, renamed_file_name, ConflictPolicy, ExportOptions, NameError,
};
use revela::dups::{cluster_labels, count_ones, dhash_bits, duplicate_groups};
use revela::histogram::{sample_stride, tally, BINS};
use revela::imaging::{
    clamp_quality, encode_jpeg, encode_png, exif_orientation_steps, jpeg_data_url, orientation_code, thumb_dhash,
    RawOrientation,
};

#[test]
fn preset_names() {
    assert_eq!(preset_name("  Portra 400 ").ok().as_deref(), Some("Portra 400"));
    assert!(matches!(preset_name("   "), Err(NameError::InvalidPresetName)));
    assert!(matches!(preset_name(&"x".repeat(65)), Err(NameError::InvalidPresetName)));
    assert!(preset_name(&"x".repeat(64)).is_ok());
    assert_eq!(NameError::InvalidPresetName.message(), "Invalid preset name");
}

#[test]
fn rename_stems() {
    assert_eq!(new_stem("  holiday 01 ").ok().as_deref(), Some("holiday 01"));
    assert!(matches!(new_stem(""), Err(NameError::InvalidFileName)));
    assert!(matches!(new_stem(&"a".repeat(181)), Err(NameError::InvalidFileName)));
    assert!(matches!(new_stem("a/b"), Err(NameError::ForbiddenCharacters)));
    assert!(matches!(new_stem("what?"), Err(NameError::ForbiddenCharacters)));
    assert!(matches!(new_stem("tab\u{7}bell"), Err(NameError::ForbiddenCharacters)));
    assert!(matches!(new_stem("name."), Err(NameError::ForbiddenCharacters)));
    assert_eq!(NameError::InvalidFileName.message(), "Invalid file name");
    assert_eq!(NameError::ForbiddenCharacters.message(), "The name contains characters that are not allowed");
    assert_eq!(renamed_file_name("new", "CR2"), "new.CR2");
    assert_eq!(renamed_file_name("new", ""), "new");
}

#[test]
fn export_names_follow_the_pattern() {
    assert_eq!(export_name("{name}-revela", "IMG_0001", 1), "IMG_0001-revela");
    assert_eq!(export_name("{name}_{seq}", "roll", 7), "roll_007");
    assert_eq!(export_name("{seq}", "roll", 1234), "1234");
    assert_eq!(export_name("a:b*c/{name}", "x", 1), "abcx");
    assert_eq!(export_name("***", "fallback", 1), "fallback");
    assert_eq!(export_name("  ", "fallback", 1), "fallback");
    assert_eq!(export_name("{name}{name}", "ab", 1), "abab");
}

#[test]
fn export_formats_and_file_names() {
    assert_eq!(export_format("png"), ("png", false));
    assert_eq!(export_format("tiff"), ("tif", false));
    assert_eq!(export_format("tiff16"), ("tif", true));
    assert_eq!(export_format("jpeg"), ("jpg", false));
    assert_eq!(export_format("whatever"), ("jpg", false));
    assert_eq!(output_file_name("roll_007", "jpg"), "roll_007.jpg");
    assert_eq!(numbered_file_name("roll_007", 2, "jpg"), "roll_007-2.jpg");
    assert_ne!(numbered_file_name("a", 1, "jpg"), numbered_file_name("a", 11, "jpg"));
    assert!(matches!(conflict_policy("overwrite"), ConflictPolicy::Overwrite));
    assert!(matches!(conflict_policy("skip"), ConflictPolicy::Skip));
    assert!(matches!(conflict_policy("unique"), ConflictPolicy::Unique));
    assert!(matches!(conflict_policy(""), ConflictPolicy::Unique));
}

#[test]
fn export_defaults() {
    let o = ExportOptions::default();
    assert_eq!(o.format, "jpeg");
    assert_eq!(o.quality, 90);
    assert_eq!(o.resize_mode, "none");
    assert_eq!(o.resize_px, 2048);
    assert!(o.no_enlarge);
    assert_eq!(o.name_pattern, "{name}-revela");
    assert_eq!(o.seq, 1);
    assert_eq!(o.on_conflict, "unique");
}

#[test]
fn bit_counts() {
    assert_eq!(count_ones(0), 0);
    assert_eq!(count_ones(0b1011), 3);
    assert_eq!(count_ones(u64::MAX), 64);
}

#[test]
fn duplicate_clusters_follow_chains() {
    // 0 ~ 1 (1 bit), 1 ~ 2 (1 bit), 0 and 2 differ in 2 bits, 3 is far away
    let hashes: Vec<u64> = vec![0b000, 0b001, 0b011, u64::MAX];
    let labels = cluster_labels(&hashes, 1);
    assert_eq!(labels[0], labels[1]);
    assert_eq!(labels[1], labels[2]);
    assert_ne!(labels[0], labels[3]);
    let groups = duplicate_groups(&hashes, 1);
    assert_eq!(groups, vec![vec![0, 1, 2]]);
    let none = duplicate_groups(&hashes, 0);
    assert!(none.is_empty());
    let s = dup_summary(&groups);
    assert_eq!((s.groups, s.flagged), (1, 3));
}

#[test]
fn duplicate_groups_come_in_order_of_first_photo() {
    let hashes: Vec<u64> = vec![100, 0xF0F0, 101, 7, 0xF0F1, 6];
    let groups = duplicate_groups(&hashes, 1);
    assert_eq!(groups, vec![vec![0, 2], vec![1, 4], vec![3, 5]]);
    assert!(duplicate_groups(&Vec::new(), 5).is_empty());
}

#[test]
fn strictness_thresholds() {
    assert_eq!(dup_threshold(Some("strict")), 3);
    assert_eq!(dup_threshold(Some("loose")), 12);
    assert_eq!(dup_threshold(Some("normal")), 7);
    assert_eq!(dup_threshold(None), 7);
}

#[test]
fn difference_hash_bits() {
    // row y: pixels decrease left to right in row 0, increase elsewhere
    let mut px = vec![0u8; 72];
    for x in 0..9 {
        px[x] = (200 - 10 * x) as u8;
        for y in 1..8 {
            px[y * 9 + x] = (10 * x) as u8;
        }
    }
    assert_eq!(dhash_bits(&px), 0xff);
    assert_eq!(dhash_bits(&vec![5u8; 72]), 0);
}

#[test]
fn histogram_counts() {
    assert_eq!(BINS, 128);
    assert_eq!(sample_stride(0), 1);
    assert_eq!(sample_stride(399_999), 1);
    assert_eq!(sample_stride(800_000), 2);
    let r = vec![0u8, 127, 127, 5];
    let g = vec![1u8, 1, 1, 1];
    let h = tally(&r, &g, &r, &g);
    assert_eq!(h.r.len(), 128);
    assert_eq!(h.r[127], 2);
    assert_eq!(h.r[0], 1);
    assert_eq!(h.g[1], 4);
    assert_eq!(h.r.iter().sum::<u32>(), 4);
    assert_eq!(h.l.iter().sum::<u32>(), 4);
}

#[test]
fn jpeg_and_png_encoding() {
    let rgb = vec![200u8; 2 * 2 * 3];
    let jpg = encode_jpeg(&rgb, 2, 2, 88).ok().unwrap();
    assert_eq!(&jpg[0..2], &[0xFF, 0xD8]);
    assert!(encode_jpeg(&[], 0, 0, 88).is_err());
    assert_eq!(clamp_quality(0), 10);
    assert_eq!(clamp_quality(255), 100);
    assert_eq!(clamp_quality(55), 55);
    let png = encode_png(&rgb, 2, 2).ok().unwrap();
    assert_eq!(&png[0..8], &[0x89, b'P', b'N', b'G', 0x0D, 0x0A, 0x1A, 0x0A]);
}

#[test]
fn thumbnail_hash_of_encoded_image() {
    let mut rgb = Vec::new();
    for y in 0..16u32 {
        for x in 0..16u32 {
            let v = if (x / 4 + y / 4) % 2 == 0 { 250 } else { 10 };
            rgb.extend_from_slice(&[v as u8, v as u8, v as u8]);
        }
    }
    let jpg = encode_jpeg(&rgb, 16, 16, 95).ok().unwrap();
    let h1 = thumb_dhash(&jpg);
    assert!(h1.is_some());
    assert_eq!(h1, thumb_dhash(&jpg));
    assert_ne!(h1, Some(0));
    assert_eq!(thumb_dhash(b"not an image"), None);
}

#[test]
fn data_url_of_a_preview() {
    assert_eq!(jpeg_data_url(b"abc"), "data:image/jpeg;base64,YWJj");
    assert_eq!(jpeg_data_url(b""), "data:image/jpeg;base64,");
    assert_eq!(jpeg_data_url(&[0xFF, 0xD8, 0xFF]), "data:image/jpeg;base64,/9j/");
}

#[test]
fn orientation_codes_and_steps() {
    assert_eq!(orientation_code(RawOrientation::Normal), 1);
    assert_eq!(orientation_code(RawOrientation::Rotate90), 6);
    assert_eq!(orientation_code(RawOrientation::Rotate270), 8);
    assert_eq!(orientation_code(RawOrientation::Unknown), 1);
    let s = exif_orientation_steps(6);
    assert_eq!((s.quarter_turns, s.mirror_h, s.mirror_v), (1, false, false));
    let s = exif_orientation_steps(7);
    assert_eq!((s.quarter_turns, s.mirror_h, s.mirror_v), (3, true, false));
    let s = exif_orientation_steps(4);
    assert_eq!((s.quarter_turns, s.mirror_h, s.mirror_v), (0, false, true));
    let s = exif_orientation_steps(99);
    assert_eq!((s.quarter_turns, s.mirror_h, s.mirror_v), (0, false, false));
}
