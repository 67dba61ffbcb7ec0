use std::collections::HashMap;
use std::sync::atomic::AtomicBool;
use xpak::cancel::{flag_says_stop, is_cancelled, stop_requested};
use xpak::codec::{encode_record, frame_header, put_u32, FileRecord};
use xpak::error::{FormatError, MetadataError, XpakError};
use xpak::header::{decode_header, encode_header, locate_data};
use xpak::json::{JsonNumber, JsonValue};
use xpak::metadata::{FileInfo, XpakMetadata};
use xpak::pak::{index_files, pack_archive, pack_files, pack_files_at, pack_next, sum_sizes};
use xpak::unpak::{
    extract_files, extract_records, list_files, scan_archive, scan_records, selects, skip_record,
    unpack_files, unpack_next, unpack_records, Listing,
};
use xpak::update::{apply_update, regenerate_metadata, update_metadata, update_metadata_at};
use xpak::view_pak_structure::{view_structure, EndMarkerStatus};

fn file(path: &str, content: &[u8]) -> FileRecord {
    FileRecord { path: path.to_string(), content: content.to_vec() }
}

fn tree() -> Vec<FileRecord> {
    vec![
        file("readme.md", b"# hello\n"),
        file("src\\main.rs", b"fn main() {}\n"),
        file("src/deep/empty.txt", b""),
        file("data/blob.bin", &[0u8, 255, 1, 254, 2, 253]),
    ]
}

fn go() -> AtomicBool {
    AtomicBool::new(true)
}

fn stop() -> AtomicBool {
    AtomicBool::new(false)
}

fn packed_tree() -> Vec<u8> {
    pack_files_at(&tree(), false, Some("a tree"), None, "2024-01-02T03:04:05Z".to_string(), &go())
        .unwrap()
}

/// An archive with the given metadata text, marker on demand, and records.
fn raw_archive(json: &[u8], with_marker: bool, declared: u32, files: &[FileRecord]) -> Vec<u8> {
    let mut out = b"XPAK".to_vec();
    put_u32(&mut out, json.len() as u32);
    out.extend_from_slice(json);
    if with_marker {
        out.extend_from_slice(b"METAEND_");
    }
    put_u32(&mut out, declared);
    for f in files {
        encode_record(&mut out, &f.path, &f.content).unwrap();
    }
    out
}

fn metadata_text(version: &str, count: u32, total: u64) -> String {
    format!(
        "{{\"version\":\"0.0.1\",\"format_version\":\"{}\",\"created_at\":\"2020-01-01T00:00:00Z\",\
         \"files_count\":{},\"total_size\":{},\"description\":\"stale\",\
         \"common\":{{\"keep\":true}},\"files\":[]}}",
        version, count, total
    )
}

#[test]
fn the_flag_says_whether_to_stop() {
    assert!(!is_cancelled(&go()));
    assert!(is_cancelled(&stop()));
    assert!(!stop_requested(Some(&go())));
    assert!(stop_requested(Some(&stop())));
    assert!(!stop_requested(None));
    assert!(flag_says_stop(false));
    assert!(!flag_says_stop(true));
}

#[test]
fn without_a_flag_the_result_is_the_same() {
    let at = || "2024-01-02T03:04:05Z".to_string();
    let bytes = pack_archive(&tree(), false, Some("a tree"), None, at()).unwrap();
    assert_eq!(bytes, packed_tree());
    assert_eq!(extract_files(&bytes, None), unpack_files(&bytes, None, &go()));
    let selection = vec!["readme.md".to_string()];
    assert_eq!(extract_files(&bytes, Some(&selection)), Ok(vec![file("readme.md", b"# hello\n")]));
    let start = locate_data(&bytes).unwrap();
    assert_eq!(extract_records(&bytes, start, 4, None), extract_files(&bytes, None).map_err(|_| FormatError::Truncated));
    assert_eq!(
        extract_records(&bytes, start, 5, None),
        Err(FormatError::CountMismatch { declared: 5, actual: 4 })
    );
    assert_eq!(
        pack_archive(&tree(), false, None, Some("[]"), at()),
        Err(XpakError::Metadata(MetadataError::NotAnObject))
    );
    assert_eq!(extract_files(b"nope", None), Err(XpakError::Format(FormatError::BadMagic)));
}

#[test]
fn pack_lays_out_header_count_and_records() {
    let files = vec![file("a\\b.txt", b"xyz")];
    let bytes =
        pack_files_at(&files, false, None, None, "T".to_string(), &go()).unwrap();
    let json = "{\"version\":\"0.1.0\",\"format_version\":\"1.3\",\"created_at\":\"T\",\
                \"files_count\":1,\"total_size\":3,\"description\":null,\"common\":{},\
                \"files\":[{\"path\":\"a/b.txt\",\"size\":3}]}";
    let mut expected = b"XPAK".to_vec();
    expected.extend_from_slice(&(json.len() as u32).to_le_bytes());
    expected.extend_from_slice(json.as_bytes());
    expected.extend_from_slice(b"METAEND_");
    expected.extend_from_slice(&[1, 0, 0, 0]);
    expected.extend_from_slice(&[7, 0, 0, 0]);
    expected.extend_from_slice(b"a/b.txt");
    expected.extend_from_slice(&[3, 0, 0, 0]);
    expected.extend_from_slice(b"xyz");
    assert_eq!(bytes, expected);
}

#[test]
fn pack_then_unpack_gives_back_every_file() {
    let bytes = packed_tree();
    let files = unpack_files(&bytes, None, &go()).unwrap();
    assert_eq!(
        files,
        vec![
            file("readme.md", b"# hello\n"),
            file("src/main.rs", b"fn main() {}\n"),
            file("src/deep/empty.txt", b""),
            file("data/blob.bin", &[0u8, 255, 1, 254, 2, 253]),
        ]
    );
}

#[test]
fn pack_records_metadata_of_the_files() {
    let bytes = pack_files_at(
        &tree(),
        false,
        Some("a tree"),
        Some("{\"owner\":\"me\",\"n\":1}"),
        "2024-01-02T03:04:05Z".to_string(),
        &go(),
    )
    .unwrap();
    let (m, start) = decode_header(&bytes).unwrap();
    assert_eq!(m.version, "0.1.0");
    assert_eq!(m.format_version, "1.3");
    assert_eq!(m.created_at, "2024-01-02T03:04:05Z");
    assert_eq!(m.files_count, 4);
    assert_eq!(m.total_size, 8 + 13 + 0 + 6);
    assert_eq!(m.description, Some("a tree".to_string()));
    assert_eq!(
        m.common,
        vec![
            ("owner".to_string(), JsonValue::Text("me".to_string())),
            ("n".to_string(), JsonValue::Number(JsonNumber::from_u64(1))),
        ]
    );
    assert_eq!(
        m.files,
        vec![
            FileInfo { path: "readme.md".to_string(), size: 8 },
            FileInfo { path: "src/main.rs".to_string(), size: 13 },
            FileInfo { path: "src/deep/empty.txt".to_string(), size: 0 },
            FileInfo { path: "data/blob.bin".to_string(), size: 6 },
        ]
    );
    assert_eq!(&bytes[start..start + 4], &[4, 0, 0, 0]);
}

#[test]
fn pack_with_the_clock_differs_only_in_the_time() {
    let bytes = pack_files(&tree(), false, Some("a tree"), None, &go()).unwrap();
    let (m, _) = decode_header(&bytes).unwrap();
    assert!(!m.created_at.is_empty());
    let again =
        pack_files_at(&tree(), false, Some("a tree"), None, m.created_at.clone(), &go()).unwrap();
    assert_eq!(bytes, again);
}

#[test]
fn pack_of_nothing_is_an_archive_without_records() {
    let bytes = pack_files_at(&Vec::new(), false, None, None, "T".to_string(), &stop()).unwrap();
    assert_eq!(unpack_files(&bytes, None, &go()), Ok(Vec::new()));
    assert_eq!(
        list_files(&bytes, true),
        Ok(Listing { files: Vec::new(), files_count: 0, total_size: 0 })
    );
}

#[test]
fn flat_archives_have_no_separators() {
    let bytes =
        pack_files_at(&tree(), true, None, None, "T".to_string(), &go()).unwrap();
    let files = unpack_files(&bytes, None, &go()).unwrap();
    let paths: Vec<&str> = files.iter().map(|f| f.path.as_str()).collect();
    assert_eq!(paths, vec!["readme.md", "main.rs", "empty.txt", "blob.bin"]);
    for f in &files {
        assert!(!f.path.contains('/'));
        assert!(!f.path.contains('\\'));
    }
    let (m, _) = decode_header(&bytes).unwrap();
    let listed: Vec<&str> = m.files.iter().map(|f| f.path.as_str()).collect();
    assert_eq!(listed, paths);
}

#[test]
fn of_colliding_base_names_the_last_one_stays() {
    let files = vec![file("a/x.txt", b"first"), file("b/x.txt", b"second"), file("y", b"y")];
    let bytes = pack_files_at(&files, true, None, None, "T".to_string(), &go()).unwrap();
    let out = unpack_files(&bytes, None, &go()).unwrap();
    assert_eq!(out, vec![file("x.txt", b"first"), file("x.txt", b"second"), file("y", b"y")]);
    // written one after the other into an empty directory
    let mut directory: HashMap<String, Vec<u8>> = HashMap::new();
    for f in out {
        directory.insert(f.path, f.content);
    }
    assert_eq!(directory.len(), 2);
    assert_eq!(directory["x.txt"], b"second".to_vec());
    assert_eq!(directory["y"], b"y".to_vec());
}

#[test]
fn selective_unpack_extracts_only_what_is_asked_for() {
    let files = vec![file("a/a.txt", b"one"), file("a/b.txt", b"two"), file("c.txt", b"three")];
    let bytes = pack_files_at(&files, false, None, None, "T".to_string(), &go()).unwrap();
    let selection = vec!["a/b.txt".to_string()];
    let out = unpack_files(&bytes, Some(&selection), &go()).unwrap();
    assert_eq!(out, vec![file("a/b.txt", b"two")]);
    let last = vec!["c.txt".to_string()];
    assert_eq!(unpack_files(&bytes, Some(&last), &go()), Ok(vec![file("c.txt", b"three")]));
    let both = vec!["c.txt".to_string(), "a/a.txt".to_string(), "missing".to_string()];
    assert_eq!(
        unpack_files(&bytes, Some(&both), &go()),
        Ok(vec![file("a/a.txt", b"one"), file("c.txt", b"three")])
    );
    let none: Vec<String> = Vec::new();
    assert_eq!(unpack_files(&bytes, Some(&none), &go()), Ok(Vec::new()));
}

#[test]
fn selection_matches_letter_for_letter() {
    let selection = vec!["a/b.txt".to_string(), "c".to_string()];
    assert!(selects(Some(&selection), &"a/b.txt".to_string()));
    assert!(selects(Some(&selection), &"c".to_string()));
    assert!(!selects(Some(&selection), &"A/b.txt".to_string()));
    assert!(!selects(Some(&selection), &"b.txt".to_string()));
    assert!(selects(None, &"anything".to_string()));
}

#[test]
fn selective_unpack_still_reads_every_record() {
    let mut bytes = packed_tree();
    bytes.truncate(bytes.len() - 1);
    let selection = vec!["readme.md".to_string()];
    assert_eq!(
        unpack_files(&bytes, Some(&selection), &go()),
        Err(XpakError::Format(FormatError::Truncated))
    );
    assert_eq!(unpack_files(&bytes, None, &go()), Err(XpakError::Format(FormatError::Truncated)));
}

#[test]
fn unpack_steps_record_by_record() {
    let mut bytes = Vec::new();
    encode_record(&mut bytes, "p", b"12").unwrap();
    encode_record(&mut bytes, "q", b"345").unwrap();
    let (header, next) = skip_record(&bytes, 0).unwrap();
    assert_eq!((header.path.as_str(), header.content_len, next), ("p", 2, 11));
    let only_q = vec!["q".to_string()];
    assert_eq!(unpack_next(&bytes, 0, Some(&only_q), false), Ok((None, 11)));
    assert_eq!(unpack_next(&bytes, 11, Some(&only_q), false), Ok((Some(file("q", b"345")), 23)));
    assert_eq!(unpack_next(&bytes, 11, None, true), Err(XpakError::Cancelled));
    assert_eq!(
        unpack_next(&bytes, 23, None, false),
        Err(XpakError::Format(FormatError::Truncated))
    );
}

#[test]
fn unpack_rejects_a_count_that_differs_from_the_metadata() {
    let files = vec![file("a", b"1"), file("b", b"2")];
    let json = metadata_text("1.3", 3, 2);
    let bytes = raw_archive(json.as_bytes(), true, 2, &files);
    assert_eq!(
        unpack_files(&bytes, None, &go()),
        Err(XpakError::Format(FormatError::CountMismatch { declared: 3, actual: 2 }))
    );
    let start = locate_data(&bytes).unwrap();
    assert_eq!(unpack_records(&bytes, start, 2, None, &go()), Ok(files));
}

#[test]
fn unpack_rejects_a_missing_end_marker() {
    let json = metadata_text("1.3", 0, 0);
    let mut bytes = raw_archive(json.as_bytes(), true, 0, &[]);
    let at = 8 + json.len();
    bytes[at] = b'm';
    assert_eq!(unpack_files(&bytes, None, &go()), Err(XpakError::Format(FormatError::BadEndMarker)));
    assert_eq!(list_files(&bytes, true), Err(XpakError::Format(FormatError::BadEndMarker)));
    assert_eq!(list_files(&bytes, false), Err(XpakError::Format(FormatError::BadEndMarker)));
}

#[test]
fn unpack_rejects_a_path_that_is_not_utf8() {
    let json = metadata_text("1.3", 1, 0);
    let mut bytes = raw_archive(json.as_bytes(), true, 1, &[]);
    bytes.extend_from_slice(&[1, 0, 0, 0, 0x80, 0, 0, 0, 0]);
    assert_eq!(unpack_files(&bytes, None, &go()), Err(XpakError::Format(FormatError::InvalidPath)));
    assert_eq!(list_files(&bytes, true), Err(XpakError::Format(FormatError::InvalidPath)));
}

#[test]
fn unpack_rejects_metadata_that_cannot_be_read() {
    let bytes = raw_archive(b"{\"version\":", true, 0, &[]);
    assert_eq!(unpack_files(&bytes, None, &go()), Err(XpakError::Metadata(MetadataError::InvalidJson)));
    let bytes = raw_archive(b"[]", true, 0, &[]);
    assert_eq!(unpack_files(&bytes, None, &go()), Err(XpakError::Metadata(MetadataError::NotAnObject)));
    let bytes = raw_archive(b"{\"version\":1}", true, 0, &[]);
    assert_eq!(unpack_files(&bytes, None, &go()), Err(XpakError::Metadata(MetadataError::InvalidField)));
}

#[test]
fn legacy_archives_are_read_without_end_marker() {
    let files = vec![file("old/file", b"legacy")];
    let json = metadata_text("1.0", 1, 6);
    let bytes = raw_archive(json.as_bytes(), false, 1, &files);
    assert_eq!(unpack_files(&bytes, None, &go()), Ok(files));
    assert_eq!(locate_data(&bytes), Ok(8 + json.len()));
    let listing = list_files(&bytes, true).unwrap();
    assert_eq!(listing.files, vec![FileInfo { path: "old/file".to_string(), size: 6 }]);
}

#[test]
fn cancelled_pack_gives_no_archive() {
    assert_eq!(
        pack_files_at(&tree(), false, None, None, "T".to_string(), &stop()),
        Err(XpakError::Cancelled)
    );
    assert_eq!(pack_files(&tree(), true, None, None, &stop()), Err(XpakError::Cancelled));
}

#[test]
fn pack_steps_file_by_file() {
    let mut out = vec![1u8];
    assert_eq!(pack_next(&mut out, &file("d\\f", b"c"), false, true), Err(XpakError::Cancelled));
    assert_eq!(out, vec![1u8]);
    assert_eq!(pack_next(&mut out, &file("d\\f", b"c"), false, false), Ok(()));
    assert_eq!(out, vec![1, 3, 0, 0, 0, b'd', b'/', b'f', 1, 0, 0, 0, b'c']);
    let mut flat = Vec::new();
    assert_eq!(pack_next(&mut flat, &file("d\\f", b"c"), true, false), Ok(()));
    assert_eq!(flat, vec![1, 0, 0, 0, b'f', 1, 0, 0, 0, b'c']);
}

#[test]
fn cancelled_unpack_reports_it() {
    let bytes = packed_tree();
    assert_eq!(unpack_files(&bytes, None, &stop()), Err(XpakError::Cancelled));
}

#[test]
fn pack_rejects_user_metadata_that_is_no_object() {
    let at = || "T".to_string();
    assert_eq!(
        pack_files_at(&tree(), false, None, Some("[1]"), at(), &go()),
        Err(XpakError::Metadata(MetadataError::NotAnObject))
    );
    assert_eq!(
        pack_files_at(&tree(), false, None, Some("{bad"), at(), &go()),
        Err(XpakError::Metadata(MetadataError::InvalidJson))
    );
    assert_eq!(
        pack_files_at(&tree(), false, None, Some("abcd"), at(), &go()),
        Err(XpakError::Metadata(MetadataError::NotAnObject))
    );
    // the user's metadata is looked at before the flag
    assert_eq!(
        pack_files_at(&tree(), false, None, Some("[1]"), at(), &stop()),
        Err(XpakError::Metadata(MetadataError::NotAnObject))
    );
}

#[test]
fn pack_accepts_user_metadata_in_base64() {
    let bytes = pack_files_at(
        &tree(),
        false,
        None,
        Some("eyJhIjoxLCJiIjoieCJ9"),
        "T".to_string(),
        &go(),
    )
    .unwrap();
    let (m, _) = decode_header(&bytes).unwrap();
    assert_eq!(
        m.common,
        vec![
            ("a".to_string(), JsonValue::Number(JsonNumber::from_u64(1))),
            ("b".to_string(), JsonValue::Text("x".to_string())),
        ]
    );
}

#[test]
fn sizes_add_up() {
    assert_eq!(sum_sizes(&tree()), Some(27));
    assert_eq!(sum_sizes(&Vec::new()), Some(0));
    assert_eq!(
        index_files(&tree(), true)[1],
        FileInfo { path: "main.rs".to_string(), size: 13 }
    );
}

#[test]
fn fast_and_exhaustive_listing_agree() {
    let bytes = packed_tree();
    let fast = list_files(&bytes, false).unwrap();
    let exhaustive = list_files(&bytes, true).unwrap();
    assert_eq!(fast, exhaustive);
    assert_eq!(fast.files_count, 4);
    assert_eq!(fast.total_size, 27);
    assert_eq!(
        fast.files,
        vec![
            FileInfo { path: "readme.md".to_string(), size: 8 },
            FileInfo { path: "src/main.rs".to_string(), size: 13 },
            FileInfo { path: "src/deep/empty.txt".to_string(), size: 0 },
            FileInfo { path: "data/blob.bin".to_string(), size: 6 },
        ]
    );
    assert_eq!(scan_archive(&bytes), Ok(exhaustive));
}

#[test]
fn exhaustive_listing_does_not_trust_the_metadata() {
    let files = vec![file("a", &[0; 10]), file("b", &[0; 20]), file("c", &[0; 30])];
    let json = metadata_text("1.3", 7, 1000);
    let bytes = raw_archive(json.as_bytes(), true, 3, &files);
    let fast = list_files(&bytes, false).unwrap();
    assert_eq!((fast.files_count, fast.total_size, fast.files.len()), (7, 1000, 0));
    let exhaustive = list_files(&bytes, true).unwrap();
    assert_eq!(exhaustive.files_count, 3);
    assert_eq!(exhaustive.total_size, 60);
    assert_eq!(
        exhaustive.files,
        vec![
            FileInfo { path: "a".to_string(), size: 10 },
            FileInfo { path: "b".to_string(), size: 20 },
            FileInfo { path: "c".to_string(), size: 30 },
        ]
    );
}

#[test]
fn exhaustive_listing_survives_metadata_that_cannot_be_read() {
    let files = vec![file("a", b"12345")];
    let bytes = raw_archive(b"not json at all", true, 1, &files);
    assert_eq!(list_files(&bytes, false), Err(XpakError::Metadata(MetadataError::InvalidJson)));
    let listing = list_files(&bytes, true).unwrap();
    assert_eq!(listing.files, vec![FileInfo { path: "a".to_string(), size: 5 }]);
    assert_eq!(listing.total_size, 5);
}

#[test]
fn listing_without_metadata_walks_the_records() {
    let files = vec![file("a", b"12345"), file("b", b"")];
    let bytes = raw_archive(b"", false, 2, &files);
    let expected = Listing {
        files: vec![
            FileInfo { path: "a".to_string(), size: 5 },
            FileInfo { path: "b".to_string(), size: 0 },
        ],
        files_count: 2,
        total_size: 5,
    };
    assert_eq!(list_files(&bytes, false), Ok(expected.clone()));
    assert_eq!(list_files(&bytes, true), Ok(expected));
    assert_eq!(unpack_files(&bytes, None, &go()), Err(XpakError::Metadata(MetadataError::InvalidJson)));
}

#[test]
fn scan_records_adds_up_the_lengths() {
    let mut bytes = vec![0u8; 2];
    encode_record(&mut bytes, "a", &[1; 4]).unwrap();
    encode_record(&mut bytes, "b", &[2; 6]).unwrap();
    let (infos, total) = scan_records(&bytes, 2, 2).unwrap();
    assert_eq!(total, 10);
    assert_eq!(infos.len(), 2);
    assert_eq!(infos[1], FileInfo { path: "b".to_string(), size: 6 });
    assert_eq!(scan_records(&bytes, 2, 3).err(), Some(FormatError::Truncated));
    assert_eq!(scan_records(&bytes, 2, 0), Ok((Vec::new(), 0)));
}

#[test]
fn update_leaves_the_data_region_untouched() {
    let bytes = packed_tree();
    let start = locate_data(&bytes).unwrap();
    let out = update_metadata_at(
        &bytes,
        Some("a new description, longer than the old one"),
        Some("{\"k\":\"v\"}"),
        false,
        "ignored".to_string(),
    )
    .unwrap();
    let new_start = locate_data(&out).unwrap();
    assert_ne!(new_start, start);
    assert_eq!(&out[new_start..], &bytes[start..]);
    let (m, _) = decode_header(&out).unwrap();
    assert_eq!(m.description, Some("a new description, longer than the old one".to_string()));
    assert_eq!(m.common, vec![("k".to_string(), JsonValue::Text("v".to_string()))]);
    assert_eq!(m.created_at, "2024-01-02T03:04:05Z");
    assert_eq!(m.files_count, 4);
    assert_eq!(m.total_size, 27);
    assert_eq!(m.files.len(), 4);
    assert_eq!(unpack_files(&out, None, &go()), unpack_files(&bytes, None, &go()));
}

#[test]
fn update_without_changes_keeps_the_metadata() {
    let bytes = packed_tree();
    let out = update_metadata(&bytes, None, None, false).unwrap();
    assert_eq!(out, bytes);
}

#[test]
fn update_merges_user_metadata_per_key() {
    let bytes = pack_files_at(
        &tree(),
        false,
        Some("d"),
        Some("{\"a\":1,\"b\":2}"),
        "T".to_string(),
        &go(),
    )
    .unwrap();
    let out = update_metadata(&bytes, None, Some("{\"b\":\"two\",\"c\":null}"), false).unwrap();
    let (m, _) = decode_header(&out).unwrap();
    assert_eq!(
        m.common,
        vec![
            ("a".to_string(), JsonValue::Number(JsonNumber::from_u64(1))),
            ("b".to_string(), JsonValue::Text("two".to_string())),
            ("c".to_string(), JsonValue::Null),
        ]
    );
    assert_eq!(m.description, Some("d".to_string()));
}

#[test]
fn update_regenerates_from_the_records() {
    let files = vec![file("a", &[1; 10]), file("b", &[2; 20]), file("c", &[3; 30])];
    let json = metadata_text("1.3", 99, 12345);
    let bytes = raw_archive(json.as_bytes(), true, 3, &files);
    let start = locate_data(&bytes).unwrap();
    let out =
        update_metadata_at(&bytes, None, None, true, "2030-01-01T00:00:00Z".to_string()).unwrap();
    let (m, new_start) = decode_header(&out).unwrap();
    assert_eq!(m.files_count, 3);
    assert_eq!(m.total_size, 60);
    assert_eq!(
        m.files,
        vec![
            FileInfo { path: "a".to_string(), size: 10 },
            FileInfo { path: "b".to_string(), size: 20 },
            FileInfo { path: "c".to_string(), size: 30 },
        ]
    );
    assert_eq!(m.created_at, "2030-01-01T00:00:00Z");
    assert_eq!(m.version, "0.1.0");
    assert_eq!(m.format_version, "1.3");
    assert_eq!(m.description, None);
    assert!(m.common.is_empty());
    assert_eq!(&out[new_start..], &bytes[start..]);
    assert_eq!(unpack_files(&out, None, &go()), Ok(files));
}

#[test]
fn update_regenerates_and_applies_description_and_entries() {
    let files = vec![file("a", b"1")];
    let bytes = raw_archive(b"garbage", true, 1, &files);
    let out = update_metadata(&bytes, Some("fixed"), Some("{\"by\":\"hand\"}"), true).unwrap();
    let (m, _) = decode_header(&out).unwrap();
    assert_eq!(m.description, Some("fixed".to_string()));
    assert_eq!(m.common, vec![("by".to_string(), JsonValue::Text("hand".to_string()))]);
    assert_eq!((m.files_count, m.total_size), (1, 1));
    let (fresh, start) = regenerate_metadata(&bytes, "T".to_string()).unwrap();
    assert_eq!(start, 8 + 7 + 8);
    assert_eq!(fresh.files, vec![FileInfo { path: "a".to_string(), size: 1 }]);
    assert_eq!(fresh.created_at, "T");
}

#[test]
fn update_of_a_legacy_archive_writes_the_current_format() {
    let files = vec![file("old", b"data")];
    let json = metadata_text("1.0", 1, 4);
    let bytes = raw_archive(json.as_bytes(), false, 1, &files);
    let out = update_metadata(&bytes, None, None, false).unwrap();
    let (m, start) = decode_header(&out).unwrap();
    assert_eq!(m.format_version, "1.3");
    assert_eq!(m.version, "0.0.1");
    assert_eq!(m.description, Some("stale".to_string()));
    assert_eq!(&out[start - 8..start], b"METAEND_");
    assert_eq!(&out[start..], &bytes[8 + json.len()..]);
    assert_eq!(unpack_files(&out, None, &go()), Ok(files));
}

#[test]
fn update_rejects_what_it_cannot_read() {
    let bytes = packed_tree();
    assert_eq!(
        update_metadata(&bytes, None, Some("nope!"), false),
        Err(XpakError::Metadata(MetadataError::InvalidJson))
    );
    assert_eq!(
        update_metadata(&bytes, None, Some("nope"), false),
        Err(XpakError::Metadata(MetadataError::NotAnObject))
    );
    assert_eq!(
        update_metadata(&bytes, None, Some("5"), true),
        Err(XpakError::Metadata(MetadataError::NotAnObject))
    );
    let broken = raw_archive(b"garbage", true, 0, &[]);
    assert_eq!(
        update_metadata(&broken, None, None, false),
        Err(XpakError::Metadata(MetadataError::InvalidJson))
    );
    let short = raw_archive(metadata_text("1.3", 2, 0).as_bytes(), true, 2, &[file("a", b"")]);
    assert_eq!(
        update_metadata(&short, None, None, true),
        Err(XpakError::Format(FormatError::Truncated))
    );
}

#[test]
fn apply_update_replaces_description_and_merges() {
    let mut m = XpakMetadata::with_timestamp(1, 2, "T".to_string());
    m.format_version = "1.0".to_string();
    m.description = Some("old".to_string());
    apply_update(&mut m, None, &vec![("k".to_string(), JsonValue::Bool(true))]);
    assert_eq!(m.description, Some("old".to_string()));
    assert_eq!(m.format_version, "1.3");
    assert_eq!(m.common, vec![("k".to_string(), JsonValue::Bool(true))]);
    m.format_version = "1.2".to_string();
    apply_update(&mut m, Some("new"), &Vec::new());
    assert_eq!(m.description, Some("new".to_string()));
    assert_eq!(m.format_version, "1.2");
}

#[test]
fn a_wrong_tag_is_refused_by_every_read() {
    let mut bytes = packed_tree();
    bytes[0] = b'Y';
    let bad = XpakError::Format(FormatError::BadMagic);
    assert_eq!(unpack_files(&bytes, None, &go()), Err(bad));
    assert_eq!(unpack_files(&bytes, Some(&vec!["readme.md".to_string()]), &stop()), Err(bad));
    assert_eq!(list_files(&bytes, false), Err(bad));
    assert_eq!(list_files(&bytes, true), Err(bad));
    assert_eq!(update_metadata(&bytes, Some("d"), None, false), Err(bad));
    assert_eq!(update_metadata(&bytes, None, None, true), Err(bad));
    assert_eq!(decode_header(&bytes).err(), Some(bad));
    assert_eq!(locate_data(&bytes), Err(FormatError::BadMagic));
    assert_eq!(unpack_files(b"", None, &go()), Err(bad));
    assert_eq!(unpack_files(b"XPA", None, &go()), Err(bad));
}

#[test]
fn structure_of_a_packed_archive() {
    let bytes = packed_tree();
    let report = view_structure(&bytes).unwrap();
    assert_eq!(report.magic, b"XPAK".to_vec());
    assert!(report.magic_valid);
    let (m, start) = decode_header(&bytes).unwrap();
    assert_eq!(report.metadata_len as usize, start - 16);
    assert_eq!(report.format_version, "1.3");
    assert_eq!(report.files_count, 4);
    assert_eq!(report.total_size, 27);
    assert_eq!(report.description, m.description);
    assert_eq!(report.end_marker, b"METAEND_".to_vec());
    assert_eq!(report.end_marker_status, EndMarkerStatus::Valid);
    assert!(report.data_present);
}

#[test]
fn structure_reports_a_wrong_tag_and_a_damaged_marker() {
    let mut bytes = packed_tree();
    bytes[3] = b'k';
    let start = locate_data(&packed_tree()).unwrap();
    bytes[start - 1] = b'!';
    let report = view_structure(&bytes).unwrap();
    assert_eq!(report.magic, b"XPAk".to_vec());
    assert!(!report.magic_valid);
    assert_eq!(report.end_marker, b"METAEND!".to_vec());
    assert_eq!(report.end_marker_status, EndMarkerStatus::Corrupt);
    assert!(!report.data_present);
}

#[test]
fn structure_of_a_legacy_archive() {
    let json = metadata_text("1.0", 1, 4);
    let bytes = raw_archive(json.as_bytes(), false, 1, &[file("old", b"data")]);
    let report = view_structure(&bytes).unwrap();
    assert_eq!(report.end_marker_status, EndMarkerStatus::NotSupported);
    assert_eq!(report.format_version, "1.0");
    assert!(report.data_present);
    assert_eq!(report.end_marker, vec![1, 0, 0, 0, 3, 0, 0, 0]);
    assert_eq!(report.description, Some("stale".to_string()));
}

#[test]
fn structure_of_a_header_without_data() {
    let json = metadata_text("1.3", 0, 0);
    let header = frame_header(json.as_bytes()).unwrap();
    let report = view_structure(&header).unwrap();
    assert_eq!(report.end_marker_status, EndMarkerStatus::Valid);
    assert!(!report.data_present);
    let cut = &header[..header.len() - 3];
    let report = view_structure(cut).unwrap();
    assert_eq!(report.end_marker, b"METAE".to_vec());
    assert_eq!(report.end_marker_status, EndMarkerStatus::Corrupt);
}

#[test]
fn structure_needs_readable_metadata() {
    assert_eq!(view_structure(b"XPAK"), Err(XpakError::Format(FormatError::Truncated)));
    assert_eq!(
        view_structure(b"XPAK\x09\x00\x00\x00{}"),
        Err(XpakError::Format(FormatError::Truncated))
    );
    assert_eq!(
        view_structure(b"XPAK\x02\x00\x00\x00{}METAEND_"),
        Err(XpakError::Metadata(MetadataError::InvalidField))
    );
    assert_eq!(
        view_structure(b"XPAK\x00\x00\x00\x00METAEND_"),
        Err(XpakError::Metadata(MetadataError::InvalidJson))
    );
}

#[test]
fn header_of_fresh_metadata_is_framed() {
    let m = XpakMetadata::with_timestamp(0, 0, "T".to_string());
    let header = encode_header(&m).unwrap();
    assert_eq!(decode_header(&header), Ok((m, header.len())));
}
