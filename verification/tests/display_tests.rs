use xpak::codec::{append_content, append_in_chunks};
use xpak::common::BUFFER_SIZE;
use xpak::display::{
    bytes_less, display_metadata, hide_files, json_tree_lines, order_members,
};
use xpak::error::{FormatError, MetadataError, XpakError};
use xpak::json::{parse_json, write_json, JsonValue};
use xpak::unpak::{display_size, SizeUnit};

fn archive_with(json: &[u8]) -> Vec<u8> {
    let mut bytes = b"XPAK".to_vec();
    bytes.extend_from_slice(&(json.len() as u32).to_le_bytes());
    bytes.extend_from_slice(json);
    bytes.extend_from_slice(b"METAEND_");
    bytes.extend_from_slice(&[0, 0, 0, 0]);
    bytes
}

fn tree_of(json: &[u8]) -> Vec<String> {
    let mut lines = Vec::new();
    json_tree_lines(&mut lines, "", &parse_json(json).unwrap());
    lines
}

#[test]
fn bytes_are_ordered_like_words() {
    assert!(bytes_less(b"a", b"b"));
    assert!(bytes_less(b"", b"a"));
    assert!(bytes_less(b"ab", b"abc"));
    assert!(bytes_less(b"abc", b"abd"));
    assert!(bytes_less(b"Z", b"a"));
    assert!(!bytes_less(b"a", b"a"));
    assert!(!bytes_less(b"", b""));
    assert!(!bytes_less(b"b", b"a"));
    assert!(!bytes_less(b"abc", b"ab"));
    assert!(bytes_less(&[0x7f], &[0x80]));
}

#[test]
fn members_are_ordered_by_key_without_nulls() {
    let doc = parse_json(b"{\"b\":1,\"a\":2,\"d\":null,\"c\":3,\"B\":4}").unwrap();
    match doc {
        JsonValue::Object(members) => {
            assert_eq!(order_members(&members), vec![4, 1, 0, 3]);
        }
        other => panic!("not an object: {:?}", other),
    }
    let same = vec![
        ("k".to_string(), JsonValue::Bool(true)),
        ("a".to_string(), JsonValue::Null),
        ("k".to_string(), JsonValue::Bool(false)),
    ];
    assert_eq!(order_members(&same), vec![0, 2]);
    assert_eq!(order_members(&Vec::new()), Vec::<usize>::new());
}

#[test]
fn a_scalar_is_one_line() {
    assert_eq!(tree_of(b"42"), vec!["42"]);
    assert_eq!(tree_of(b"\"a \\\"b\\\"\""), vec!["\"a \\\"b\\\"\""]);
    assert_eq!(tree_of(b"null"), vec!["null"]);
    let mut lines = vec!["first".to_string()];
    json_tree_lines(&mut lines, "> ", &JsonValue::Bool(true));
    assert_eq!(lines, vec!["first", "> true"]);
}

#[test]
fn an_object_is_a_tree_of_its_members() {
    let lines = tree_of(
        b"{\"version\":\"1\",\"files\":[{\"path\":\"a\",\"size\":1},7],\"common\":{},\
          \"description\":null,\"count\":2,\"nested\":{\"y\":[],\"x\":\"v\"}}",
    );
    assert_eq!(
        lines,
        vec![
            "├─ common:",
            "├─ count: 2",
            "├─ files:",
            "│   ├─",
            "│   │   ├─ path: \"a\"",
            "│   │   └─ size: 1",
            "│   └─ 7",
            "├─ nested:",
            "│   ├─ x: \"v\"",
            "│   └─ y:",
            "└─ version: \"1\"",
        ]
    );
}

#[test]
fn an_array_is_a_tree_of_its_items() {
    assert_eq!(
        tree_of(b"[1,[2,3],null,{\"a\":null,\"b\":[true]}]"),
        vec![
            "├─ 1",
            "├─",
            "│   ├─ 2",
            "│   └─ 3",
            "├─ null",
            "└─",
            "    └─ b:",
            "        └─ true",
        ]
    );
    assert_eq!(tree_of(b"[]"), Vec::<String>::new());
    assert_eq!(tree_of(b"{}"), Vec::<String>::new());
}

#[test]
fn the_file_index_is_hidden_on_demand() {
    let doc = parse_json(b"{\"files\":[1,2],\"n\":1}").unwrap();
    assert_eq!(write_json(&hide_files(doc)), "{\"files\":\"...\",\"n\":1}");
    let doc = parse_json(b"{\"n\":1}").unwrap();
    assert_eq!(write_json(&hide_files(doc)), "{\"n\":1}");
    let doc = parse_json(b"[{\"files\":1}]").unwrap();
    assert_eq!(write_json(&hide_files(doc)), "[{\"files\":1}]");
}

#[test]
fn metadata_is_shown_as_a_tree() {
    let bytes = archive_with(b"{\"version\":\"0.1.0\",\"files\":[{\"path\":\"p\",\"size\":3}]}");
    assert_eq!(
        display_metadata(&bytes, false),
        Ok(vec!["├─ files: \"...\"".to_string(), "└─ version: \"0.1.0\"".to_string()])
    );
    assert_eq!(
        display_metadata(&bytes, true),
        Ok(vec![
            "├─ files:".to_string(),
            "│   └─".to_string(),
            "│       ├─ path: \"p\"".to_string(),
            "│       └─ size: 3".to_string(),
            "└─ version: \"0.1.0\"".to_string(),
        ])
    );
}

#[test]
fn metadata_that_is_missing_or_broken_is_told() {
    assert_eq!(
        display_metadata(&archive_with(b""), true),
        Ok(vec!["No metadata found".to_string()])
    );
    assert_eq!(
        display_metadata(&archive_with(b"{oops"), true),
        Err(XpakError::Metadata(MetadataError::InvalidJson))
    );
    assert_eq!(
        display_metadata(b"ZPAK\x00\x00\x00\x00", true),
        Err(XpakError::Format(FormatError::BadMagic))
    );
    assert_eq!(
        display_metadata(b"XPAK\x04\x00\x00\x00{}", true),
        Err(XpakError::Format(FormatError::Truncated))
    );
}

#[test]
fn sizes_are_shown_in_whole_units() {
    assert_eq!(display_size(0), (0, SizeUnit::Bytes));
    assert_eq!(display_size(1024), (1024, SizeUnit::Bytes));
    assert_eq!(display_size(1025), (1, SizeUnit::Kilobytes));
    assert_eq!(display_size(1024 * 1024), (1024, SizeUnit::Kilobytes));
    assert_eq!(display_size(1024 * 1024 + 1), (1, SizeUnit::Megabytes));
    assert_eq!(display_size(5 * 1024 * 1024 + 7), (5, SizeUnit::Megabytes));
    assert_eq!(display_size(1024 * 1024 * 1024), (1024, SizeUnit::Megabytes));
    assert_eq!(display_size(3 * 1024 * 1024 * 1024), (3, SizeUnit::Gigabytes));
    assert_eq!(display_size(u64::MAX), (17_179_869_183, SizeUnit::Gigabytes));
}

#[test]
fn contents_arrive_whole_by_either_way_of_copying() {
    let small: Vec<u8> = (0..1000u32).map(|i| (i % 251) as u8).collect();
    let large: Vec<u8> = (0..(BUFFER_SIZE as u32 + 17)).map(|i| (i % 253) as u8).collect();
    for content in [&small, &large, &Vec::new()] {
        let mut whole = vec![9u8];
        append_content(&mut whole, content);
        assert_eq!(&whole[1..], &content[..]);
        for chunk in [1usize, 7, 4096, BUFFER_SIZE] {
            let mut pieces = vec![9u8];
            append_in_chunks(&mut pieces, content, chunk);
            assert_eq!(pieces, whole);
        }
    }
}
