use xpak::codec::{
    append_bytes, decode_record, decode_record_header, encode_record, frame_header, get_u32,
    put_u32, read_count, skip_end_marker, split_header, FileRecord,
};
use xpak::common::{MAGIC_METADATA_END, MAGIC_NUMBER};
use xpak::error::FormatError;

#[test]
fn magic_constants_spell_their_names() {
    assert_eq!(&MAGIC_NUMBER, b"XPAK");
    assert_eq!(&MAGIC_METADATA_END, b"METAEND_");
}

#[test]
fn put_u32_is_little_endian() {
    let mut out = vec![0xffu8];
    put_u32(&mut out, 0x0403_0201);
    assert_eq!(out, vec![0xff, 0x01, 0x02, 0x03, 0x04]);
    put_u32(&mut out, 0);
    put_u32(&mut out, u32::MAX);
    assert_eq!(&out[5..], &[0, 0, 0, 0, 0xff, 0xff, 0xff, 0xff]);
}

#[test]
fn get_u32_reads_what_put_u32_wrote() {
    for x in [0u32, 1, 255, 256, 65_535, 65_536, 16_777_216, 0xdead_beef, u32::MAX] {
        let mut out = vec![7u8, 7, 7];
        put_u32(&mut out, x);
        out.push(9);
        assert_eq!(get_u32(&out, 3), x);
        assert_eq!(out[3..7], x.to_le_bytes());
    }
}

#[test]
fn append_bytes_keeps_what_was_there() {
    let mut out = vec![1u8, 2];
    append_bytes(&mut out, &[3, 4, 5]);
    append_bytes(&mut out, &[]);
    assert_eq!(out, vec![1, 2, 3, 4, 5]);
}

#[test]
fn encode_record_writes_lengths_path_and_content() {
    let mut out = Vec::new();
    assert_eq!(encode_record(&mut out, "a/b.txt", b"hello"), Ok(()));
    let mut expected = vec![7u8, 0, 0, 0];
    expected.extend_from_slice(b"a/b.txt");
    expected.extend_from_slice(&[5, 0, 0, 0]);
    expected.extend_from_slice(b"hello");
    assert_eq!(out, expected);
}

#[test]
fn encode_record_counts_the_bytes_of_the_path() {
    let mut out = Vec::new();
    assert_eq!(encode_record(&mut out, "é", b""), Ok(()));
    assert_eq!(out, vec![2, 0, 0, 0, 0xc3, 0xa9, 0, 0, 0, 0]);
}

#[test]
fn decode_record_header_reads_path_and_length() {
    let mut bytes = vec![0xaau8; 3];
    encode_record(&mut bytes, "dir/file", b"0123456789").unwrap();
    let header = decode_record_header(&bytes, 3).unwrap();
    assert_eq!(header.path, "dir/file");
    assert_eq!(header.content_len, 10);
    assert_eq!(header.content_start, 3 + 4 + 8 + 4);
}

#[test]
fn decode_record_gives_back_the_record() {
    let mut bytes = Vec::new();
    encode_record(&mut bytes, "x", b"abc").unwrap();
    encode_record(&mut bytes, "y/z", b"").unwrap();
    let (first, next) = decode_record(&bytes, 0).unwrap();
    assert_eq!(first, FileRecord { path: "x".to_string(), content: b"abc".to_vec() });
    assert_eq!(next, 4 + 1 + 4 + 3);
    let (second, end) = decode_record(&bytes, next).unwrap();
    assert_eq!(second, FileRecord { path: "y/z".to_string(), content: Vec::new() });
    assert_eq!(end, bytes.len());
}

#[test]
fn decode_record_header_rejects_a_path_that_is_not_utf8() {
    let bytes = vec![2u8, 0, 0, 0, 0xff, 0xfe, 0, 0, 0, 0];
    assert_eq!(decode_record_header(&bytes, 0).err(), Some(FormatError::InvalidPath));
}

#[test]
fn decode_record_header_reports_truncation() {
    let mut bytes = Vec::new();
    encode_record(&mut bytes, "abc", b"xyz").unwrap();
    assert_eq!(decode_record_header(&bytes[..3], 0).err(), Some(FormatError::Truncated));
    assert_eq!(decode_record_header(&bytes[..6], 0).err(), Some(FormatError::Truncated));
    assert_eq!(decode_record_header(&bytes[..9], 0).err(), Some(FormatError::Truncated));
    assert!(decode_record_header(&bytes[..11], 0).is_ok());
    assert_eq!(decode_record(&bytes[..13], 0).err(), Some(FormatError::Truncated));
    assert_eq!(decode_record_header(&bytes, bytes.len() + 1).err(), Some(FormatError::Truncated));
}

#[test]
fn frame_header_wraps_the_text() {
    let header = frame_header(b"{}").unwrap();
    let mut expected = b"XPAK".to_vec();
    expected.extend_from_slice(&[2, 0, 0, 0]);
    expected.extend_from_slice(b"{}");
    expected.extend_from_slice(b"METAEND_");
    assert_eq!(header, expected);
}

#[test]
fn split_header_finds_the_end_of_the_metadata() {
    let mut bytes = frame_header(b"{\"a\":1}").unwrap();
    bytes.extend_from_slice(&[0, 0, 0, 0]);
    assert_eq!(split_header(&bytes), Ok(15));
    assert_eq!(skip_end_marker(&bytes, 15, true), Ok(23));
    assert_eq!(skip_end_marker(&bytes, 15, false), Ok(15));
    assert_eq!(read_count(&bytes, 23), Ok(0));
}

#[test]
fn split_header_rejects_a_wrong_tag() {
    assert_eq!(split_header(b"XPAX\x00\x00\x00\x00"), Err(FormatError::BadMagic));
    assert_eq!(split_header(b"XPA"), Err(FormatError::BadMagic));
    assert_eq!(split_header(b""), Err(FormatError::BadMagic));
}

#[test]
fn split_header_reports_truncation() {
    assert_eq!(split_header(b"XPAK\x00\x00"), Err(FormatError::Truncated));
    assert_eq!(split_header(b"XPAK\x05\x00\x00\x00abcd"), Err(FormatError::Truncated));
    assert_eq!(split_header(b"XPAK\x05\x00\x00\x00abcde"), Ok(13));
}

#[test]
fn skip_end_marker_rejects_other_bytes() {
    let mut bytes = b"XPAK\x00\x00\x00\x00".to_vec();
    bytes.extend_from_slice(b"METAEND!");
    assert_eq!(skip_end_marker(&bytes, 8, true), Err(FormatError::BadEndMarker));
    assert_eq!(skip_end_marker(&bytes[..12], 8, true), Err(FormatError::Truncated));
}

#[test]
fn read_count_reports_truncation() {
    assert_eq!(read_count(&[1, 0, 0], 0), Err(FormatError::Truncated));
    assert_eq!(read_count(&[1, 0, 0, 0], 1), Err(FormatError::Truncated));
    assert_eq!(read_count(&[9, 1, 2, 0, 0], 1), Ok(0x0201));
}
