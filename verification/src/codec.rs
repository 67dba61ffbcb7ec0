//! The byte layout of an archive: integers, records, header and data region.
//!
//! An archive is the four-byte tag, the length of the metadata, the metadata,
//! the end marker, the number of records and the records. A record is the
//! length of its path, the path, the length of its content and the content.
//! Every length and the count are 32-bit numbers, least significant byte
//! first.

use vstd::prelude::*;
use vstd::slice::slice_subrange;
use vstd::utf8::decode_utf8;
use vstd::utf8::encode_utf8;
use vstd::utf8::valid_utf8;
use vstd::utf8::encode_utf8_valid_utf8;
use vstd::utf8::encode_utf8_decode_utf8;
use crate::common::BUFFER_SIZE;
use crate::common::MAGIC_NUMBER;
use crate::common::MAGIC_METADATA_END;
use crate::common::magic_bytes;
use crate::common::end_marker_bytes;
use crate::error::FormatError;

verus! {

/// The four bytes of `x`, least significant first.
pub open spec fn le32(x: u32) -> Seq<u8> {
    seq![
        (x % 256) as u8,
        (x / 256 % 256) as u8,
        (x / 65536 % 256) as u8,
        (x / 16777216) as u8,
    ]
}

/// The number that the four bytes of `bytes` from `pos` on spell, least
/// significant first.
pub open spec fn le32_at(bytes: Seq<u8>, pos: int) -> int {
    bytes[pos] + 256 * bytes[pos + 1] + 65536 * bytes[pos + 2] + 16777216 * bytes[pos + 3]
}

/// Decoding undoes encoding, wherever the four bytes stand.
pub proof fn lemma_le32_at(bytes: Seq<u8>, pos: int, x: u32)
    requires
        0 <= pos,
        pos + 4 <= bytes.len(),
        bytes.subrange(pos, pos + 4) == le32(x),
    ensures
        le32_at(bytes, pos) == x,
{
    let w = bytes.subrange(pos, pos + 4);
    assert(w[0] == bytes[pos]);
    assert(w[1] == bytes[pos + 1]);
    assert(w[2] == bytes[pos + 2]);
    assert(w[3] == bytes[pos + 3]);
}

/// Appends `x` to `out` as four bytes, least significant first.
pub fn put_u32(out: &mut Vec<u8>, x: u32)
    ensures
        final(out)@ == old(out)@ + le32(x),
{
    out.push((x % 256) as u8);
    out.push((x / 256 % 256) as u8);
    out.push((x / 65536 % 256) as u8);
    out.push((x / 16777216) as u8);
    assert(out@ =~= old(out)@ + le32(x));
}

/// Reads the four bytes from `pos` on as a number, least significant first.
pub fn get_u32(bytes: &[u8], pos: usize) -> (r: u32)
    requires
        pos + 4 <= bytes@.len(),
    ensures
        r == le32_at(bytes@, pos as int),
{
    let b0: u32 = bytes[pos] as u32;
    let b1: u32 = bytes[pos + 1] as u32;
    let b2: u32 = bytes[pos + 2] as u32;
    let b3: u32 = bytes[pos + 3] as u32;
    b0 + 256 * b1 + 65536 * b2 + 16777216 * b3
}

/// Appends the bytes of `src` to `out`.
pub fn append_bytes(out: &mut Vec<u8>, src: &[u8])
    ensures
        final(out)@ == old(out)@ + src@,
{
    out.extend_from_slice(src);
    assert(out@ =~= old(out)@ + src@);
}

/// Appends the bytes of `src` to `out` piece by piece, each piece at most
/// `chunk` bytes long.
pub fn append_in_chunks(out: &mut Vec<u8>, src: &[u8], chunk: usize)
    requires
        chunk > 0,
    ensures
        final(out)@ == old(out)@ + src@,
{
    let len = src.len();
    let mut done: usize = 0;
    proof {
        assert(out@ =~= old(out)@ + src@.take(0));
    }
    while done < len
        invariant
            done <= len,
            len == src@.len(),
            chunk > 0,
            out@ == old(out)@ + src@.take(done as int),
        decreases len - done,
    {
        let piece = if len - done < chunk {
            len - done
        } else {
            chunk
        };
        append_bytes(out, slice_subrange(src, done, done + piece));
        proof {
            assert(out@ =~= old(out)@ + src@.take(done + piece));
        }
        done = done + piece;
    }
    proof {
        assert(src@.take(len as int) =~= src@);
    }
}

/// Appends a content to `out`: in one piece where it is at least as long as
/// the buffer, through pieces of the buffer's size where it is shorter. The
/// bytes that arrive are the same either way.
pub fn append_content(out: &mut Vec<u8>, content: &[u8])
    ensures
        final(out)@ == old(out)@ + content@,
{
    if content.len() >= BUFFER_SIZE {
        append_bytes(out, content);
    } else {
        append_in_chunks(out, content, BUFFER_SIZE);
    }
}

/// `std::str::from_utf8` returns the text that the bytes spell where they
/// are valid UTF-8, and nothing where they are not.
#[verifier::external_body]
pub(crate) fn str_from_utf8(bytes: &[u8]) -> (r: Option<&str>)
    ensures
        match r {
            Some(s) => valid_utf8(bytes@) && s@ == decode_utf8(bytes@),
            None => !valid_utf8(bytes@),
        },
{
    std::str::from_utf8(bytes).ok()
}

/// One file of an archive: its path and its content.
#[derive(Debug, Clone, PartialEq, Eq)]
pub struct FileRecord {
    pub path: String,
    pub content: Vec<u8>,
}

/// A file of an archive as a mathematical value.
pub struct RecordView {
    pub path: Seq<char>,
    pub content: Seq<u8>,
}

impl View for FileRecord {
    type V = RecordView;

    open spec fn view(&self) -> RecordView {
        RecordView { path: self.path@, content: self.content@ }
    }
}

/// The records that a list of files stands for.
pub open spec fn records_view(files: Seq<FileRecord>) -> Seq<RecordView> {
    Seq::new(files.len(), |i: int| files[i]@)
}

/// What stands in an archive before the content of a record.
pub struct RecordHeader {
    pub path: String,
    /// Where the content begins in the archive.
    pub content_start: usize,
    pub content_len: u32,
}

/// The header of a record as a mathematical value.
pub struct RecordHeaderView {
    pub path: Seq<char>,
    pub content_start: int,
    pub content_len: int,
}

impl View for RecordHeader {
    type V = RecordHeaderView;

    open spec fn view(&self) -> RecordHeaderView {
        RecordHeaderView {
            path: self.path@,
            content_start: self.content_start as int,
            content_len: self.content_len as int,
        }
    }
}

/// Whether the lengths of a record fit the 32-bit fields that carry them.
pub open spec fn record_fits(r: RecordView) -> bool {
    encode_utf8(r.path).len() <= u32::MAX && r.content.len() <= u32::MAX
}

/// The bytes of a record.
pub open spec fn record_bytes(r: RecordView) -> Seq<u8> {
    le32(encode_utf8(r.path).len() as u32) + encode_utf8(r.path) + le32(r.content.len() as u32)
        + r.content
}

/// The bytes of a run of records, one after the other.
pub open spec fn records_bytes(rs: Seq<RecordView>) -> Seq<u8>
    decreases rs.len(),
{
    if rs.len() == 0 {
        Seq::empty()
    } else {
        record_bytes(rs.first()) + records_bytes(rs.drop_first())
    }
}

/// The data region of an archive: the number of records, then the records.
pub open spec fn data_region(rs: Seq<RecordView>) -> Seq<u8> {
    le32(rs.len() as u32) + records_bytes(rs)
}

/// The header of an archive around the text of its metadata: the tag, the
/// length of the text, the text, and the end marker where the format has one.
pub open spec fn header_bytes(json: Seq<u8>, with_marker: bool) -> Seq<u8> {
    magic_bytes() + le32(json.len() as u32) + json + if with_marker {
        end_marker_bytes()
    } else {
        Seq::empty()
    }
}

/// The header of the record that begins at `pos`, or why there is none.
pub open spec fn record_header_at(bytes: Seq<u8>, pos: int) -> Result<RecordHeaderView, FormatError> {
    if pos + 4 > bytes.len() {
        Err(FormatError::Truncated)
    } else {
        let path_start = pos + 4;
        let path_end = path_start + le32_at(bytes, pos);
        if path_end > bytes.len() {
            Err(FormatError::Truncated)
        } else if !valid_utf8(bytes.subrange(path_start, path_end)) {
            Err(FormatError::InvalidPath)
        } else if path_end + 4 > bytes.len() {
            Err(FormatError::Truncated)
        } else {
            Ok(
                RecordHeaderView {
                    path: decode_utf8(bytes.subrange(path_start, path_end)),
                    content_start: path_end + 4,
                    content_len: le32_at(bytes, path_end),
                },
            )
        }
    }
}

/// The record that begins at `pos` and the place where it ends, or why there
/// is none.
pub open spec fn record_at(bytes: Seq<u8>, pos: int) -> Result<(RecordView, int), FormatError> {
    match record_header_at(bytes, pos) {
        Err(e) => Err(e),
        Ok(h) => {
            let end = h.content_start + h.content_len;
            if end > bytes.len() {
                Err(FormatError::Truncated)
            } else {
                Ok((RecordView { path: h.path, content: bytes.subrange(h.content_start, end) }, end))
            }
        },
    }
}

/// The `count` records that begin at `pos`, or the first reason why there
/// are not that many.
pub open spec fn records_at(bytes: Seq<u8>, pos: int, count: nat) -> Result<Seq<RecordView>, FormatError>
    decreases count,
{
    if count == 0 {
        Ok(Seq::empty())
    } else {
        match record_at(bytes, pos) {
            Err(e) => Err(e),
            Ok((r, next)) => match records_at(bytes, next, (count - 1) as nat) {
                Err(e) => Err(e),
                Ok(rest) => Ok(seq![r] + rest),
            },
        }
    }
}

/// Whether the bytes begin with the four-byte tag.
pub open spec fn has_magic(bytes: Seq<u8>) -> bool {
    bytes.len() >= 4 && bytes.subrange(0, 4) == magic_bytes()
}

/// Whether the end marker stands at `pos`.
pub open spec fn end_marker_at(bytes: Seq<u8>, pos: int) -> bool {
    pos + 8 <= bytes.len() && bytes.subrange(pos, pos + 8) == end_marker_bytes()
}

/// Where the text of the metadata ends (it begins at 8), or why the bytes
/// hold no metadata section.
pub open spec fn metadata_end(bytes: Seq<u8>) -> Result<int, FormatError> {
    if !has_magic(bytes) {
        Err(FormatError::BadMagic)
    } else if bytes.len() < 8 {
        Err(FormatError::Truncated)
    } else if 8 + le32_at(bytes, 4) > bytes.len() {
        Err(FormatError::Truncated)
    } else {
        Ok(8 + le32_at(bytes, 4))
    }
}

/// Where the data region begins when the metadata ends at `json_end`: right
/// there where the format has no end marker, behind the marker where it has
/// one.
pub open spec fn data_start(bytes: Seq<u8>, json_end: int, with_marker: bool) -> Result<int, FormatError> {
    if !with_marker {
        Ok(json_end)
    } else if json_end + 8 > bytes.len() {
        Err(FormatError::Truncated)
    } else if !end_marker_at(bytes, json_end) {
        Err(FormatError::BadEndMarker)
    } else {
        Ok(json_end + 8)
    }
}

/// The number of records that the data region at `pos` declares.
pub open spec fn count_at(bytes: Seq<u8>, pos: int) -> Result<int, FormatError> {
    if pos + 4 > bytes.len() {
        Err(FormatError::Truncated)
    } else {
        Ok(le32_at(bytes, pos))
    }
}

/// The records of the data region that begins at `pos`: as many as the
/// region declares.
pub open spec fn data_records(bytes: Seq<u8>, pos: int) -> Result<Seq<RecordView>, FormatError> {
    match count_at(bytes, pos) {
        Err(e) => Err(e),
        Ok(n) => records_at(bytes, pos + 4, n as nat),
    }
}

/// The length of a record's bytes: two length fields, the path, the content.
pub proof fn lemma_record_bytes_len(r: RecordView)
    ensures
        record_bytes(r).len() == 8 + encode_utf8(r.path).len() + r.content.len(),
{
}

/// A record that was written can be read again: where the bytes of a record
/// stand at `pre.len()`, that record is read there, and it ends where its
/// bytes end.
pub proof fn lemma_record_at_built(pre: Seq<u8>, r: RecordView, post: Seq<u8>)
    requires
        record_fits(r),
    ensures
        record_at(pre + record_bytes(r) + post, pre.len() as int) == Ok::<
            (RecordView, int),
            FormatError,
        >((r, pre.len() as int + record_bytes(r).len())),
{
    broadcast use {encode_utf8_valid_utf8, encode_utf8_decode_utf8};

    let path = encode_utf8(r.path);
    let bytes = pre + record_bytes(r) + post;
    let pos = pre.len() as int;
    let path_start = pos + 4;
    let path_end = path_start + path.len();
    assert(bytes.subrange(pos, pos + 4) =~= le32(path.len() as u32));
    lemma_le32_at(bytes, pos, path.len() as u32);
    assert(bytes.subrange(path_start, path_end) =~= path);
    assert(bytes.subrange(path_end, path_end + 4) =~= le32(r.content.len() as u32));
    lemma_le32_at(bytes, path_end, r.content.len() as u32);
    assert(bytes.subrange(path_end + 4, path_end + 4 + r.content.len()) =~= r.content);
}

/// The bytes of a run of records with one more record at its end.
pub proof fn lemma_records_bytes_push(rs: Seq<RecordView>, r: RecordView)
    ensures
        records_bytes(rs.push(r)) == records_bytes(rs) + record_bytes(r),
    decreases rs.len(),
{
    if rs.len() == 0 {
        assert(rs.push(r).first() == r);
        assert(rs.push(r).drop_first() =~= Seq::<RecordView>::empty());
        assert(records_bytes(rs.push(r).drop_first()) =~= Seq::<u8>::empty());
        assert(records_bytes(rs) =~= Seq::<u8>::empty());
        assert(records_bytes(rs.push(r)) =~= records_bytes(rs) + record_bytes(r));
    } else {
        assert(rs.push(r).drop_first() =~= rs.drop_first().push(r));
        lemma_records_bytes_push(rs.drop_first(), r);
        assert(records_bytes(rs.push(r)) =~= records_bytes(rs) + record_bytes(r));
    }
}

/// Bytes that stand one after the other can be grouped in any way.
proof fn lemma_regroup(a: Seq<u8>, b: Seq<u8>, c: Seq<u8>, d: Seq<u8>)
    ensures
        a + (b + c) + d == a + b + (c + d),
        a + (b + c) + d == (a + b) + c + d,
{
    assert(a + (b + c) + d =~= a + b + (c + d));
    assert(a + (b + c) + d =~= (a + b) + c + d);
}

/// A run of records that was written can be read again, whatever stands
/// before and behind it.
pub proof fn lemma_records_at_built(pre: Seq<u8>, rs: Seq<RecordView>, post: Seq<u8>)
    requires
        forall|i: int| 0 <= i < rs.len() ==> record_fits(#[trigger] rs[i]),
    ensures
        records_at(pre + records_bytes(rs) + post, pre.len() as int, rs.len()) == Ok::<
            Seq<RecordView>,
            FormatError,
        >(rs),
    decreases rs.len(),
{
    let bytes = pre + records_bytes(rs) + post;
    if rs.len() == 0 {
        assert(rs =~= Seq::<RecordView>::empty());
    } else {
        let first = rs.first();
        let rest = rs.drop_first();
        assert(record_fits(rs[0]));
        assert forall|i: int| 0 <= i < rest.len() implies record_fits(#[trigger] rest[i]) by {
            assert(rest[i] == rs[i + 1]);
        }
        let head = record_bytes(first);
        let tail = records_bytes(rest);
        assert(records_bytes(rs) == head + tail);
        lemma_regroup(pre, head, tail, post);
        lemma_record_at_built(pre, first, tail + post);
        lemma_records_at_built(pre + head, rest, post);
        lemma_record_bytes_len(first);
        assert((pre + head).len() == pre.len() + head.len());
        assert(seq![first] + rest =~= rs);
    }
}

/// A data region that was written can be read again: it declares as many
/// records as were written, and they are read as they were.
pub proof fn lemma_data_records_built(pre: Seq<u8>, rs: Seq<RecordView>, post: Seq<u8>)
    requires
        rs.len() <= u32::MAX,
        forall|i: int| 0 <= i < rs.len() ==> record_fits(#[trigger] rs[i]),
    ensures
        count_at(pre + data_region(rs) + post, pre.len() as int) == Ok::<int, FormatError>(
            rs.len() as int,
        ),
        data_records(pre + data_region(rs) + post, pre.len() as int) == Ok::<
            Seq<RecordView>,
            FormatError,
        >(rs),
{
    let bytes = pre + data_region(rs) + post;
    assert(bytes.subrange(pre.len() as int, pre.len() as int + 4) =~= le32(rs.len() as u32));
    lemma_le32_at(bytes, pre.len() as int, rs.len() as u32);
    assert(bytes =~= (pre + le32(rs.len() as u32)) + records_bytes(rs) + post);
    lemma_records_at_built(pre + le32(rs.len() as u32), rs, post);
}

/// A header that was written can be read again: the tag is found, the text
/// of the metadata stands between 8 and the end that is read, and the data
/// region begins where the header ends.
pub proof fn lemma_header_built(json: Seq<u8>, with_marker: bool, data: Seq<u8>)
    requires
        json.len() <= u32::MAX,
    ensures
        has_magic(header_bytes(json, with_marker) + data),
        metadata_end(header_bytes(json, with_marker) + data) == Ok::<int, FormatError>(
            8 + json.len() as int,
        ),
        (header_bytes(json, with_marker) + data).subrange(8, 8 + json.len() as int) == json,
        data_start(header_bytes(json, with_marker) + data, 8 + json.len() as int, with_marker) == Ok::<
            int,
            FormatError,
        >(header_bytes(json, with_marker).len() as int),
        (header_bytes(json, with_marker) + data).skip(
            header_bytes(json, with_marker).len() as int,
        ) == data,
{
    let header = header_bytes(json, with_marker);
    let bytes = header + data;
    assert(bytes.subrange(0, 4) =~= magic_bytes());
    assert(bytes.subrange(4, 8) =~= le32(json.len() as u32));
    lemma_le32_at(bytes, 4, json.len() as u32);
    assert(bytes.subrange(8, 8 + json.len() as int) =~= json);
    if with_marker {
        assert(bytes.subrange(8 + json.len() as int, 16 + json.len() as int) =~= end_marker_bytes());
    }
    assert(bytes.skip(header.len() as int) =~= data);
}

/// Appends the record of `path` and `content` to `out`. Nothing is appended
/// where a length does not fit its field.
pub fn encode_record(out: &mut Vec<u8>, path: &str, content: &[u8]) -> (r: Result<(), FormatError>)
    ensures
        match r {
            Ok(_) => record_fits(RecordView { path: path@, content: content@ }) && final(out)@
                == old(out)@ + record_bytes(RecordView { path: path@, content: content@ }),
            Err(e) => e == FormatError::TooLarge && !record_fits(
                RecordView { path: path@, content: content@ },
            ) && final(out)@ == old(out)@,
        },
{
    let path_bytes = path.as_bytes();
    if path_bytes.len() > u32::MAX as usize || content.len() > u32::MAX as usize {
        return Err(FormatError::TooLarge);
    }
    put_u32(out, path_bytes.len() as u32);
    append_bytes(out, path_bytes);
    put_u32(out, content.len() as u32);
    append_content(out, content);
    proof {
        let rec = RecordView { path: path@, content: content@ };
        assert(out@ =~= old(out)@ + record_bytes(rec));
    }
    Ok(())
}

/// Reads the header of the record that begins at `pos`.
pub fn decode_record_header(bytes: &[u8], pos: usize) -> (r: Result<RecordHeader, FormatError>)
    ensures
        match r {
            Ok(h) => record_header_at(bytes@, pos as int) == Ok::<RecordHeaderView, FormatError>(h@),
            Err(e) => record_header_at(bytes@, pos as int) == Err::<RecordHeaderView, FormatError>(e),
        },
{
    let len = bytes.len();
    if pos > len || len - pos < 4 {
        return Err(FormatError::Truncated);
    }
    let path_len = get_u32(bytes, pos) as usize;
    let path_start = pos + 4;
    if len - path_start < path_len {
        return Err(FormatError::Truncated);
    }
    let path_end = path_start + path_len;
    let path = match str_from_utf8(slice_subrange(bytes, path_start, path_end)) {
        Some(s) => s,
        None => {
            return Err(FormatError::InvalidPath);
        },
    };
    if len - path_end < 4 {
        return Err(FormatError::Truncated);
    }
    let content_len = get_u32(bytes, path_end);
    Ok(RecordHeader { path: path.to_owned(), content_start: path_end + 4, content_len })
}

/// Reads the record that begins at `pos`, content included, and says where
/// it ends.
pub fn decode_record(bytes: &[u8], pos: usize) -> (r: Result<(FileRecord, usize), FormatError>)
    ensures
        match r {
            Ok((file, next)) => record_at(bytes@, pos as int) == Ok::<(RecordView, int), FormatError>(
                (file@, next as int),
            ),
            Err(e) => record_at(bytes@, pos as int) == Err::<(RecordView, int), FormatError>(e),
        },
{
    let header = decode_record_header(bytes, pos)?;
    let content_len = header.content_len as usize;
    if bytes.len() - header.content_start < content_len {
        return Err(FormatError::Truncated);
    }
    let end = header.content_start + content_len;
    let mut content: Vec<u8> = Vec::new();
    append_content(&mut content, slice_subrange(bytes, header.content_start, end));
    proof {
        assert(content@ =~= bytes@.subrange(header.content_start as int, end as int));
    }
    Ok((FileRecord { path: header.path, content }, end))
}

/// Wraps the text of the metadata into the header of an archive: tag, length,
/// text and end marker.
pub fn frame_header(json: &[u8]) -> (r: Result<Vec<u8>, FormatError>)
    ensures
        match r {
            Ok(out) => json@.len() <= u32::MAX && out@ == header_bytes(json@, true),
            Err(e) => e == FormatError::TooLarge && json@.len() > u32::MAX,
        },
{
    if json.len() > u32::MAX as usize {
        return Err(FormatError::TooLarge);
    }
    let mut out: Vec<u8> = Vec::new();
    append_bytes(&mut out, MAGIC_NUMBER.as_slice());
    put_u32(&mut out, json.len() as u32);
    append_bytes(&mut out, json);
    append_bytes(&mut out, MAGIC_METADATA_END.as_slice());
    proof {
        assert(MAGIC_NUMBER@ =~= magic_bytes());
        assert(MAGIC_METADATA_END@ =~= end_marker_bytes());
        assert(out@ =~= header_bytes(json@, true));
    }
    Ok(out)
}

/// Whether `bytes` holds exactly `expected` from `pos` on.
pub fn holds_at(bytes: &[u8], pos: usize, expected: &[u8]) -> (r: bool)
    requires
        pos + expected@.len() <= bytes@.len(),
    ensures
        r == (bytes@.subrange(pos as int, pos + expected@.len()) == expected@),
{
    let total = bytes.len();
    let mut i: usize = 0;
    while i < expected.len()
        invariant
            i <= expected@.len(),
            pos + expected@.len() <= bytes@.len(),
            total == bytes@.len(),
            forall|j: int| 0 <= j < i ==> bytes@[pos + j] == expected@[j],
        decreases expected@.len() - i,
    {
        if bytes[pos + i] != expected[i] {
            assert(bytes@.subrange(pos as int, pos + expected@.len())[i as int] != expected@[i as int]);
            return false;
        }
        i += 1;
    }
    assert(bytes@.subrange(pos as int, pos + expected@.len()) =~= expected@);
    true
}

/// Checks the tag and the length of the metadata, and says where the text of
/// the metadata ends.
pub fn split_header(bytes: &[u8]) -> (r: Result<usize, FormatError>)
    ensures
        match r {
            Ok(json_end) => metadata_end(bytes@) == Ok::<int, FormatError>(json_end as int),
            Err(e) => metadata_end(bytes@) == Err::<int, FormatError>(e),
        },
{
    proof {
        assert(MAGIC_NUMBER@ =~= magic_bytes());
    }
    if bytes.len() < 4 || !holds_at(bytes, 0, MAGIC_NUMBER.as_slice()) {
        return Err(FormatError::BadMagic);
    }
    if bytes.len() < 8 {
        return Err(FormatError::Truncated);
    }
    let json_len = get_u32(bytes, 4) as usize;
    if bytes.len() - 8 < json_len {
        return Err(FormatError::Truncated);
    }
    Ok(8 + json_len)
}

/// Steps over the end marker where the format has one, and says where the
/// data region begins.
pub fn skip_end_marker(bytes: &[u8], json_end: usize, with_marker: bool) -> (r: Result<usize, FormatError>)
    requires
        json_end <= bytes@.len(),
    ensures
        match r {
            Ok(start) => data_start(bytes@, json_end as int, with_marker) == Ok::<int, FormatError>(
                start as int,
            ),
            Err(e) => data_start(bytes@, json_end as int, with_marker) == Err::<int, FormatError>(e),
        },
{
    proof {
        assert(MAGIC_METADATA_END@ =~= end_marker_bytes());
    }
    if !with_marker {
        return Ok(json_end);
    }
    if bytes.len() - json_end < 8 {
        return Err(FormatError::Truncated);
    }
    if !holds_at(bytes, json_end, MAGIC_METADATA_END.as_slice()) {
        return Err(FormatError::BadEndMarker);
    }
    Ok(json_end + 8)
}

/// Reads the number of records that the data region at `pos` declares.
pub fn read_count(bytes: &[u8], pos: usize) -> (r: Result<u32, FormatError>)
    ensures
        match r {
            Ok(n) => count_at(bytes@, pos as int) == Ok::<int, FormatError>(n as int),
            Err(e) => count_at(bytes@, pos as int) == Err::<int, FormatError>(e),
        },
{
    if pos > bytes.len() || bytes.len() - pos < 4 {
        return Err(FormatError::Truncated);
    }
    Ok(get_u32(bytes, pos))
}

} // verus!
