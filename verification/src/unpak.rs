//! Reading an archive: its files, and the list of its files.

use vstd::prelude::*;
use vstd::slice::slice_subrange;
use std::sync::atomic::AtomicBool;
use crate::cancel::stop_requested;
use crate::codec::FileRecord;
use crate::codec::RecordHeader;
use crate::codec::RecordView;
use crate::codec::append_content;
use crate::codec::count_at;
use crate::codec::data_records;
use crate::codec::decode_record_header;
use crate::codec::metadata_end;
use crate::codec::read_count;
use crate::codec::record_at;
use crate::codec::record_header_at;
use crate::codec::records_at;
use crate::codec::records_view;
use crate::codec::split_header;
use crate::common::GB;
use crate::common::KB;
use crate::common::MB;
use crate::error::FormatError;
use crate::error::XpakError;
use crate::header::data_offset;
use crate::header::decode_header;
use crate::header::header_of;
use crate::header::locate_data;
use crate::metadata::FileInfo;
use crate::metadata::FileInfoView;
use crate::metadata::infos_view;

verus! {

/// The entry of the file index for a record: its path and the length of its
/// content.
pub open spec fn info_of(r: RecordView) -> FileInfoView {
    FileInfoView { path: r.path, size: r.content.len() as u64 }
}

/// The file index of a run of records.
pub open spec fn infos_of(rs: Seq<RecordView>) -> Seq<FileInfoView> {
    Seq::new(rs.len(), |i: int| info_of(rs[i]))
}

/// The sum of the content lengths of a run of records.
pub open spec fn total_size(rs: Seq<RecordView>) -> int
    decreases rs.len(),
{
    if rs.len() == 0 {
        0
    } else {
        total_size(rs.drop_last()) + rs.last().content.len()
    }
}

/// The records `front`, followed by what a read of the rest gave.
pub open spec fn prepend(front: Seq<RecordView>, rest: Result<Seq<RecordView>, FormatError>) -> Result<
    Seq<RecordView>,
    FormatError,
> {
    match rest {
        Ok(rs) => Ok(front + rs),
        Err(e) => Err(e),
    }
}

/// Reading `n` records is reading one and then the others.
pub proof fn lemma_records_at_step(bytes: Seq<u8>, pos: int, n: nat, front: Seq<RecordView>)
    requires
        n > 0,
    ensures
        match record_at(bytes, pos) {
            Ok((rec, next)) => prepend(front, records_at(bytes, pos, n)) == prepend(
                front.push(rec),
                records_at(bytes, next, (n - 1) as nat),
            ),
            Err(e) => prepend(front, records_at(bytes, pos, n)) == Err::<Seq<RecordView>, FormatError>(
                e,
            ),
        },
{
    match record_at(bytes, pos) {
        Ok((rec, next)) => {
            match records_at(bytes, next, (n - 1) as nat) {
                Ok(rest) => {
                    assert(front + (seq![rec] + rest) =~= front.push(rec) + rest);
                },
                Err(_) => {},
            }
        },
        Err(_) => {},
    }
}

/// A read of `n` records gives `n` records.
pub proof fn lemma_records_at_len(bytes: Seq<u8>, pos: int, n: nat)
    ensures
        records_at(bytes, pos, n) is Ok ==> records_at(bytes, pos, n)->Ok_0.len() == n,
    decreases n,
{
    if n > 0 {
        match record_at(bytes, pos) {
            Ok((rec, next)) => {
                lemma_records_at_len(bytes, next, (n - 1) as nat);
            },
            Err(_) => {},
        }
    }
}

/// Reads the header of the record at `pos` and steps over its content.
pub fn skip_record(bytes: &[u8], pos: usize) -> (r: Result<(RecordHeader, usize), FormatError>)
    ensures
        match r {
            Ok((h, next)) => record_header_at(bytes@, pos as int) == Ok::<
                crate::codec::RecordHeaderView,
                FormatError,
            >(h@) && next == h.content_start + h.content_len && record_at(bytes@, pos as int) == Ok::<
                (RecordView, int),
                FormatError,
            >(
                (
                    RecordView {
                        path: h.path@,
                        content: bytes@.subrange(h.content_start as int, next as int),
                    },
                    next as int,
                ),
            ),
            Err(e) => record_at(bytes@, pos as int) == Err::<(RecordView, int), FormatError>(e),
        },
{
    let header = decode_record_header(bytes, pos)?;
    let content_len = header.content_len as usize;
    if bytes.len() - header.content_start < content_len {
        return Err(FormatError::Truncated);
    }
    let next = header.content_start + content_len;
    Ok((header, next))
}

/// Walks over `count` records from `pos` on without reading their contents,
/// and hands out their file index and the sum of their content lengths.
pub fn scan_records(bytes: &[u8], pos: usize, count: u32) -> (r: Result<(Vec<FileInfo>, u64), FormatError>)
    ensures
        match r {
            Ok((files, total)) => {
                let read = records_at(bytes@, pos as int, count as nat);
                read is Ok && infos_view(files@) == infos_of(read->Ok_0) && total == total_size(
                    read->Ok_0,
                )
            },
            Err(e) => records_at(bytes@, pos as int, count as nat) == Err::<
                Seq<RecordView>,
                FormatError,
            >(e),
        },
{
    let mut files: Vec<FileInfo> = Vec::new();
    let mut total: u64 = 0;
    let mut cur: usize = pos;
    let mut i: u32 = 0;
    let ghost mut acc: Seq<RecordView> = Seq::empty();
    proof {
        assert(infos_view(files@) =~= infos_of(acc));
        let read = records_at(bytes@, pos as int, count as nat);
        match read {
            Ok(rs) => {
                assert(acc + rs =~= rs);
            },
            Err(_) => {},
        }
    }
    while i < count
        invariant
            i <= count,
            total <= cur,
            total == total_size(acc),
            acc.len() == i,
            files@.len() == i,
            infos_view(files@) == infos_of(acc),
            records_at(bytes@, pos as int, count as nat) == prepend(
                acc,
                records_at(bytes@, cur as int, (count - i) as nat),
            ),
        decreases count - i,
    {
        proof {
            lemma_records_at_step(bytes@, cur as int, (count - i) as nat, acc);
        }
        match skip_record(bytes, cur) {
            Err(e) => {
                return Err(e);
            },
            Ok((header, next)) => {
                let ghost rec = RecordView {
                    path: header.path@,
                    content: bytes@.subrange(header.content_start as int, next as int),
                };
                proof {
                    assert(acc.push(rec).drop_last() =~= acc);
                    assert(rec.content.len() == header.content_len);
                }
                let ghost before = files@;
                total = total + header.content_len as u64;
                files.push(FileInfo { path: header.path, size: header.content_len as u64 });
                proof {
                    assert(files@[i as int]@ == info_of(rec));
                    assert forall|j: int| 0 <= j < i implies (#[trigger] files@[j])@ == info_of(
                        acc[j],
                    ) by {
                        assert(files@[j] == before[j]);
                        assert(infos_view(before)[j] == infos_of(acc)[j]);
                    }
                    assert(infos_view(files@) =~= infos_of(acc.push(rec)));
                    acc = acc.push(rec);
                }
                cur = next;
                i += 1;
            },
        }
    }
    proof {
        assert(acc + Seq::<RecordView>::empty() =~= acc);
    }
    Ok((files, total))
}

/// The list of the files of an archive.
#[derive(Debug, Clone, PartialEq, Eq)]
pub struct Listing {
    pub files: Vec<FileInfo>,
    /// The number of records.
    pub files_count: u32,
    /// The sum of the content lengths.
    pub total_size: u64,
}

/// The list of the files of an archive as a mathematical value.
pub struct ListingView {
    pub files: Seq<FileInfoView>,
    pub files_count: u32,
    pub total_size: u64,
}

impl View for Listing {
    type V = ListingView;

    open spec fn view(&self) -> ListingView {
        ListingView {
            files: infos_view(self.files@),
            files_count: self.files_count,
            total_size: self.total_size,
        }
    }
}

/// The list that a walk over the records `rs` gives.
pub open spec fn listing_of(rs: Seq<RecordView>) -> ListingView {
    ListingView {
        files: infos_of(rs),
        files_count: rs.len() as u32,
        total_size: total_size(rs) as u64,
    }
}

/// The list of an archive by a walk over its records: what the data region
/// holds, whatever the metadata says.
pub open spec fn scanned(bytes: Seq<u8>) -> Result<ListingView, XpakError> {
    match data_offset(bytes) {
        Err(e) => Err(XpakError::Format(e)),
        Ok(start) => match data_records(bytes, start) {
            Err(e) => Err(XpakError::Format(e)),
            Ok(rs) => Ok(listing_of(rs)),
        },
    }
}

/// The list of an archive as its metadata declares it.
pub open spec fn indexed(bytes: Seq<u8>) -> Result<ListingView, XpakError> {
    match header_of(bytes) {
        Err(e) => Err(e),
        Ok((m, _)) => Ok(
            ListingView { files: m.files, files_count: m.files_count, total_size: m.total_size },
        ),
    }
}

/// Whether an archive has a header with an empty metadata section.
pub open spec fn lacks_metadata(bytes: Seq<u8>) -> bool {
    metadata_end(bytes) == Ok::<int, FormatError>(8)
}

/// The list of the files of an archive: by a walk over its records where
/// that is asked for and where the archive has no metadata, as the metadata
/// declares it otherwise.
pub open spec fn listed(bytes: Seq<u8>, exhaustive: bool) -> Result<ListingView, XpakError> {
    if exhaustive || lacks_metadata(bytes) {
        scanned(bytes)
    } else {
        indexed(bytes)
    }
}

/// Lists the files of an archive by a walk over its records.
pub fn scan_archive(bytes: &[u8]) -> (r: Result<Listing, XpakError>)
    ensures
        match r {
            Ok(list) => scanned(bytes@) == Ok::<ListingView, XpakError>(list@),
            Err(e) => scanned(bytes@) == Err::<ListingView, XpakError>(e),
        },
{
    let start = match locate_data(bytes) {
        Ok(start) => start,
        Err(e) => {
            return Err(XpakError::Format(e));
        },
    };
    let count = match read_count(bytes, start) {
        Ok(count) => count,
        Err(e) => {
            return Err(XpakError::Format(e));
        },
    };
    let len = bytes.len();
    proof {
        assert(start + 4 <= len);
        lemma_records_at_len(bytes@, start + 4, count as nat);
    }
    match scan_records(bytes, start + 4, count) {
        Ok((files, total)) => Ok(Listing { files, files_count: count, total_size: total }),
        Err(e) => Err(XpakError::Format(e)),
    }
}

/// Lists the files of an archive. With `recheck` the list comes from a walk
/// over the records; without it the list is the one that the metadata
/// declares, unless the archive has no metadata.
pub fn list_files(bytes: &[u8], recheck: bool) -> (r: Result<Listing, XpakError>)
    ensures
        match r {
            Ok(list) => listed(bytes@, recheck) == Ok::<ListingView, XpakError>(list@),
            Err(e) => listed(bytes@, recheck) == Err::<ListingView, XpakError>(e),
        },
{
    if !recheck {
        match split_header(bytes) {
            Ok(json_end) => {
                if json_end > 8 {
                    let (m, _) = decode_header(bytes)?;
                    return Ok(
                        Listing { files: m.files, files_count: m.files_count, total_size: m.total_size },
                    );
                }
            },
            Err(e) => {
                return Err(XpakError::Format(e));
            },
        }
    }
    scan_archive(bytes)
}

/// The paths of a selection as mathematical values.
pub open spec fn paths_view(paths: Seq<String>) -> Seq<Seq<char>> {
    Seq::new(paths.len(), |i: int| paths[i]@)
}

/// A selection as a mathematical value: every file where there is none, the
/// listed paths where there is one.
pub open spec fn selection_view(selection: Option<&[String]>) -> Option<Seq<Seq<char>>> {
    match selection {
        Some(paths) => Some(paths_view(paths@)),
        None => None,
    }
}

/// Whether a selection asks for the file at `path`: it does where it is
/// absent, and where `path` is one of its paths, letter for letter.
pub open spec fn is_selected(selection: Option<Seq<Seq<char>>>, path: Seq<char>) -> bool {
    match selection {
        None => true,
        Some(paths) => paths.contains(path),
    }
}

/// The records that a selection asks for, in their order.
pub open spec fn chosen(rs: Seq<RecordView>, selection: Option<Seq<Seq<char>>>) -> Seq<RecordView>
    decreases rs.len(),
{
    if rs.len() == 0 {
        Seq::empty()
    } else if is_selected(selection, rs.last().path) {
        chosen(rs.drop_last(), selection).push(rs.last())
    } else {
        chosen(rs.drop_last(), selection)
    }
}

/// The files that come out of the data region at `start` for a selection,
/// where the metadata declares `declared` records: the region has to
/// declare as many, and every record has to be readable, the ones that are
/// not asked for too.
pub open spec fn unpacked_from(
    bytes: Seq<u8>,
    start: int,
    declared: u32,
    selection: Option<Seq<Seq<char>>>,
) -> Result<Seq<RecordView>, FormatError> {
    match count_at(bytes, start) {
        Err(e) => Err(e),
        Ok(n) => if n != declared {
            Err(FormatError::CountMismatch { declared, actual: n as u32 })
        } else {
            match records_at(bytes, start + 4, n as nat) {
                Err(e) => Err(e),
                Ok(rs) => Ok(chosen(rs, selection)),
            }
        },
    }
}

/// The files that come out of an archive for a selection.
pub open spec fn unpacked(bytes: Seq<u8>, selection: Option<Seq<Seq<char>>>) -> Result<
    Seq<RecordView>,
    XpakError,
> {
    match header_of(bytes) {
        Err(e) => Err(e),
        Ok((m, start)) => match unpacked_from(bytes, start, m.files_count, selection) {
            Err(e) => Err(XpakError::Format(e)),
            Ok(files) => Ok(files),
        },
    }
}

/// Whether the selection asks for the file at `path`.
pub fn selects(selection: Option<&[String]>, path: &String) -> (r: bool)
    ensures
        r == is_selected(selection_view(selection), path@),
{
    match selection {
        None => true,
        Some(paths) => {
            let mut i: usize = 0;
            while i < paths.len()
                invariant
                    i <= paths@.len(),
                    selection_view(selection) == Some(paths_view(paths@)),
                    forall|j: int| 0 <= j < i ==> (#[trigger] paths_view(paths@)[j]) != path@,
                decreases paths@.len() - i,
            {
                if paths[i] == *path {
                    assert(paths_view(paths@)[i as int] == path@);
                    assert(paths_view(paths@).contains(path@));
                    return true;
                }
                i += 1;
            }
            false
        },
    }
}

/// One step of unpacking: the record at `pos` is read, with its content
/// where the selection asks for it, and the place of the next record is
/// handed out. Where the caller has asked to stop, nothing is read.
pub fn unpack_next(bytes: &[u8], pos: usize, selection: Option<&[String]>, cancelled: bool) -> (r: Result<
    (Option<FileRecord>, usize),
    XpakError,
>)
    ensures
        match r {
            Ok((file, next)) => {
                let read = record_at(bytes@, pos as int);
                &&& !cancelled
                &&& read is Ok
                &&& read->Ok_0.1 == next
                &&& match file {
                    Some(f) => is_selected(selection_view(selection), read->Ok_0.0.path) && f@
                        == read->Ok_0.0,
                    None => !is_selected(selection_view(selection), read->Ok_0.0.path),
                }
            },
            Err(e) => if cancelled {
                e == XpakError::Cancelled
            } else {
                record_at(bytes@, pos as int) is Err && e == XpakError::Format(
                    record_at(bytes@, pos as int)->Err_0,
                )
            },
        },
{
    if cancelled {
        return Err(XpakError::Cancelled);
    }
    match skip_record(bytes, pos) {
        Err(e) => Err(XpakError::Format(e)),
        Ok((header, next)) => {
            if selects(selection, &header.path) {
                let mut content: Vec<u8> = Vec::new();
                append_content(&mut content, slice_subrange(bytes, header.content_start, next));
                proof {
                    assert(content@ =~= bytes@.subrange(header.content_start as int, next as int));
                }
                Ok((Some(FileRecord { path: header.path, content }), next))
            } else {
                Ok((None, next))
            }
        },
    }
}

/// The walk behind `unpack_records` and `extract_records`: with a flag it is
/// looked at before each record, without one nothing can stop the walk.
fn walk_records(
    bytes: &[u8],
    start: usize,
    declared: u32,
    selection: Option<&[String]>,
    running: Option<&AtomicBool>,
) -> (r: Result<Vec<FileRecord>, XpakError>)
    ensures
        match r {
            Ok(files) => unpacked_from(bytes@, start as int, declared, selection_view(selection))
                == Ok::<Seq<RecordView>, FormatError>(records_view(files@)),
            Err(XpakError::Cancelled) => running is Some && count_at(bytes@, start as int) == Ok::<
                int,
                FormatError,
            >(declared as int) && declared > 0,
            Err(XpakError::Format(e)) => unpacked_from(
                bytes@,
                start as int,
                declared,
                selection_view(selection),
            ) == Err::<Seq<RecordView>, FormatError>(e),
            Err(XpakError::Metadata(_)) => false,
        },
{
    let count = match read_count(bytes, start) {
        Ok(count) => count,
        Err(e) => {
            return Err(XpakError::Format(e));
        },
    };
    if count != declared {
        return Err(XpakError::Format(FormatError::CountMismatch { declared, actual: count }));
    }
    let len = bytes.len();
    let ghost sel = selection_view(selection);
    let ghost first = start + 4;
    let mut files: Vec<FileRecord> = Vec::new();
    let mut cur: usize = start + 4;
    let mut i: u32 = 0;
    let ghost mut acc: Seq<RecordView> = Seq::empty();
    proof {
        assert(records_view(files@) =~= chosen(acc, sel));
        match records_at(bytes@, first, count as nat) {
            Ok(rs) => {
                assert(acc + rs =~= rs);
            },
            Err(_) => {},
        }
    }
    while i < count
        invariant
            i <= count,
            count == declared,
            count_at(bytes@, start as int) == Ok::<int, FormatError>(count as int),
            first == start + 4,
            sel == selection_view(selection),
            acc.len() == i,
            records_view(files@) == chosen(acc, sel),
            records_at(bytes@, first, count as nat) == prepend(
                acc,
                records_at(bytes@, cur as int, (count - i) as nat),
            ),
        decreases count - i,
    {
        proof {
            lemma_records_at_step(bytes@, cur as int, (count - i) as nat, acc);
        }
        let cancelled = stop_requested(running);
        match unpack_next(bytes, cur, selection, cancelled) {
            Err(e) => {
                return Err(e);
            },
            Ok((file, next)) => {
                let ghost rec = record_at(bytes@, cur as int)->Ok_0.0;
                let ghost before = files@;
                match file {
                    Some(f) => {
                        files.push(f);
                    },
                    None => {},
                }
                proof {
                    assert(acc.push(rec).drop_last() =~= acc);
                    assert(records_view(files@) =~= chosen(acc.push(rec), sel)) by {
                        if is_selected(sel, rec.path) {
                            assert(files@ == before.push(files@[before.len() as int]));
                            assert(records_view(files@) =~= records_view(before).push(rec));
                        }
                    }
                    acc = acc.push(rec);
                }
                cur = next;
                i += 1;
            },
        }
    }
    proof {
        assert(acc + Seq::<RecordView>::empty() =~= acc);
    }
    Ok(files)
}

/// Reads the files that the selection asks for out of the data region at
/// `start`, where the metadata declares `declared` records. Before each
/// record the caller's flag is looked at, and the walk ends with
/// `Cancelled` where it says to stop.
pub fn unpack_records(
    bytes: &[u8],
    start: usize,
    declared: u32,
    selection: Option<&[String]>,
    running: &AtomicBool,
) -> (r: Result<Vec<FileRecord>, XpakError>)
    ensures
        match r {
            Ok(files) => unpacked_from(bytes@, start as int, declared, selection_view(selection))
                == Ok::<Seq<RecordView>, FormatError>(records_view(files@)),
            Err(XpakError::Cancelled) => count_at(bytes@, start as int) == Ok::<int, FormatError>(
                declared as int,
            ) && declared > 0,
            Err(XpakError::Format(e)) => unpacked_from(
                bytes@,
                start as int,
                declared,
                selection_view(selection),
            ) == Err::<Seq<RecordView>, FormatError>(e),
            Err(XpakError::Metadata(_)) => false,
        },
{
    walk_records(bytes, start, declared, selection, Some(running))
}

/// Reads the files that the selection asks for out of the data region at
/// `start`, where the metadata declares `declared` records, without a flag
/// to stop by.
pub fn extract_records(bytes: &[u8], start: usize, declared: u32, selection: Option<&[String]>) -> (r:
    Result<Vec<FileRecord>, FormatError>)
    ensures
        match r {
            Ok(files) => unpacked_from(bytes@, start as int, declared, selection_view(selection))
                == Ok::<Seq<RecordView>, FormatError>(records_view(files@)),
            Err(e) => unpacked_from(bytes@, start as int, declared, selection_view(selection))
                == Err::<Seq<RecordView>, FormatError>(e),
        },
{
    match walk_records(bytes, start, declared, selection, None) {
        Ok(files) => Ok(files),
        Err(XpakError::Format(e)) => Err(e),
        Err(_) => vstd::pervasive::unreached(),
    }
}

/// Reads the files of an archive: all of them, or the ones whose paths
/// `selected_files` lists. The header has to be well-formed, and the data
/// region has to declare as many records as the metadata. Before each record
/// the caller's flag is looked at, and the walk ends with `Cancelled` where
/// it says to stop.
pub fn unpack_files(bytes: &[u8], selected_files: Option<&[String]>, running: &AtomicBool) -> (r: Result<
    Vec<FileRecord>,
    XpakError,
>)
    ensures
        match r {
            Ok(files) => unpacked(bytes@, selection_view(selected_files)) == Ok::<
                Seq<RecordView>,
                XpakError,
            >(records_view(files@)),
            Err(XpakError::Cancelled) => header_of(bytes@) is Ok && header_of(
                bytes@,
            )->Ok_0.0.files_count > 0 && count_at(bytes@, header_of(bytes@)->Ok_0.1) == Ok::<
                int,
                FormatError,
            >(header_of(bytes@)->Ok_0.0.files_count as int),
            Err(e) => unpacked(bytes@, selection_view(selected_files)) == Err::<
                Seq<RecordView>,
                XpakError,
            >(e),
        },
{
    let (m, start) = decode_header(bytes)?;
    unpack_records(bytes, start, m.files_count, selected_files, running)
}

/// Reads the files of an archive as `unpack_files` does, without a flag to
/// stop by: what comes back is what the archive and the selection give.
pub fn extract_files(bytes: &[u8], selected_files: Option<&[String]>) -> (r: Result<
    Vec<FileRecord>,
    XpakError,
>)
    ensures
        match r {
            Ok(files) => unpacked(bytes@, selection_view(selected_files)) == Ok::<
                Seq<RecordView>,
                XpakError,
            >(records_view(files@)),
            Err(e) => unpacked(bytes@, selection_view(selected_files)) == Err::<
                Seq<RecordView>,
                XpakError,
            >(e),
        },
{
    let (m, start) = decode_header(bytes)?;
    match extract_records(bytes, start, m.files_count, selected_files) {
        Ok(files) => Ok(files),
        Err(e) => Err(XpakError::Format(e)),
    }
}

/// The unit in which a size is shown.
#[derive(Debug, Clone, Copy, PartialEq, Eq, Structural)]
pub enum SizeUnit {
    Bytes,
    Kilobytes,
    Megabytes,
    Gigabytes,
}

/// The unit in which a size is shown: the largest of which the size has
/// more than one.
pub open spec fn unit_of(size: u64) -> SizeUnit {
    if size > 1073741824 {
        SizeUnit::Gigabytes
    } else if size > 1048576 {
        SizeUnit::Megabytes
    } else if size > 1024 {
        SizeUnit::Kilobytes
    } else {
        SizeUnit::Bytes
    }
}

/// A size as it is shown: in whole units of the largest unit of which it has
/// more than one, what is left over being dropped.
pub fn display_size(size: u64) -> (r: (u64, SizeUnit))
    ensures
        r.1 == unit_of(size),
        r.0 == match r.1 {
            SizeUnit::Bytes => size,
            SizeUnit::Kilobytes => size / 1024,
            SizeUnit::Megabytes => size / 1048576,
            SizeUnit::Gigabytes => size / 1073741824,
        },
{
    assert(KB == 1024 && MB == 1048576 && GB == 1073741824);
    if size > GB as u64 {
        (size / GB as u64, SizeUnit::Gigabytes)
    } else if size > MB as u64 {
        (size / MB as u64, SizeUnit::Megabytes)
    } else if size > KB as u64 {
        (size / KB as u64, SizeUnit::Kilobytes)
    } else {
        (size, SizeUnit::Bytes)
    }
}

} // verus!
