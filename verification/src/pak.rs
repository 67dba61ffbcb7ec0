//! Writing an archive from a list of files.

use vstd::prelude::*;
use std::sync::atomic::AtomicBool;
use crate::cancel::stop_requested;
use crate::codec::FileRecord;
use crate::codec::RecordView;
use crate::codec::data_region;
use crate::codec::encode_record;
use crate::codec::header_bytes;
use crate::codec::le32;
use crate::codec::lemma_records_bytes_push;
use crate::codec::put_u32;
use crate::codec::record_bytes;
use crate::codec::record_fits;
use crate::codec::records_bytes;
use crate::common::FORMAT_VERSION;
use crate::common::PACKAGE_VERSION;
use crate::error::FormatError;
use crate::error::MetadataError;
use crate::error::XpakError;
use crate::header::encode_header;
use crate::header::metadata_text;
use crate::json::JsonView;
use crate::metadata::FileInfo;
use crate::metadata::MetadataView;
use crate::metadata::XpakMetadata;
use crate::metadata::current_timestamp;
use crate::metadata::infos_view;
use crate::metadata::merge_entries;
use crate::json::merged;
use crate::metadata::resolve_user_metadata;
use crate::metadata::resolved_entries;
use crate::text::base_name;
use crate::text::base_name_of;
use crate::text::normalize_separators;
use crate::text::normalized;
use crate::unpak::infos_of;
use crate::unpak::total_size;

verus! {

/// The path under which a file is written: with forward slashes, and cut
/// down to its base name where the archive is to be flat.
pub open spec fn record_path(path: Seq<char>, flat: bool) -> Seq<char> {
    if flat {
        base_name(normalized(path))
    } else {
        normalized(path)
    }
}

/// The record that is written for a file.
pub open spec fn packed_record(file: RecordView, flat: bool) -> RecordView {
    RecordView { path: record_path(file.path, flat), content: file.content }
}

/// The records that are written for a list of files, one for each file, in
/// their order. Two files that get the same path both have their record.
pub open spec fn packed_records(files: Seq<RecordView>, flat: bool) -> Seq<RecordView> {
    Seq::new(files.len(), |i: int| packed_record(files[i], flat))
}

/// An archive: the header with the metadata `m`, then the data region with
/// the records `rs`.
pub open spec fn archive_of(m: MetadataView, rs: Seq<RecordView>) -> Seq<u8> {
    header_bytes(metadata_text(m), true) + data_region(rs)
}

/// The entries that the user's metadata declares, none where there is no
/// such metadata.
pub open spec fn given_entries(user_meta: Option<Seq<char>>) -> Result<
    Seq<(Seq<char>, JsonView)>,
    MetadataError,
> {
    match user_meta {
        Some(text) => resolved_entries(vstd::utf8::encode_utf8(text)),
        None => Ok(Seq::empty()),
    }
}

/// The metadata of the archive that is packed from `files` at the time
/// `created_at`.
pub open spec fn pack_metadata(
    files: Seq<RecordView>,
    flat: bool,
    description: Option<Seq<char>>,
    entries: Seq<(Seq<char>, JsonView)>,
    created_at: Seq<char>,
) -> MetadataView {
    MetadataView {
        version: PACKAGE_VERSION@,
        format_version: FORMAT_VERSION@,
        created_at,
        files_count: files.len() as u32,
        total_size: total_size(files) as u64,
        description,
        common: merged(Seq::empty(), entries),
        files: infos_of(packed_records(files, flat)),
    }
}

/// Whether every record of `files` fits the fields of the format.
pub open spec fn records_fit(files: Seq<RecordView>, flat: bool) -> bool {
    forall|i: int| 0 <= i < files.len() ==> record_fits(#[trigger] packed_record(files[i], flat))
}

/// The metadata with which `files` are packed at the time `created_at`, or
/// why nothing is packed: too many files or bytes for the counts of the
/// metadata, metadata of the user that cannot be read, or a metadata text
/// too long for its length field.
pub open spec fn packed_metadata(
    files: Seq<RecordView>,
    flat: bool,
    description: Option<Seq<char>>,
    user_meta: Option<Seq<char>>,
    created_at: Seq<char>,
) -> Result<MetadataView, XpakError> {
    if files.len() > u32::MAX || total_size(files) > u64::MAX {
        Err(XpakError::Format(FormatError::TooLarge))
    } else {
        match given_entries(user_meta) {
            Err(e) => Err(XpakError::Metadata(e)),
            Ok(entries) => {
                let m = pack_metadata(files, flat, description, entries, created_at);
                if metadata_text(m).len() > u32::MAX {
                    Err(XpakError::Format(FormatError::TooLarge))
                } else {
                    Ok(m)
                }
            },
        }
    }
}

/// The archive that is packed from `files` at the time `created_at`, or why
/// there is none: the metadata cannot be made, or a record is too long for
/// its length fields.
pub open spec fn packed(
    files: Seq<RecordView>,
    flat: bool,
    description: Option<Seq<char>>,
    user_meta: Option<Seq<char>>,
    created_at: Seq<char>,
) -> Result<Seq<u8>, XpakError> {
    match packed_metadata(files, flat, description, user_meta, created_at) {
        Err(e) => Err(e),
        Ok(m) => if !records_fit(files, flat) {
            Err(XpakError::Format(FormatError::TooLarge))
        } else {
            Ok(archive_of(m, packed_records(files, flat)))
        },
    }
}

/// A string as a mathematical value, where there is one.
pub open spec fn text_view(text: Option<&str>) -> Option<Seq<char>> {
    match text {
        Some(t) => Some(t@),
        None => None,
    }
}

/// The path under which the file at `path` is written.
pub fn record_path_of(path: &str, flat: bool) -> (r: String)
    ensures
        r@ == record_path(path@, flat),
{
    let normal = normalize_separators(path);
    if flat {
        base_name_of(normal.as_str())
    } else {
        normal
    }
}

/// The sum of the content lengths of `files`, where it fits 64 bits.
pub fn sum_sizes(files: &Vec<FileRecord>) -> (r: Option<u64>)
    ensures
        match r {
            Some(total) => total == total_size(crate::codec::records_view(files@)),
            None => total_size(crate::codec::records_view(files@)) > u64::MAX,
        },
{
    let ghost all = crate::codec::records_view(files@);
    let mut total: u64 = 0;
    let mut i: usize = 0;
    proof {
        assert(all.take(0) =~= Seq::<RecordView>::empty());
    }
    while i < files.len()
        invariant
            i <= files@.len(),
            all == crate::codec::records_view(files@),
            total == total_size(all.take(i as int)),
        decreases files@.len() - i,
    {
        proof {
            assert(all.take(i + 1).drop_last() =~= all.take(i as int));
            assert(all.take(i + 1).last() == files@[i as int]@);
            lemma_total_size_grows(all, i + 1);
        }
        match total.checked_add(files[i].content.len() as u64) {
            Some(t) => {
                total = t;
            },
            None => {
                return None;
            },
        }
        i += 1;
    }
    proof {
        assert(all.take(files@.len() as int) =~= all);
    }
    Some(total)
}

/// The sum of the content lengths of the first records of a run is at most
/// the sum of all of them.
pub proof fn lemma_total_size_grows(rs: Seq<RecordView>, n: int)
    requires
        0 <= n <= rs.len(),
    ensures
        0 <= total_size(rs.take(n)) <= total_size(rs),
    decreases rs.len() - n,
{
    lemma_total_size_nonnegative(rs.take(n));
    if n == rs.len() {
        assert(rs.take(n) =~= rs);
    } else {
        lemma_total_size_grows(rs, n + 1);
        assert(rs.take(n + 1).drop_last() =~= rs.take(n));
    }
}

/// The sum of content lengths is not negative.
pub proof fn lemma_total_size_nonnegative(rs: Seq<RecordView>)
    ensures
        0 <= total_size(rs),
    decreases rs.len(),
{
    if rs.len() > 0 {
        lemma_total_size_nonnegative(rs.drop_last());
    }
}

/// The file index of the archive that is packed from `files`.
pub fn index_files(files: &Vec<FileRecord>, flat: bool) -> (r: Vec<FileInfo>)
    ensures
        infos_view(r@) == infos_of(packed_records(crate::codec::records_view(files@), flat)),
{
    let ghost all = crate::codec::records_view(files@);
    let mut out: Vec<FileInfo> = Vec::new();
    let mut i: usize = 0;
    while i < files.len()
        invariant
            i <= files@.len(),
            out@.len() == i,
            all == crate::codec::records_view(files@),
            forall|j: int|
                0 <= j < i ==> (#[trigger] out@[j])@ == crate::unpak::info_of(
                    packed_record(all[j], flat),
                ),
        decreases files@.len() - i,
    {
        let path = record_path_of(files[i].path.as_str(), flat);
        out.push(FileInfo { path, size: files[i].content.len() as u64 });
        i += 1;
    }
    proof {
        assert(infos_view(out@) =~= infos_of(packed_records(all, flat)));
    }
    out
}

/// One step of packing: the record of `file` is appended to `out`. Where
/// the caller has asked to stop, and where the record does not fit the
/// format, nothing is appended.
pub fn pack_next(out: &mut Vec<u8>, file: &FileRecord, flat: bool, cancelled: bool) -> (r: Result<
    (),
    XpakError,
>)
    ensures
        match r {
            Ok(_) => !cancelled && record_fits(packed_record(file@, flat)) && final(out)@ == old(
                out,
            )@ + record_bytes(packed_record(file@, flat)),
            Err(e) => final(out)@ == old(out)@ && if cancelled {
                e == XpakError::Cancelled
            } else {
                e == XpakError::Format(FormatError::TooLarge) && !record_fits(
                    packed_record(file@, flat),
                )
            },
        },
{
    if cancelled {
        return Err(XpakError::Cancelled);
    }
    let path = record_path_of(file.path.as_str(), flat);
    match encode_record(out, path.as_str(), file.content.as_slice()) {
        Ok(_) => Ok(()),
        Err(e) => Err(XpakError::Format(e)),
    }
}

/// The work behind `pack_files_at` and `pack_archive`: with a flag it is
/// looked at before each file, without one nothing can stop the packing.
fn pack_with(
    files: &Vec<FileRecord>,
    flat: bool,
    description: Option<&str>,
    metadata: Option<&str>,
    created_at: String,
    running: Option<&AtomicBool>,
) -> (r: Result<Vec<u8>, XpakError>)
    ensures
        match r {
            Ok(out) => packed(
                crate::codec::records_view(files@),
                flat,
                text_view(description),
                text_view(metadata),
                created_at@,
            ) == Ok::<Seq<u8>, XpakError>(out@),
            Err(XpakError::Cancelled) => running is Some && files@.len() > 0 && packed_metadata(
                crate::codec::records_view(files@),
                flat,
                text_view(description),
                text_view(metadata),
                created_at@,
            ) is Ok,
            Err(e) => packed(
                crate::codec::records_view(files@),
                flat,
                text_view(description),
                text_view(metadata),
                created_at@,
            ) == Err::<Seq<u8>, XpakError>(e),
        },
{
    let ghost all = crate::codec::records_view(files@);
    let ghost at = created_at@;
    if files.len() > u32::MAX as usize {
        return Err(XpakError::Format(FormatError::TooLarge));
    }
    let total = match sum_sizes(files) {
        Some(total) => total,
        None => {
            return Err(XpakError::Format(FormatError::TooLarge));
        },
    };
    let mut m = XpakMetadata::with_timestamp(files.len() as u32, total, created_at);
    match description {
        Some(d) => {
            m.description = Some(d.to_owned());
        },
        None => {},
    }
    match metadata {
        Some(text) => {
            let entries = match resolve_user_metadata(text) {
                Ok(entries) => entries,
                Err(e) => {
                    return Err(XpakError::Metadata(e));
                },
            };
            merge_entries(&mut m.common, &entries);
        },
        None => {},
    }
    m.files = index_files(files, flat);
    proof {
        assert(merged(Seq::<(Seq<char>, JsonView)>::empty(), Seq::empty()) == Seq::<
            (Seq<char>, JsonView),
        >::empty());
        assert(m@ == pack_metadata(
            all,
            flat,
            text_view(description),
            given_entries(text_view(metadata))->Ok_0,
            created_at@,
        ));
    }
    let mut out = match encode_header(&m) {
        Ok(out) => out,
        Err(e) => {
            return Err(XpakError::Format(e));
        },
    };
    put_u32(&mut out, files.len() as u32);
    let ghost header = header_bytes(metadata_text(m@), true);
    let ghost records = packed_records(all, flat);
    let mut i: usize = 0;
    proof {
        assert(records.take(0) =~= Seq::<RecordView>::empty());
        assert(out@ =~= header + le32(files@.len() as u32) + records_bytes(records.take(0)));
    }
    while i < files.len()
        invariant
            i <= files@.len(),
            files@.len() <= u32::MAX,
            all == crate::codec::records_view(files@),
            at == created_at@,
            packed_metadata(all, flat, text_view(description), text_view(metadata), at) is Ok,
            records == packed_records(all, flat),
            out@ == header + le32(files@.len() as u32) + records_bytes(records.take(i as int)),
            forall|j: int| 0 <= j < i ==> record_fits(#[trigger] packed_record(all[j], flat)),
        decreases files@.len() - i,
    {
        let cancelled = stop_requested(running);
        match pack_next(&mut out, &files[i], flat, cancelled) {
            Ok(_) => {},
            Err(e) => {
                proof {
                    if !cancelled {
                        assert(!record_fits(packed_record(all[i as int], flat)));
                    }
                }
                return Err(e);
            },
        }
        proof {
            assert(records.take(i + 1) =~= records.take(i as int).push(records[i as int]));
            lemma_records_bytes_push(records.take(i as int), records[i as int]);
            assert(out@ =~= header + le32(files@.len() as u32) + records_bytes(records.take(i + 1)));
        }
        i += 1;
    }
    proof {
        assert(records.take(files@.len() as int) =~= records);
        assert(out@ =~= archive_of(m@, records));
    }
    Ok(out)
}

/// Packs `files` into an archive with metadata written at the time
/// `created_at`. The paths get forward slashes, and are cut down to their
/// base names where `flat` is set. `metadata` is a JSON object, as it is or
/// in base64, whose members become the user's entries. Before each file the
/// caller's flag is looked at, and packing ends with `Cancelled` and without
/// an archive where it says to stop.
pub fn pack_files_at(
    files: &Vec<FileRecord>,
    flat: bool,
    description: Option<&str>,
    metadata: Option<&str>,
    created_at: String,
    running: &AtomicBool,
) -> (r: Result<Vec<u8>, XpakError>)
    ensures
        match r {
            Ok(out) => packed(
                crate::codec::records_view(files@),
                flat,
                text_view(description),
                text_view(metadata),
                created_at@,
            ) == Ok::<Seq<u8>, XpakError>(out@),
            Err(XpakError::Cancelled) => files@.len() > 0 && packed_metadata(
                crate::codec::records_view(files@),
                flat,
                text_view(description),
                text_view(metadata),
                created_at@,
            ) is Ok,
            Err(e) => packed(
                crate::codec::records_view(files@),
                flat,
                text_view(description),
                text_view(metadata),
                created_at@,
            ) == Err::<Seq<u8>, XpakError>(e),
        },
{
    pack_with(files, flat, description, metadata, created_at, Some(running))
}

/// Packs `files` into an archive as `pack_files_at` does, without a flag to
/// stop by: what comes back is what the files, the options and the time
/// give.
pub fn pack_archive(
    files: &Vec<FileRecord>,
    flat: bool,
    description: Option<&str>,
    metadata: Option<&str>,
    created_at: String,
) -> (r: Result<Vec<u8>, XpakError>)
    ensures
        match r {
            Ok(out) => packed(
                crate::codec::records_view(files@),
                flat,
                text_view(description),
                text_view(metadata),
                created_at@,
            ) == Ok::<Seq<u8>, XpakError>(out@),
            Err(e) => e != XpakError::Cancelled && packed(
                crate::codec::records_view(files@),
                flat,
                text_view(description),
                text_view(metadata),
                created_at@,
            ) == Err::<Seq<u8>, XpakError>(e),
        },
{
    pack_with(files, flat, description, metadata, created_at, None)
}

/// Packs `files` into an archive, with metadata written now. It does what
/// `pack_files_at` does for the time of the call.
pub fn pack_files(
    files: &Vec<FileRecord>,
    flat: bool,
    description: Option<&str>,
    metadata: Option<&str>,
    running: &AtomicBool,
) -> (r: Result<Vec<u8>, XpakError>)
    ensures
        exists|created_at: Seq<char>|
            match r {
                Ok(out) => #[trigger] packed(
                    crate::codec::records_view(files@),
                    flat,
                    text_view(description),
                    text_view(metadata),
                    created_at,
                ) == Ok::<Seq<u8>, XpakError>(out@),
                Err(XpakError::Cancelled) => files@.len() > 0 && packed_metadata(
                    crate::codec::records_view(files@),
                    flat,
                    text_view(description),
                    text_view(metadata),
                    created_at,
                ) is Ok,
                Err(e) => packed(
                    crate::codec::records_view(files@),
                    flat,
                    text_view(description),
                    text_view(metadata),
                    created_at,
                ) == Err::<Seq<u8>, XpakError>(e),
            },
{
    let created_at = current_timestamp();
    let ghost at = created_at@;
    let r = pack_files_at(files, flat, description, metadata, created_at, running);
    proof {
        let all = crate::codec::records_view(files@);
        let p = packed(all, flat, text_view(description), text_view(metadata), at);
        assert(match r {
            Ok(out) => p == Ok::<Seq<u8>, XpakError>(out@),
            Err(XpakError::Cancelled) => files@.len() > 0 && packed_metadata(
                all,
                flat,
                text_view(description),
                text_view(metadata),
                at,
            ) is Ok,
            Err(e) => p == Err::<Seq<u8>, XpakError>(e),
        });
    }
    r
}

} // verus!
