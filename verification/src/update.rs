//! Replacing the metadata of an archive while its data region stays as it
//! is.

use vstd::prelude::*;
use vstd::slice::slice_subrange;
use crate::codec::RecordView;
use crate::codec::append_bytes;
use crate::codec::data_records;
use crate::codec::header_bytes;
use crate::codec::read_count;
use crate::common::FORMAT_VERSION;
use crate::error::FormatError;
use crate::error::XpakError;
use crate::header::data_offset;
use crate::header::decode_header;
use crate::header::encode_header;
use crate::header::header_of;
use crate::header::is_legacy;
use crate::header::is_legacy_version;
use crate::header::locate_data;
use crate::header::metadata_text;
use crate::json::JsonView;
use crate::metadata::MetadataView;
use crate::metadata::XpakMetadata;
use crate::metadata::current_timestamp;
use crate::metadata::merge_entries;
use crate::json::merged;
use crate::metadata::resolve_user_metadata;
use crate::pak::given_entries;
use crate::pak::text_view;
use crate::unpak::infos_of;
use crate::unpak::lemma_records_at_len;
use crate::unpak::scan_records;
use crate::unpak::total_size;

verus! {

/// The metadata `m` after an update: the description is replaced where a
/// new one is given, the entries are put into the user's entries, and a
/// format version without end marker gives way to the current one, since
/// the new header has the marker. Everything else stays.
pub open spec fn applied(
    m: MetadataView,
    description: Option<Seq<char>>,
    entries: Seq<(Seq<char>, JsonView)>,
) -> MetadataView {
    MetadataView {
        format_version: if is_legacy(m.format_version) {
            FORMAT_VERSION@
        } else {
            m.format_version
        },
        description: match description {
            Some(d) => Some(d),
            None => m.description,
        },
        common: merged(m.common, entries),
        ..m
    }
}

/// Fresh metadata for the records `rs`, written at the time `created_at`:
/// the count, the sum of the content lengths and the file index are those
/// of the records.
pub open spec fn regenerated(rs: Seq<RecordView>, created_at: Seq<char>) -> MetadataView {
    MetadataView {
        files: infos_of(rs),
        ..XpakMetadata::fresh_view(rs.len() as u32, total_size(rs) as u64, created_at)
    }
}

/// The metadata that an update starts from, and the place where the data
/// region begins. With `all` the metadata is made anew from a walk over the
/// records, and nothing of the old metadata is kept; without it the old
/// metadata is read.
pub open spec fn update_base(bytes: Seq<u8>, all: bool, created_at: Seq<char>) -> Result<
    (MetadataView, int),
    XpakError,
> {
    if all {
        match data_offset(bytes) {
            Err(e) => Err(XpakError::Format(e)),
            Ok(start) => match data_records(bytes, start) {
                Err(e) => Err(XpakError::Format(e)),
                Ok(rs) => Ok((regenerated(rs, created_at), start)),
            },
        }
    } else {
        header_of(bytes)
    }
}

/// The archive after an update of its metadata: a new header, and behind it
/// every byte of the old data region.
pub open spec fn updated(
    bytes: Seq<u8>,
    description: Option<Seq<char>>,
    user_meta: Option<Seq<char>>,
    all: bool,
    created_at: Seq<char>,
) -> Result<Seq<u8>, XpakError> {
    match update_base(bytes, all, created_at) {
        Err(e) => Err(e),
        Ok((m, start)) => match given_entries(user_meta) {
            Err(e) => Err(XpakError::Metadata(e)),
            Ok(entries) => {
                let text = metadata_text(applied(m, description, entries));
                if text.len() > u32::MAX {
                    Err(XpakError::Format(FormatError::TooLarge))
                } else {
                    Ok(header_bytes(text, true) + bytes.skip(start))
                }
            },
        },
    }
}

/// Makes metadata anew from a walk over the records of an archive, and says
/// where its data region begins.
pub fn regenerate_metadata(bytes: &[u8], created_at: String) -> (r: Result<(XpakMetadata, usize), XpakError>)
    ensures
        match r {
            Ok((m, start)) => update_base(bytes@, true, created_at@) == Ok::<
                (MetadataView, int),
                XpakError,
            >((m@, start as int)),
            Err(e) => update_base(bytes@, true, created_at@) == Err::<(MetadataView, int), XpakError>(
                e,
            ),
        },
{
    let start = match locate_data(bytes) {
        Ok(start) => start,
        Err(e) => {
            return Err(XpakError::Format(e));
        },
    };
    let count = match read_count(bytes, start) {
        Ok(count) => count,
        Err(e) => {
            return Err(XpakError::Format(e));
        },
    };
    let len = bytes.len();
    proof {
        assert(start + 4 <= len);
        lemma_records_at_len(bytes@, start + 4, count as nat);
    }
    let (files, total) = match scan_records(bytes, start + 4, count) {
        Ok(scan) => scan,
        Err(e) => {
            return Err(XpakError::Format(e));
        },
    };
    let mut m = XpakMetadata::with_timestamp(count, total, created_at);
    m.files = files;
    Ok((m, start))
}

/// Applies an update to metadata: a new description where one is given, and
/// the entries on top of the user's entries.
pub fn apply_update(m: &mut XpakMetadata, description: Option<&str>, entries: &Vec<(String, crate::json::JsonValue)>)
    ensures
        final(m)@ == applied(old(m)@, text_view(description), crate::json::members_view(entries@)),
{
    if is_legacy_version(&m.format_version) {
        m.format_version = FORMAT_VERSION.to_owned();
    }
    match description {
        Some(d) => {
            m.description = Some(d.to_owned());
        },
        None => {},
    }
    merge_entries(&mut m.common, entries);
}

/// Replaces the metadata of an archive, for the time `created_at`. Without
/// `all` the old metadata is read and kept but for the description, where a
/// new one is given, and the user's entries, into which the members of
/// `metadata` are put. With `all` the metadata is made anew from a walk over
/// the records, as written at `created_at`, before description and entries
/// are applied. The new archive is a new header followed by the old data
/// region, byte for byte.
pub fn update_metadata_at(
    bytes: &[u8],
    description: Option<&str>,
    metadata: Option<&str>,
    all: bool,
    created_at: String,
) -> (r: Result<Vec<u8>, XpakError>)
    ensures
        match r {
            Ok(out) => updated(bytes@, text_view(description), text_view(metadata), all, created_at@)
                == Ok::<Seq<u8>, XpakError>(out@),
            Err(e) => updated(bytes@, text_view(description), text_view(metadata), all, created_at@)
                == Err::<Seq<u8>, XpakError>(e),
        },
{
    let (mut m, start) = if all {
        regenerate_metadata(bytes, created_at)?
    } else {
        decode_header(bytes)?
    };
    let entries = match metadata {
        Some(text) => match resolve_user_metadata(text) {
            Ok(entries) => entries,
            Err(e) => {
                return Err(XpakError::Metadata(e));
            },
        },
        None => {
            let none: Vec<(String, crate::json::JsonValue)> = Vec::new();
            proof {
                assert(crate::json::members_view(none@) =~= Seq::empty());
            }
            none
        },
    };
    apply_update(&mut m, description, &entries);
    let mut out = match encode_header(&m) {
        Ok(out) => out,
        Err(e) => {
            return Err(XpakError::Format(e));
        },
    };
    append_bytes(&mut out, slice_subrange(bytes, start, bytes.len()));
    proof {
        assert(bytes@.subrange(start as int, bytes@.len() as int) =~= bytes@.skip(start as int));
    }
    Ok(out)
}

/// Replaces the metadata of an archive. It does what `update_metadata_at`
/// does for the time of the call; without `all` the time plays no part.
pub fn update_metadata(bytes: &[u8], description: Option<&str>, metadata: Option<&str>, all: bool) -> (r: Result<
    Vec<u8>,
    XpakError,
>)
    ensures
        exists|created_at: Seq<char>|
            match r {
                Ok(out) => #[trigger] updated(
                    bytes@,
                    text_view(description),
                    text_view(metadata),
                    all,
                    created_at,
                ) == Ok::<Seq<u8>, XpakError>(out@),
                Err(e) => updated(bytes@, text_view(description), text_view(metadata), all, created_at)
                    == Err::<Seq<u8>, XpakError>(e),
            },
{
    let created_at = current_timestamp();
    let ghost at = created_at@;
    let r = update_metadata_at(bytes, description, metadata, all, created_at);
    proof {
        let u = updated(bytes@, text_view(description), text_view(metadata), all, at);
        assert(match r {
            Ok(out) => u == Ok::<Seq<u8>, XpakError>(out@),
            Err(e) => u == Err::<Seq<u8>, XpakError>(e),
        });
    }
    r
}

} // verus!
