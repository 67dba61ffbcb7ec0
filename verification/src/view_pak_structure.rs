//! A look at the sections of an archive, for diagnosis. Nothing is changed.

use vstd::prelude::*;
use vstd::slice::slice_subrange;
use vstd::slice::slice_to_vec;
use crate::codec::count_at;
use crate::codec::end_marker_at;
use crate::codec::has_magic;
use crate::codec::holds_at;
use crate::codec::le32_at;
use crate::codec::get_u32;
use crate::codec::read_count;
use crate::common::MAGIC_NUMBER;
use crate::common::MAGIC_METADATA_END;
use crate::common::magic_bytes;
use crate::common::end_marker_bytes;
use crate::error::FormatError;
use crate::error::XpakError;
use crate::header::is_legacy;
use crate::header::is_legacy_version;
use crate::header::metadata_of_text;
use crate::header::parse_metadata;

verus! {

/// What was found where the end marker has its place.
#[derive(Debug, Clone, Copy, PartialEq, Eq, Structural)]
pub enum EndMarkerStatus {
    /// The marker is there.
    Valid,
    /// The marker is not there, and the declared format version has none.
    NotSupported,
    /// The marker is not there though the declared format version has one:
    /// the archive is likely damaged.
    Corrupt,
}

/// What a look at the sections of an archive found.
#[derive(Debug, Clone, PartialEq, Eq)]
pub struct StructureReport {
    /// The first four bytes.
    pub magic: Vec<u8>,
    /// Whether they are the tag of the format.
    pub magic_valid: bool,
    /// The length of the metadata text.
    pub metadata_len: u32,
    pub format_version: String,
    /// The number of records that the metadata declares.
    pub files_count: u32,
    /// The sum of the content lengths that the metadata declares.
    pub total_size: u64,
    pub description: Option<String>,
    /// The bytes where the end marker has its place: eight, or fewer where
    /// the archive ends before.
    pub end_marker: Vec<u8>,
    pub end_marker_status: EndMarkerStatus,
    /// Whether a data region follows: the count of records can be read
    /// where the region has to begin. Always `false` where the end marker
    /// is missing though the format version has one.
    pub data_present: bool,
}

/// A report as a mathematical value.
pub struct ReportView {
    pub magic: Seq<u8>,
    pub magic_valid: bool,
    pub metadata_len: u32,
    pub format_version: Seq<char>,
    pub files_count: u32,
    pub total_size: u64,
    pub description: Option<Seq<char>>,
    pub end_marker: Seq<u8>,
    pub end_marker_status: EndMarkerStatus,
    pub data_present: bool,
}

impl View for StructureReport {
    type V = ReportView;

    open spec fn view(&self) -> ReportView {
        ReportView {
            magic: self.magic@,
            magic_valid: self.magic_valid,
            metadata_len: self.metadata_len,
            format_version: self.format_version@,
            files_count: self.files_count,
            total_size: self.total_size,
            description: match self.description {
                Some(d) => Some(d@),
                None => None,
            },
            end_marker: self.end_marker@,
            end_marker_status: self.end_marker_status,
            data_present: self.data_present,
        }
    }
}

/// What is to be said of the place of the end marker: the marker is there,
/// or the format version has none, or the archive is likely damaged.
pub open spec fn marker_status(found: bool, version: Seq<char>) -> EndMarkerStatus {
    if found {
        EndMarkerStatus::Valid
    } else if is_legacy(version) {
        EndMarkerStatus::NotSupported
    } else {
        EndMarkerStatus::Corrupt
    }
}

/// The smaller of two numbers.
pub open spec fn min_of(a: int, b: int) -> int {
    if a <= b {
        a
    } else {
        b
    }
}

/// What a look at the sections of an archive finds. A wrong tag is reported,
/// not refused; an archive too short for its metadata, and metadata that
/// cannot be read, are errors.
pub open spec fn inspected(bytes: Seq<u8>) -> Result<ReportView, XpakError> {
    if bytes.len() < 8 || 8 + le32_at(bytes, 4) > bytes.len() {
        Err(XpakError::Format(FormatError::Truncated))
    } else {
        let json_end = 8 + le32_at(bytes, 4);
        match metadata_of_text(bytes.subrange(8, json_end)) {
            Err(e) => Err(XpakError::Metadata(e)),
            Ok(m) => {
                let found = end_marker_at(bytes, json_end);
                let status = marker_status(found, m.format_version);
                let data_start = if is_legacy(m.format_version) {
                    json_end
                } else {
                    json_end + 8
                };
                Ok(
                    ReportView {
                        magic: bytes.subrange(0, 4),
                        magic_valid: has_magic(bytes),
                        metadata_len: le32_at(bytes, 4) as u32,
                        format_version: m.format_version,
                        files_count: m.files_count,
                        total_size: m.total_size,
                        description: m.description,
                        end_marker: bytes.subrange(json_end, min_of(json_end + 8, bytes.len() as int)),
                        end_marker_status: status,
                        data_present: status != EndMarkerStatus::Corrupt && count_at(
                            bytes,
                            data_start,
                        ) is Ok,
                    },
                )
            },
        }
    }
}

/// Whether `bytes` holds `expected` from `pos` on; `false` where the bytes
/// end before.
fn found_at(bytes: &[u8], pos: usize, expected: &[u8]) -> (r: bool)
    requires
        pos <= bytes@.len(),
    ensures
        r == (pos + expected@.len() <= bytes@.len() && bytes@.subrange(
            pos as int,
            pos + expected@.len(),
        ) == expected@),
{
    if bytes.len() - pos < expected.len() {
        return false;
    }
    holds_at(bytes, pos, expected)
}

/// Looks at the sections of an archive: the tag, the metadata, the end
/// marker and the data region.
pub fn view_structure(bytes: &[u8]) -> (r: Result<StructureReport, XpakError>)
    ensures
        match r {
            Ok(report) => inspected(bytes@) == Ok::<ReportView, XpakError>(report@),
            Err(e) => inspected(bytes@) == Err::<ReportView, XpakError>(e),
        },
{
    proof {
        assert(MAGIC_NUMBER@ =~= magic_bytes());
        assert(MAGIC_METADATA_END@ =~= end_marker_bytes());
    }
    let len = bytes.len();
    if len < 8 {
        return Err(XpakError::Format(FormatError::Truncated));
    }
    let metadata_len = get_u32(bytes, 4);
    if len - 8 < metadata_len as usize {
        return Err(XpakError::Format(FormatError::Truncated));
    }
    let json_end = 8 + metadata_len as usize;
    let m = match parse_metadata(slice_subrange(bytes, 8, json_end)) {
        Ok(m) => m,
        Err(e) => {
            return Err(XpakError::Metadata(e));
        },
    };
    let magic_valid = found_at(bytes, 0, MAGIC_NUMBER.as_slice());
    let found = found_at(bytes, json_end, MAGIC_METADATA_END.as_slice());
    let legacy = is_legacy_version(&m.format_version);
    let status = if found {
        EndMarkerStatus::Valid
    } else if legacy {
        EndMarkerStatus::NotSupported
    } else {
        EndMarkerStatus::Corrupt
    };
    let marker_end = if len - json_end < 8 {
        len
    } else {
        json_end + 8
    };
    let data_present = match status {
        EndMarkerStatus::Corrupt => false,
        _ => {
            let data_start = if legacy {
                json_end
            } else {
                json_end + 8
            };
            read_count(bytes, data_start).is_ok()
        },
    };
    Ok(
        StructureReport {
            magic: slice_to_vec(slice_subrange(bytes, 0, 4)),
            magic_valid,
            metadata_len,
            format_version: m.format_version,
            files_count: m.files_count,
            total_size: m.total_size,
            description: m.description,
            end_marker: slice_to_vec(slice_subrange(bytes, json_end, marker_end)),
            end_marker_status: status,
            data_present,
        },
    )
}

} // verus!
