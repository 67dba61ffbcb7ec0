//! The header of an archive: the metadata between the tag and the data
//! region.

use vstd::prelude::*;
use vstd::slice::slice_subrange;
use vstd::utf8::encode_utf8;
use crate::codec::data_start;
use crate::codec::frame_header;
use crate::codec::header_bytes;
use crate::codec::metadata_end;
use crate::codec::skip_end_marker;
use crate::codec::split_header;
use crate::common::LEGACY_FORMAT_VERSION;
use crate::error::FormatError;
use crate::error::MetadataError;
use crate::error::XpakError;
use crate::json::JsonValue;
use crate::json::JsonView;
use crate::json::canonical;
use crate::json::json_parsed;
use crate::json::json_text;
use crate::json::parse_json;
use crate::json::write_json;
use crate::metadata::MetadataView;
use crate::metadata::XpakMetadata;
use crate::metadata::json_of_metadata;
use crate::metadata::metadata_of_json;
use crate::metadata::text_field;

verus! {

/// Whether archives of this format version carry no end marker.
pub open spec fn is_legacy(version: Seq<char>) -> bool {
    version == LEGACY_FORMAT_VERSION@
}

/// The bytes that are written for the metadata: the text of its JSON
/// document, as `serde_json` holds it, in UTF-8.
pub open spec fn metadata_text(m: MetadataView) -> Seq<u8> {
    encode_utf8(json_text(canonical(json_of_metadata(m))))
}

/// The metadata that a text declares. An empty text declares none.
pub open spec fn metadata_of_text(text: Seq<u8>) -> Result<MetadataView, MetadataError> {
    if text.len() == 0 {
        Err(MetadataError::InvalidJson)
    } else {
        match json_parsed(text) {
            None => Err(MetadataError::InvalidJson),
            Some(doc) => metadata_of_json(doc),
        }
    }
}

/// The metadata of an archive and the place where its data region begins,
/// or the first reason why the header cannot be read: the tag, the length of
/// the metadata, the metadata itself, and then the end marker, which has to
/// be there unless the metadata declares the format version that has none.
pub open spec fn header_of(bytes: Seq<u8>) -> Result<(MetadataView, int), XpakError> {
    match metadata_end(bytes) {
        Err(e) => Err(XpakError::Format(e)),
        Ok(json_end) => match metadata_of_text(bytes.subrange(8, json_end)) {
            Err(e) => Err(XpakError::Metadata(e)),
            Ok(m) => match data_start(bytes, json_end, !is_legacy(m.format_version)) {
                Err(e) => Err(XpakError::Format(e)),
                Ok(start) => Ok((m, start)),
            },
        },
    }
}

/// The format version that a metadata text declares, where it is a JSON
/// object with a text under `format_version`.
pub open spec fn declared_version(text: Seq<u8>) -> Option<Seq<char>> {
    if text.len() == 0 {
        None
    } else {
        match json_parsed(text) {
            Some(JsonView::Object(members)) => text_field(members, "format_version"@),
            _ => None,
        }
    }
}

/// Whether an end marker has to follow a metadata text: not behind an empty
/// one, not behind one that declares the format version without marker, and
/// behind every other.
pub open spec fn marker_expected(text: Seq<u8>) -> bool {
    text.len() > 0 && !(declared_version(text) is Some && is_legacy(declared_version(text)->Some_0))
}

/// Where the data region of an archive begins, found without trust in the
/// metadata: only the declared format version is read from it, and a text
/// that declares none counts as the current format.
pub open spec fn data_offset(bytes: Seq<u8>) -> Result<int, FormatError> {
    match metadata_end(bytes) {
        Err(e) => Err(e),
        Ok(json_end) => data_start(bytes, json_end, marker_expected(bytes.subrange(8, json_end))),
    }
}

/// Where the header can be read, the data region begins where `data_offset`
/// finds it.
pub proof fn lemma_header_of_data_offset(bytes: Seq<u8>)
    requires
        header_of(bytes) is Ok,
    ensures
        data_offset(bytes) == Ok::<int, FormatError>(header_of(bytes)->Ok_0.1),
{
}

/// Whether archives of format version `version` carry no end marker.
pub fn is_legacy_version(version: &String) -> (r: bool)
    ensures
        r == is_legacy(version@),
{
    *version == LEGACY_FORMAT_VERSION.to_owned()
}

/// The header of an archive for the metadata `m`: tag, length, JSON text and
/// end marker.
pub fn encode_header(m: &XpakMetadata) -> (r: Result<Vec<u8>, FormatError>)
    ensures
        match r {
            Ok(out) => metadata_text(m@).len() <= u32::MAX && out@ == header_bytes(
                metadata_text(m@),
                true,
            ),
            Err(e) => e == FormatError::TooLarge && metadata_text(m@).len() > u32::MAX,
        },
{
    let text = write_json(&m.to_json());
    frame_header(text.as_str().as_bytes())
}

/// Reads the metadata that a text declares.
pub fn parse_metadata(text: &[u8]) -> (r: Result<XpakMetadata, MetadataError>)
    ensures
        match r {
            Ok(m) => metadata_of_text(text@) == Ok::<MetadataView, MetadataError>(m@),
            Err(e) => metadata_of_text(text@) == Err::<MetadataView, MetadataError>(e),
        },
{
    if text.len() == 0 {
        return Err(MetadataError::InvalidJson);
    }
    match parse_json(text) {
        None => Err(MetadataError::InvalidJson),
        Some(doc) => XpakMetadata::from_json(&doc),
    }
}

/// Reads the header of an archive: its metadata, and the place where the
/// data region begins.
pub fn decode_header(bytes: &[u8]) -> (r: Result<(XpakMetadata, usize), XpakError>)
    ensures
        match r {
            Ok((m, start)) => header_of(bytes@) == Ok::<(MetadataView, int), XpakError>(
                (m@, start as int),
            ),
            Err(e) => header_of(bytes@) == Err::<(MetadataView, int), XpakError>(e),
        },
{
    let json_end = match split_header(bytes) {
        Ok(end) => end,
        Err(e) => {
            return Err(XpakError::Format(e));
        },
    };
    let m = match parse_metadata(slice_subrange(bytes, 8, json_end)) {
        Ok(m) => m,
        Err(e) => {
            return Err(XpakError::Metadata(e));
        },
    };
    let with_marker = !is_legacy_version(&m.format_version);
    match skip_end_marker(bytes, json_end, with_marker) {
        Ok(start) => Ok((m, start)),
        Err(e) => Err(XpakError::Format(e)),
    }
}

/// Whether an end marker has to follow the metadata text `text`.
pub fn expects_marker(text: &[u8]) -> (r: bool)
    ensures
        r == marker_expected(text@),
{
    if text.len() == 0 {
        return false;
    }
    match parse_json(text) {
        Some(JsonValue::Object(members)) => {
            match crate::metadata::get_text(&members, "format_version") {
                Some(version) => !is_legacy_version(&version),
                None => true,
            }
        },
        _ => true,
    }
}

/// Finds the place where the data region of an archive begins, without
/// trust in the metadata.
pub fn locate_data(bytes: &[u8]) -> (r: Result<usize, FormatError>)
    ensures
        match r {
            Ok(start) => data_offset(bytes@) == Ok::<int, FormatError>(start as int),
            Err(e) => data_offset(bytes@) == Err::<int, FormatError>(e),
        },
{
    let json_end = split_header(bytes)?;
    let with_marker = expects_marker(slice_subrange(bytes, 8, json_end));
    skip_end_marker(bytes, json_end, with_marker)
}

} // verus!
