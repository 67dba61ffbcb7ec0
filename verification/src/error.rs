//! The errors that the archive operations report.

use vstd::prelude::*;

verus! {

/// The bytes are not a well-formed archive.
#[derive(Debug, Clone, Copy, PartialEq, Eq, Structural)]
pub enum FormatError {
    /// The archive does not begin with the four-byte tag.
    BadMagic,
    /// The format version asks for an end marker and the eight bytes after
    /// the metadata are not that marker.
    BadEndMarker,
    /// The path of a record is not valid UTF-8.
    InvalidPath,
    /// The number of records that the data region declares differs from the
    /// number that the metadata declares.
    CountMismatch { declared: u32, actual: u32 },
    /// The archive ends before a field or a content that it announces.
    Truncated,
    /// A length or a count does not fit the field that has to carry it.
    TooLarge,
}

/// The metadata, or metadata handed in by the user, cannot be used.
#[derive(Debug, Clone, Copy, PartialEq, Eq, Structural)]
pub enum MetadataError {
    /// The text is not JSON.
    InvalidJson,
    /// The text is JSON, but its top level is not an object.
    NotAnObject,
    /// A field of the archive's metadata is missing or has the wrong type.
    InvalidField,
}

/// Why an operation on an archive failed.
#[derive(Debug, Clone, Copy, PartialEq, Eq, Structural)]
pub enum XpakError {
    Format(FormatError),
    Metadata(MetadataError),
    /// The caller asked for the operation to stop.
    Cancelled,
}

} // verus!
