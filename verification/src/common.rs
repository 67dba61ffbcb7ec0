//! Constants of the archive format.

use vstd::prelude::*;

verus! {

/// The tag that opens every archive: the ASCII letters `XPAK`.
pub const MAGIC_NUMBER: [u8; 4] = [0x58, 0x50, 0x41, 0x4b];

/// The tag that closes the metadata section: the ASCII letters `METAEND_`.
pub const MAGIC_METADATA_END: [u8; 8] = [0x4d, 0x45, 0x54, 0x41, 0x45, 0x4e, 0x44, 0x5f];

/// Contents of at least this many bytes are copied in one piece, shorter
/// ones through a reusable buffer of this size.
pub const BUFFER_SIZE: usize = 65536;

/// The format version that this library writes.
pub const FORMAT_VERSION: &'static str = "1.3";

/// The one format version whose archives carry no end marker.
pub const LEGACY_FORMAT_VERSION: &'static str = "1.0";

/// The version of this library, recorded in every archive it writes.
pub const PACKAGE_VERSION: &'static str = "0.1.0";

pub const KB: usize = 1024;

pub const MB: usize = 1024 * 1024;

pub const GB: usize = 1024 * 1024 * 1024;

/// The opening tag as a sequence of bytes.
pub open spec fn magic_bytes() -> Seq<u8> {
    seq![0x58u8, 0x50u8, 0x41u8, 0x4bu8]
}

/// The end marker as a sequence of bytes.
pub open spec fn end_marker_bytes() -> Seq<u8> {
    seq![0x4du8, 0x45u8, 0x54u8, 0x41u8, 0x45u8, 0x4eu8, 0x44u8, 0x5fu8]
}

} // verus!
