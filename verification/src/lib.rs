//! XPAK: a single-file archive format that bundles a directory tree together
//! with a self-describing metadata header.
//!
//! The library works on archives held in memory. Every operation is a
//! function from bytes and plain values to bytes and plain values; reading
//! and writing files is left to the caller.
//!
//! - `codec` lays out and reads the bytes: integers, records, header and
//!   data region.
//! - `json` and `metadata` hold the metadata and its JSON form; `header`
//!   puts the two together.
//! - `pak` writes archives, `unpak` reads and lists them, `update` replaces
//!   their metadata, `view_pak_structure` and `display` show what is in
//!   them.
//! - `laws` states what holds of these operations taken together.

pub mod common;
pub mod error;
pub mod codec;
pub mod json;
pub mod text;
pub mod metadata;
pub mod header;
pub mod cancel;
pub mod unpak;
pub mod pak;
pub mod update;
pub mod display;
pub mod view_pak_structure;
pub mod laws;
