use vstd::prelude::*;

/// The version archive: per-version summaries kept after manifests are
/// cleaned up, with the policy for flushing, loading and retention.
pub mod archive;
/// The decisions of the SQL catalog over namespaces.
pub mod catalog;
/// The wire encoding of manifests and archives.
pub mod codec;
/// The errors that the library reports.
pub mod error;
/// Fragments and the data files they are made of.
pub mod fragment;
/// The manifest of one dataset version and the writer version.
pub mod manifest;
/// Schemas and their fields.
pub mod schema;
/// Per-field bytes on disk.
pub mod statistics;
/// An insertion-ordered map of strings.
pub mod strmap;
/// Decimal numbers in text.
pub mod text;
/// Fields on the wire: varints, byte strings and their tags.
pub mod wire;

verus! {

} // verus!
