//! The provenance record stamped into every generated container.
use vstd::prelude::*;

verus! {

/// Name of the reserved entry that holds the serialized record.
pub const METADATA_KEY: &'static str = "__TEX_DECOMPRESSOR_METADATA__";

/// The record version written by this library.
pub const METADATA_VERSION: u32 = 1;

/// Marks a container as generated by this tool, and in which mode.
#[derive(Debug, Clone, Copy, PartialEq, Eq, Structural)]
pub struct PakMetadata {
    pub version: u32,
    /// `true` for a full re-pack that replaced the original file, `false`
    /// for a filtered (patch) output.
    pub is_full_package: bool,
}

impl PakMetadata {
    /// The current-version record for the given mode.
    pub fn new(is_full_package: bool) -> (r: Self)
        ensures
            r.version == METADATA_VERSION,
            r.is_full_package == is_full_package,
    {
        PakMetadata { version: METADATA_VERSION, is_full_package }
    }

    /// Whether the container is a full re-pack (replace mode).
    pub fn is_full_package(&self) -> (r: bool)
        ensures
            r == self.is_full_package,
    {
        self.is_full_package
    }

    /// The record's version.
    pub fn version(&self) -> (r: u32)
        ensures
            r == self.version,
    {
        self.version
    }
}

} // verus!
