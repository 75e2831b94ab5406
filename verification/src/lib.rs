//! A verified read-only decoder for FAT16 filesystem images held in memory.
//!
//! The crate parses the boot sector (BIOS Parameter Block and its FAT16
//! extension), materialises the file allocation table, and resolves absolute
//! paths against the root directory and subdirectory cluster chains, exposing
//! `read_file` and `read_directory` on the [`fat16::Fat16`] facade.

use vstd::prelude::*;

pub mod fat;
pub mod fat16;
pub mod utils;

verus! {

/// The ways a decode or a lookup can fail.
#[derive(Debug, Clone, Copy, PartialEq, Eq, Structural)]
pub enum FatError {
    /// The input ended before a required field could be read.
    ShortBuffer,
    /// The boot-partition signature is not `55 AA`.
    InvalidSignature,
    /// A path segment did not match any directory entry.
    NotFound,
    /// The resolved entry is a directory but a file read was requested.
    NotAFile,
    /// The resolved entry is not a directory but a listing was requested.
    NotADirectory,
    /// A cluster number in a chain exceeds the cluster region's bounds.
    ClusterOutOfRange,
    /// A FAT link unexpectedly points to a free cluster, or the chain cycles.
    CorruptChain,
    /// Long-filename bytes do not form valid UTF-16.
    EncodingError,
}

} // verus!
