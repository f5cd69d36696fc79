//! The errors of the loaders and of pretokenization.

use std::path::PathBuf;
use vstd::prelude::*;

verus! {

/// Why mapping a set of shards failed.
#[derive(Debug)]
pub enum DataLoaderError {
    /// A shard file could not be opened.
    ShardOpenFailed { source: std::io::Error, path: PathBuf },
    /// A shard file could not be memory-mapped.
    MemoryMappingFailed { source: std::io::Error, path: PathBuf },
    /// A shard's byte size is not a multiple of 4, so it does not hold whole tokens.
    InvalidByteAlignment { size: usize, path: PathBuf },
}

/// Why pretokenizing a dataset failed.
#[derive(Debug)]
pub enum PretokenizerError {
    /// The target directory could not be created.
    DirectoryCreationFailed { source: std::io::Error, path: PathBuf },
    /// A shard file could not be created.
    ShardCreationFailed { source: std::io::Error, path: PathBuf },
    /// Token bytes could not be written to a shard file.
    WriteFailed { source: std::io::Error, path: PathBuf },
    /// A shard file's buffered writer could not be flushed.
    FlushFailed { source: std::io::Error, path: PathBuf },
}

} // verus!
