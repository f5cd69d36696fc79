//! The memory-mapped loader under the name it is exported by.

pub use crate::dataloader::ChunkedShardIter;
pub use crate::dataloader::PretokenizedDataLoader as MmapPretokenizedDataLoader;
