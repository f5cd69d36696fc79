//! Plast: pretokenized dataset shards, indexed by verified byte arithmetic and
//! exposed as zero-copy windows over memory-mapped files.

pub mod bindings;
pub mod dataloader;
pub mod errors;
pub mod mmap_dataloader;
pub mod mmap_dataloader_bytes;
pub mod pretokenizer;
pub mod shard_index;
pub mod shard_loader;
pub mod words;

pub use dataloader::PretokenizedDataLoader;
pub use mmap_dataloader::MmapPretokenizedDataLoader;
pub use mmap_dataloader_bytes::MmapPretokenizedDataLoaderBytes;
pub use pretokenizer::ShardPlanner;
pub use shard_loader::ShardLoader;
