[package]
name = "plast"
version = "0.1.0"
edition = "2021"
publish = false

[dependencies]
memmap2 = "*"
bytes = "*"
bytemuck = "*"
tokenizers = "*"
rayon = "*"
crossbeam-channel = "*"
log = "*"
thiserror = "*"
polars = { version = "*", features = ["lazy", "parquet", "ipc", "ipc_streaming", "json", "csv"] }
