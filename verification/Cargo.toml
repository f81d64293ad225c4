[package]
name = "mira_core"
version = "0.1.0"
edition = "2021"
publish = false

[dependencies]
arrow-array = "*"
arrow-buffer = "*"
arrow-ipc = { version = "*", features = ["lz4", "zstd"] }
arrow-schema = "*"
crc32fast = "*"
libc = "*"
memmap2 = "*"
prost = "*"
thiserror = "*"
tracing = "*"
