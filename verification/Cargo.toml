[package]
name = "minerva"
version = "0.1.0"
edition = "2021"
publish = false

[dependencies]
anyhow = "1"
blake3 = "1"
chrono = "0.4"
clap = { version = "4", features = ["derive"] }
genai = "0.1"
lazy_static = "1"
oasysdb = "0.6"
once_cell = "1"
pdf-extract = "0.7"
serde_json = "1"
tantivy = "0.22"
terminal_size = "0.3"
text-splitter = "*"
tokio = { version = "1", features = ["rt-multi-thread", "macros"] }
ulid = "1"
