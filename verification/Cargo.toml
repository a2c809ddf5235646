[package]
name = "editor_core"
version = "0.1.0"
edition = "2021"
publish = false

[dependencies]
regex = "=1.13.1"
aho-corasick = "=0.7.20"
wasmparser = "=0.121.2"
smallvec = "=1.16.4"
slotmap = "=1.1.1"
anyhow = "=1.0.104"
serde = { version = "=1.0.229", features = ["derive"] }
serde_json = { version = "=1.0.154", features = ["raw_value"] }
futures = "=0.3.34"
smol = "=1.3.0"
lsp-types = "0.91"
