[package]
name = "mf2_tools"
version = "0.1.0"
edition = "2021"
publish = false

[dependencies]
unicode-bidi = "0.3"
unicode-width = "0.1"
lsp-server = "0.7"
lsp-types = "0.97"
serde = { version = "1", features = ["derive"] }
serde_json = "1"
anyhow = "1"
