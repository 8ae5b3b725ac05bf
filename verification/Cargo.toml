[package]
name = "spanned"
version = "0.1.0"
edition = "2021"
publish = false

[dependencies]
annotate-snippets = "0.11"
anyhow = "1"
bstr = "1"
color-eyre = { version = "0.6", default-features = false }
colored = "2"
