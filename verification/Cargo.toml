[package]
name = "cargo-unfmt"
version = "0.1.0"
edition = "2021"
publish = false

[dependencies]
anstyle = "1"
anyhow = "1"
clap = { version = "4", features = ["cargo"] }
proc-macro2 = { version = "1", features = ["span-locations"] }
quote = "1"
regex = "1"
rustc_lexer = "*"
syn = { version = "2", features = ["full", "visit"] }
walkdir = "2"
