[package]
name = "grip"
version = "0.1.0"
edition = "2021"
publish = false

[dependencies]
ansi_term = "0.12"
clap = "2"
codespan-reporting = "0.11"
log = "0.4"
serde = { version = "1", features = ["derive"] }
toml = "0.5"
