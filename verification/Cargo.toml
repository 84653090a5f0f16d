[package]
name = "cairo_protostar"
version = "0.1.0"
edition = "2021"
publish = false

[dependencies]
cairo-lang-utils = "*"
itertools = "*"
indexmap = "*"
num-bigint = "*"
num-traits = "*"
num-integer = "*"
cairo-felt = "*"
cairo-lang-sierra = "*"
cairo-lang-casm = "*"
cairo-lang-compiler = "*"
cairo-lang-semantic = "*"
cairo-lang-defs = "*"
cairo-lang-syntax = "*"
cairo-lang-filesystem = "*"
cairo-lang-diagnostics = "*"
cairo-lang-debug = "*"
cairo-lang-sierra-generator = "*"
cairo-lang-starknet = "*"
cairo-lang-runner = "*"
cairo-lang-sierra-ap-change = "*"
cairo-lang-sierra-gas = "*"
cairo-lang-plugins = "*"
anyhow = "*"
thiserror = "*"
serde = { version = "*", features = ["derive"] }
serde_json = "*"
clap = { version = "*", features = ["derive"] }
colored = "*"
rayon = "*"
walkdir = "*"
