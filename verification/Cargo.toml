[package]
name = "itemizer"
version = "0.1.0"
edition = "2021"
publish = false

[dependencies]
icu_segmenter = "*"
quick-xml = "*"
clap = { version = "*", features = ["derive"] }
memmap2 = "*"
regex = "*"
reqwest = { version = "*", default-features = false, features = ["blocking"] }
skrifa = "*"
smol_str = "*"
walkdir = "*"
itertools = "*"
