[package]
name = "opendocu"
version = "0.1.0"
edition = "2021"
publish = false

[dependencies]
regex = "1"
unicode-segmentation = "1"
pulldown-cmark = { version = "*", default-features = false }
scraper = "*"
serde = { version = "1", features = ["derive"] }
serde_json = "1"
rayon = "1"
tokio = { version = "1", features = ["rt-multi-thread", "sync", "time"] }
libc = "0.2"
docx-rs = "*"
pdf-extract = "*"
epub = "*"
