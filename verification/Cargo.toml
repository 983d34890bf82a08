[package]
name = "hloc"
version = "0.1.0"
edition = "2021"
publish = false

[dependencies]
anyhow = "1"
chrono = "0.4"
clap = { version = "4", features = ["derive"] }
console = "*"
git2 = { version = "*", default-features = false }
globset = "*"
indicatif = "*"
linked_hash_set = "*"
pathdiff = "*"
rayon = "1"
serde = { version = "1", features = ["derive"] }
serde_json = "1"
tokei = "*"
toml = "*"
tracing = "*"
tracing-subscriber = { version = "*", features = ["env-filter"] }
unicode-segmentation = "1"
walkdir = "2"
