[package]
name = "codeinput"
version = "0.0.1"
edition = "2021"
publish = false

[dependencies]
ignore = "0.4"
sha2 = "0.10"
serde = { version = "1", features = ["derive"] }
serde_json = "1"
bincode = { version = "2", features = ["serde"] }
rayon = "1"
git2 = { version = "0.20", default-features = false }
clap = { version = "4", features = ["derive"] }
clap_complete = "4"
tabled = "0.20"
terminal_size = "0.4"
log = "0.4"
human-panic = "2"
better-panic = "0.3"
