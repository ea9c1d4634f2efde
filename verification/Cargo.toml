[package]
name = "talon-core"
version = "0.1.0"
edition = "2021"
publish = false

[dependencies]
unicode-normalization = "*"
sha2 = "*"
text-splitter = { version = "*", features = ["markdown"] }
tokenx-rs = "*"
regex = "*"
globset = "*"
time = { version = "*", features = ["parsing", "formatting", "macros"] }
serde = { version = "*", features = ["derive"] }
serde_json = "*"
serde_yaml_ng = "*"
thiserror = "*"
rusqlite = { version = "*", features = ["bundled"] }
sqlite-vec = "*"
fs-err = "*"
rustix = { version = "*", features = ["process"] }
