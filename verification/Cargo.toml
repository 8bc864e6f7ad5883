[package]
name = "auris_core"
version = "0.1.0"
edition = "2021"
publish = false

[dependencies]
hound = "3.5"
serde = { version = "1", features = ["derive"] }
serde_json = "1"
ureq = { version = "2", features = ["json"] }
rusqlite = { version = "0.32", features = ["bundled"] }
chrono = "0.4"
uuid = { version = "1", features = ["v4"] }
tempfile = "3"
thiserror = "1"
symphonia = "0.5"
rubato = "0.16"
tar = "0.4"
bzip2 = "0.4"
