[package]
name = "source_fast"
version = "0.1.0"
edition = "2021"
publish = false

[dependencies]
rusqlite = { version = "=0.40.2", features = ["bundled"] }
roaring = "=0.11.5"
regex = "=1.13.1"
clap = { version = "=4.6.7", features = ["derive"] }
ignore = "=0.4.33"
notify = "=8.2.0"
rayon = "=1.12.0"
tokio = { version = "=1.53.2", features = ["rt-multi-thread", "macros", "sync", "time", "io-std", "io-util"] }
gix = "=0.88.0"
