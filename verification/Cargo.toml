[package]
name = "segmented_changelog"
version = "0.1.0"
edition = "2021"
publish = false

[dependencies]
anyhow = "1"
async-trait = "0.1"
byteorder = "1"
fs2 = "0.4"
futures = "0.3"
parking_lot = "0.12"
rand = "0.7"
sapling-indexedlog = "*"
serde = { version = "1", features = ["derive"] }
tokio = { version = "1", features = ["sync", "time", "rt", "macros"] }

[dev-dependencies]
tempfile = "3"
