[package]
name = "tsid_bench"
version = "0.1.0"
edition = "2021"
publish = false

[dependencies]
memcomparable = "*"
serde = "*"
xxhash-rust = { version = "*", features = ["xxh3", "xxh64"] }
fxhash = "*"
mur3 = "*"
arrow = "*"
parquet = "*"
csv = "*"
flate2 = "*"
