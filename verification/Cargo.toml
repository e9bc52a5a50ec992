[package]
name = "job_tags"
version = "0.1.0"
edition = "2021"
publish = false

[dependencies]
glob = "0.3"
parquet = { version = "*", default-features = false }
rayon = "1"
regex = "1"
serde = "1"
serde_json = "1"
time = "0.1"
