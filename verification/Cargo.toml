[package]
name = "minimap"
version = "0.1.0"
edition = "2021"
publish = false

[dependencies]
axum = "*"
duckdb = "*"
flate2 = "*"
memmap2 = "*"
osmpbf = "*"
pmtiles = { version = "*", default-features = false, features = ["write"] }
rayon = "*"
serde_json = "*"
tikv-jemallocator = "*"
tokio = { version = "*", features = ["rt-multi-thread", "macros", "net", "fs", "io-util"] }
ureq = "*"

[dev-dependencies]
http-body-util = "*"
tower = { version = "*", features = ["util"] }
