[package]
name = "iqdb"
version = "0.7.0"
edition = "2021"
publish = false

[dependencies]
iqdb-types = "*"
iqdb-index = "*"
iqdb-flat = "*"
iqdb-hnsw = "*"
iqdb-ivf = "*"
iqdb-build = "*"
iqdb-persist = "*"
iqdb-cache = "*"
tokio = { version = "1", features = ["rt", "rt-multi-thread"] }
