[package]
name = "ip_more_less_specific"
version = "0.1.0"
edition = "2021"
publish = false

[dependencies]
ipnet = "=2.12.2"
ipnet-trie = "=0.3.1"
flate2 = "=1.1.10"
log = "=0.4.35"
env_logger = "=0.11.11"
tokio = { version = "=1.54.1", features = ["rt-multi-thread", "macros"] }
reqwest = { version = "=0.12.28", default-features = false, features = ["rustls-tls"] }
duckdb = { version = "=1.20000.1", features = ["vscalar", "vscalar-arrow", "loadable-extension"] }
duckdb-loadable-macros = "=1.20000.1"
libduckdb-sys = "=1.20000.1"
