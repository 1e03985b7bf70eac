[package]
name = "i18n_version_core"
version = "0.1.0"
edition = "2021"
publish = false

[dependencies]
sha2 = "0.10"
glob = "0.3"
walkdir = "2"
serde_json = "1"
thiserror = "1"
napi = { version = "2", default-features = false, features = ["napi4"] }
napi-derive = "2"

[dev-dependencies]
tempfile = "3"
