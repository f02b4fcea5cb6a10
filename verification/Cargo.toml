[package]
name = "updatepack"
version = "0.1.0"
edition = "2021"
publish = false

[dependencies]
colored = "2"
md5 = "0.7"
twox-hash = { version = "2", default-features = false, features = ["xxhash64"] }
walkdir = "2"
zip = { version = "0.6", default-features = false, features = ["deflate"] }

[dev-dependencies]
serde_json = "1"
