[package]
name = "rowly"
version = "0.1.0"
edition = "2021"
publish = false

[dependencies]
csv = "=1.4.0"
encoding_rs = "=0.8.44"
chardetng = "=0.1.17"
serde_json = "=1.0.154"
zip = { version = "*", default-features = false, features = ["deflate"] }

[dev-dependencies]
tempfile = "=3.27.0"
