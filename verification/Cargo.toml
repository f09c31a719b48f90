[package]
name = "river"
version = "0.1.0"
edition = "2021"
publish = false

[dependencies]
anyhow = "1"
csv = "1"
quick-xml = "*"
rust_xlsxwriter = { version = "*", default-features = false }
serde_json = "1"
time = { version = "0.3", features = ["formatting", "parsing"] }
