[package]
name = "dhtsearch"
version = "0.1.0"
edition = "2021"
publish = false

[dependencies]
icu_collator = "1.2"
icu_testdata = "1.2"
serde = { version = "1", features = ["derive"] }
serde_json = "1"
base64 = "*"
anyhow = "1"
thiserror = "*"
log = "0.4"
humansize = "2"
gloo-net = "*"
url = "2"
