[package]
name = "universal_converter"
version = "0.1.0"
edition = "2021"
publish = false

[dependencies]
anyhow = "=1.0.104"
base64 = "=0.22.1"
calamine = "=0.27.0"
csv = "=1.4.0"
image = "=0.25.10"
lopdf = "=0.34.0"
printpdf = "=0.7.0"
pulldown-cmark = { version = "=0.12.2", default-features = false, features = ["html"] }
quick-xml = "=0.36.2"
resvg = "=0.45.1"
rust_xlsxwriter = "=0.102.0"
serde = { version = "=1.0.229", features = ["derive"] }
serde_json = "=1.0.154"
zip = "2"
