[package]
name = "lightpolars"
version = "0.1.0"
edition = "2021"
publish = false

[dependencies]
base64 = "=0.22.1"
percent-encoding = "=2.3.2"
wuff = "=0.2.9"
tiny-skia = "0.11"
swash = "0.2"
png = "0.17"
image = { version = "0.25", default-features = false, features = ["jpeg"] }
printpdf = { version = "0.8", default-features = false }
resvg = { version = "0.45", default-features = false }
usvg = { version = "0.45", default-features = false }
serde_json = "1"
tokio = { version = "1", features = ["rt-multi-thread", "macros", "net", "io-util"] }
tokio-tungstenite = "0.24"
futures-util = "0.3"
mimalloc = "0.1"
