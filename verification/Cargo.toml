[package]
name = "mask"
version = "0.1.0"
edition = "2021"
publish = false

[dependencies]
gaze-pii = "0.8"
gaze-assembly = "0.8"
gaze-recognizers = "0.8"
sha2 = "0.10"
serde = { version = "1", features = ["derive"] }
serde_json = "1"
anyhow = "1"
clap = { version = "4", features = ["derive"] }
axum = "0.8"
tokio = { version = "1", features = ["rt-multi-thread", "net", "macros", "sync"] }
tower-http = { version = "0.6", features = ["fs"] }
reqwest = { version = "0.12", default-features = false, features = ["blocking", "rustls-tls"] }
zip = { version = "*", default-features = false, features = ["deflate"] }
pdf-extract = "*"
encoding_rs = "0.8"
hf-hub = { version = "*", default-features = false, features = ["ureq"] }
llama-cpp-2 = "0.1.156"
