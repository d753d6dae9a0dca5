[package]
name = "wav2vec_burn"
version = "0.1.0"
edition = "2021"
publish = false

[dependencies]
safetensors = "=0.8.0"
bytes = "=1.12.1"
serde_json = "=1.0.154"
anyhow = "=1.0.104"
clap = { version = "=4.6.7", features = ["derive"] }
claxon = "=0.4.3"
dirs = "=7.0.0"
env_logger = "=0.11.11"
hound = "=3.5.1"
log = "=0.4.35"
reqwest = { version = "=0.12.28", default-features = false, features = ["blocking", "rustls-tls"] }
rubato = "=0.16.2"
thiserror = "=2.0.21"
