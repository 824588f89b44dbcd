[package]
name = "dab_rs"
version = "0.1.0"
edition = "2021"
publish = false

[dependencies]
reed-solomon = "0.2"
anyhow = "1"
clap = { version = "4", features = ["derive"] }
num-complex = "0.4"
rustfft = "6"
serde = { version = "1", features = ["derive"] }
serde_json = "1"
thiserror = "1"
tracing-subscriber = { version = "0.3", features = ["env-filter"] }
