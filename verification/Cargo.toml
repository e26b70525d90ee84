[package]
name = "subtitle_assistant"
version = "0.2.0"
edition = "2021"
publish = false

[dependencies]
anyhow = "1"
clap = { version = "4", features = ["derive"] }
encoding_rs = "0.8"
env_logger = "0.11"
indicatif = "0.17"
llama-cpp-2 = "=0.1.157"
log = "0.4"
serde = { version = "1", features = ["derive"] }
serde_json = "1"
sherpa-onnx = "=1.13.8"
