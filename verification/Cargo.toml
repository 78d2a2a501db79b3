[package]
name = "gemma4_serving"
version = "0.1.0"
edition = "2021"
publish = false

[dependencies]
furiosa-opt-std = "=0.6.0"
image = { version = "=0.25.10", default-features = false, features = ["png", "jpeg", "gif", "webp", "bmp"] }
llm-tokenizer = "=1.10.0"
memmap2 = "=0.9.12"
num-traits = "=0.2.19"
rand = "=0.9.5"
safetensors = "=0.4.5"
serde = { version = "=1.0.229", features = ["derive"] }
serde_json = "=1.0.154"
tokio = { version = "1", features = ["rt", "macros"] }

[dev-dependencies]
tokenizers = { version = "=0.23.2", default-features = false }
