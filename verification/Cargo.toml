[package]
name = "vector_store"
version = "0.1.0"
edition = "2021"
publish = false

[dependencies]
ollama-rs = "*"
pdf-extract = "*"
serde_json = "1"
text-splitter = { version = "*", features = ["tokenizers"] }
tokenizers = "*"
tokio = { version = "1", features = ["macros", "rt-multi-thread"] }
