[package]
name = "text_ingest"
version = "0.1.0"
edition = "2021"
publish = false

[dependencies]
anyhow = "=1.0.104"
async-openai = "=0.14.3"
dotenv = "=0.15.0"
http_req = "=0.9.3"
qdrant-client = "=1.6.0"
rand = "=0.8.8"
serde = { version = "=1.0.229", features = ["derive"] }
serde_json = "=1.0.154"
tiktoken-rs = "=0.12.1"
tokio = { version = "=1.54.1", features = ["rt", "rt-multi-thread", "macros"] }
