[package]
name = "kvstore"
version = "0.1.0"
edition = "2021"
publish = false

[dependencies]
rocksdb = "*"
serde = { version = "*", features = ["derive"] }
serde_json = "*"
tokio = { version = "*", features = ["rt-multi-thread", "macros", "sync"] }
async-trait = "*"
aws-config = "*"
aws-sdk-dynamodb = "*"
