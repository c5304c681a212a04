[package]
name = "pocket_core"
version = "0.1.0"
edition = "2021"
publish = false

[dependencies]
anyhow = "1"
candle-core = "*"
candle-nn = "*"
candle-transformers = "*"
clap = { version = "4", features = ["derive"] }
memmap2 = "*"
rustyline = "*"
serde_json = "1"
sysinfo = "*"
thiserror = "*"
tokenizers = { version = "*", default-features = false, features = ["fancy-regex"] }
tokio = { version = "1", features = ["macros", "rt-multi-thread", "sync", "time"] }
webbrowser = "*"
