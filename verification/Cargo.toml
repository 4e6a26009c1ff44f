[package]
name = "staged_hooks"
version = "0.1.0"
edition = "2021"
publish = false

[dependencies]
async-trait = "0.1"
futures-concurrency = "7"
tokio = { version = "1", features = ["macros", "rt-multi-thread"] }
