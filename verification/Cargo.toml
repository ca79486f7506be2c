[package]
name = "bench_king"
version = "0.1.0"
edition = "2021"
publish = false

[dependencies]
clap = { version = "*", features = ["derive", "env"] }
tokio = { version = "*", features = ["macros", "rt-multi-thread"] }
