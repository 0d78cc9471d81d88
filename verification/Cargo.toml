[package]
name = "task_graph"
version = "0.1.0"
edition = "2021"
publish = false

[dependencies]
tokio = { version = "1", features = ["sync", "rt", "rt-multi-thread", "macros", "time"] }
futures = "0.3"
async-trait = "0.1"
thiserror = "1"
