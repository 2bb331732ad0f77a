[package]
name = "cgroup_mcp"
version = "0.1.1"
edition = "2021"
publish = false

[dependencies]
anyhow = "1"
rmcp = { version = "*", features = ["server", "transport-io", "macros"] }
schemars = "*"
serde = { version = "1", features = ["derive"] }
tokio = { version = "1", features = ["macros", "rt-multi-thread", "time", "io-std"] }

[dev-dependencies]
tempfile = "3"
