[package]
name = "nylon"
version = "0.1.0"
edition = "2021"
publish = false

[dependencies]
serde = { version = "1", features = ["derive"] }
serde_json = "1"
rand = "0.9"
tokio = { version = "1", features = ["full"] }
axum = "0.8"
tonic = { version = "0.14", default-features = false }
reqwest = { version = "0.12", default-features = false, features = ["json"] }
async-trait = "0.1"
rmcp = { version = "*", features = ["server", "transport-io", "macros"] }
schemars = "1"
