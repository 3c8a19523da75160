[package]
name = "forge_heatmap"
version = "0.1.0"
edition = "2021"
publish = false

[dependencies]
chrono = "*"
serde = { version = "*", features = ["derive"] }
serde_json = "*"
reqwest = { version = "*", default-features = false, features = ["json"] }
redis = { version = "*", features = ["tokio-comp"] }
tokio = { version = "*", features = ["full"] }
axum = "*"
async-graphql = "*"
async-graphql-axum = "*"
async-trait = "*"
futures = "*"
http = "*"
tower-http = { version = "*", features = ["cors"] }
