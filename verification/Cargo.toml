[package]
name = "arbitrage_engine"
version = "0.1.0"
edition = "2021"
publish = false

[dependencies]
petgraph = { version = "0.6", default-features = false }
hex = "0.4"
alloy = { version = "1", default-features = false, features = ["std", "contract", "provider-http", "reqwest"] }
chrono = { version = "0.4", default-features = false, features = ["clock", "std"] }
csv = "1"
dotenv = "0.15"
futures = { version = "0.3", default-features = false, features = ["std"] }
rayon = "1"
serde = { version = "1", features = ["derive"] }
tokio = { version = "1", default-features = false, features = ["rt-multi-thread", "time"] }
