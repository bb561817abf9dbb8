[package]
name = "rain_drops"
version = "0.1.0"
edition = "2021"
publish = false

[dependencies]
alloy = { version = "=1.0.42", default-features = false, features = ["std", "reqwest", "contract", "provider-http", "rpc-types"] }
anyhow = "1"
clap = { version = "=4.6.7", default-features = false, features = ["std", "derive", "env", "help", "usage", "error-context"] }
csv = "=1.4.0"
dotenv = "0.15"
itertools = "=0.13.0"
serde = { version = "=1.0.229", features = ["derive"] }
tokio = { version = "=1.54.1", features = ["macros", "rt-multi-thread"] }
tracing = "=0.1.44"
