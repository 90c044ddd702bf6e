[package]
name = "ozi"
version = "0.1.0"
edition = "2021"
publish = false

[dependencies]
ethers-core = "2"
ethers-signers = "2"
tokio = { version = "1", features = ["full"] }
tarpc = { version = "*", features = ["full"] }
serde = { version = "1", features = ["derive"] }
reqwest = { version = "0.11", default-features = false, features = ["json"] }
futures = "0.3"
anyhow = "1"
structopt = "0.3"
config-file = "*"
colored = "2"
dotenv = "0.15"
async-trait = "0.1"
