[package]
name = "evm_transfer"
version = "0.1.0"
edition = "2021"
publish = false

[dependencies]
axum = "*"
dotenv = "*"
ethers-core = "*"
ethers-providers = { version = "*", default-features = false }
ethers-signers = "*"
serde = { version = "*", features = ["derive"] }
thiserror = "*"
tokio = { version = "*", features = ["macros", "net", "rt-multi-thread"] }
