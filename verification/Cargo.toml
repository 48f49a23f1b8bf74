[package]
name = "dyndns"
version = "0.1.0"
edition = "2021"
publish = false

[dependencies]
clap = { version = "=4.6.7", features = ["derive", "env"] }
cloudflare = { version = "=0.14.0", features = ["blocking"] }
dotenv = "=0.15.0"
reqwest = { version = "=0.12.28", default-features = false, features = ["blocking"] }
