[package]
name = "load_harness"
version = "0.1.0"
edition = "2021"
publish = false

[dependencies]
base64 = "0.13"
actix-web = { version = "4", default-features = false, features = ["macros"] }
awc = { version = "3", default-features = false }
clap = { version = "3", features = ["derive"] }
indicatif = "0.17"
futures-util = "0.3"
