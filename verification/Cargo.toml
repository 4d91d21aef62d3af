[package]
name = "palindrome_products"
version = "0.1.0"
edition = "2021"
publish = false

[dependencies]
lambda_runtime = "=1.4.0"
serde_json = "=1.0.151"
tokio = { version = "=1.53.2", features = ["macros", "rt-multi-thread"] }
warp = { version = "=0.4.3", features = ["server"] }
