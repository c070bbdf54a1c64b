[package]
name = "checkbe"
version = "0.1.0"
edition = "2021"
publish = false

[dependencies]
serde = { version = "1", features = ["derive"] }
toml = "0.8"
tempfile = "3"
inkwell = { version = "0.5", features = ["llvm18-0"] }
