[package]
name = "centripetal"
version = "0.1.0"
edition = "2021"
publish = false

[dependencies]
directories = "*"
postcard = { version = "*", default-features = false, features = ["alloc"] }
serde = { version = "*", features = ["derive"] }
