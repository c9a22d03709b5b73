[package]
name = "zip_inspector"
version = "0.1.0"
edition = "2021"
publish = false

[dependencies]
zip = { version = "=8.6.0", default-features = false, features = ["aes-crypto", "deflate"] }
chrono = { version = "=0.4.45", default-features = false, features = ["clock"] }
