[package]
name = "libsfs"
version = "0.1.0"
edition = "2021"
publish = false

[dependencies]
aes-gcm = "0.10"
argon2 = "0.5"
rkyv = { version = "0.7", features = ["validation"] }
serde = { version = "1", features = ["derive"] }
snafu = "0.7"
snap = "1"
xxhash-rust = { version = "0.8", features = ["xxh3"] }
