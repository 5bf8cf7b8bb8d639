[package]
name = "deerquic"
version = "0.1.0"
edition = "2021"
publish = false

[dependencies]
bytes = "1"
getrandom = "0.2"
libc = "0.2"
rustls = { version = "0.23", default-features = false, features = ["ring", "std"] }
thiserror = "1"

[dev-dependencies]
rcgen = "0.13"
