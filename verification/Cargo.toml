[package]
name = "openbim_icdd"
version = "0.2.0"
edition = "2021"
publish = false

[dependencies]
zip = { version = "*", default-features = false, features = ["deflate"] }
oxrdfxml = "*"
oxrdf = "*"
num-bigint = "*"
uuid = "*"
serde = { version = "*", features = ["derive"] }
thiserror = "*"
