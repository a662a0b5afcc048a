[package]
name = "cubek_qa"
version = "0.1.0"
edition = "2021"
publish = false

[dependencies]
cubecl = { version = "=0.10.0", default-features = false, features = ["std"] }
cubecl-common = { version = "=0.10.0", default-features = false }
half = "=2.7.1"
