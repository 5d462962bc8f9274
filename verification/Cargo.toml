[package]
name = "finl_charsub"
version = "1.0.0"
edition = "2021"
publish = false

[dependencies]
anyhow = "1"
thiserror = "1"
