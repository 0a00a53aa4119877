[package]
name = "mdlint"
version = "0.1.0"
edition = "2021"
publish = false

[dependencies]
comrak = { version = "=0.2.14", default-features = false }
typed-arena = "1"
