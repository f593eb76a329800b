[package]
name = "tagger"
version = "0.1.0"
edition = "2021"
publish = false

[dependencies]
iced = { version = "=0.14.0", default-features = false, features = ["image", "tokio", "tiny-skia", "x11"] }
image = { version = "=0.25.10", default-features = false, features = ["png", "jpeg"] }
tokio = { version = "=1.54.1", features = ["rt-multi-thread", "macros", "sync"] }
tokio-stream = "=0.1.19"
