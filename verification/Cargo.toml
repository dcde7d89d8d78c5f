[package]
name = "gadget_aio"
version = "0.1.0"
edition = "2021"
publish = false

[dependencies]
libc = "0.2"
rustix = { version = "1", features = ["event"] }
slab = "0.4"
tokio = { version = "1", features = ["net", "rt"] }
