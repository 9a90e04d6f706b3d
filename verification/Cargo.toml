[package]
name = "schisma"
version = "0.1.0"
edition = "2021"
publish = false

[dependencies]
midly = "0.5"
ringbuf = "0.4"
hound = "3.5"
sha2 = "0.10"
serde = { version = "1", features = ["derive"] }
serde_json = "1"
realfft = "3"
