[package]
name = "tail_maker"
version = "0.1.0"
edition = "2021"
publish = false

[dependencies]
image = { version = "0.25", default-features = false, features = ["png", "jpeg"] }
base64 = "0.22"
serde = { version = "1", features = ["derive"] }
serde_json = "1"
zip = { version = "2", default-features = false, features = ["deflate"] }
png = "0.17"
chrono = { version = "0.4", default-features = false, features = ["clock", "std"] }
tiny-skia = "0.11"
imageproc = { version = "0.25", default-features = false }
thiserror = "1"
log = "0.4"
