[package]
name = "qr_forge_core"
version = "0.1.0"
edition = "2021"
publish = false

[dependencies]
barcoders = "=2.0.0"
qrcode = { version = "=0.14.1", default-features = false }
image = { version = "=0.25.10", default-features = false, features = ["png"] }
serde = { version = "=1.0.229", features = ["derive"] }
thiserror = "=2.0.21"
wasm-bindgen = "=0.2.130"
js-sys = "=0.3.107"
console_error_panic_hook = "=0.1.7"

[dev-dependencies]
rxing = { version = "=0.9.3", default-features = false, features = ["decoders", "qrcode", "oned", "encoding_rs"] }
