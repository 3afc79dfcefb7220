[package]
name = "jfon_viewer"
version = "0.1.0"
edition = "2021"
publish = false

[dependencies]
console_error_panic_hook = "=0.1.7"
eframe = { version = "=0.21.3", default-features = false, features = ["glow", "default_fonts"] }
futures = "=0.3.34"
log = "=0.4.34"
parking_lot = "=0.12.5"
rfd = { version = "0.12", default-features = false, features = ["xdg-portal"] }
tracing-subscriber = "=0.3.23"
tracing-wasm = "=0.2.1"
wasm-bindgen-futures = "=0.4.34"
