[package]
name = "protocol_viewer"
version = "0.1.0"
edition = "2021"
publish = false

[dependencies]
log = "0.4"
wasm-bindgen = "0.2"
console_log = "1"
console_error_panic_hook = "0.1"
tracing-wasm = "0.2"
