[package]
name = "golden_core"
version = "0.1.0"
edition = "2021"
publish = false

[dependencies]
rand = "0.9"
rand_chacha = "0.9"
priority-queue = "2"
itertools = "0.14"
thiserror = "2"
lazy_static = "1"
wasm-bindgen = "0.2"
console_error_panic_hook = "0.1"
