[package]
name = "image_js"
version = "0.1.0"
edition = "2021"
publish = false

[dependencies]
ab_glyph_rasterizer = "=0.1.10"
console_error_panic_hook = "=0.1.7"
half = "=2.7.1"
harfrust = "=0.5.2"
js-sys = "=0.3.107"
skrifa = "=0.40.0"
thiserror = "=2.0.21"
wasm-bindgen = "=0.2.130"
