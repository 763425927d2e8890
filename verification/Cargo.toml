[package]
name = "rust_link"
version = "0.1.0"
edition = "2021"
publish = false

[dependencies]
bytemuck = "=1.25.2"
dap-rs = "=0.2.0"
embassy-usb = "=0.6.0"
embassy-futures = "=0.1.2"
embedded-io-async = "=0.7.0"
embedded-hal = "=1.0.0"
static_cell = "=2.1.1"
bitfield-struct = "=0.13.0"
embassy-time = "=0.5.1"
cortex-m = "0.7"
