[package]
name = "embassy_rp_base"
version = "0.1.0"
edition = "2021"
publish = false

[dependencies]
defmt = "1"
embassy-time = "*"
embassy-usb = "0.6.0"
heapless = "0.8.0"
embassy-executor = "*"
embassy-rp = { version = "*", features = ["rp235xa"] }
cortex-m = "0.7"
critical-section = "1"
portable-atomic = "1"
static_cell = "*"
assign-resources = "*"
panic-probe = "*"
panic-halt = "*"
