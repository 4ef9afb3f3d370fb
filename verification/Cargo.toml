[package]
name = "sandstone"
version = "0.1.0"
edition = "2021"
publish = false

[dependencies]
stable-vec = "=0.4.3"
randomize = "=5.1.0"
fixed = "=1.31.0"
cordic = "=0.1.5"
serde = { version = "=1.0.229", features = ["derive"] }
serde_json = "=1.0.154"
ron = "=0.8.1"
postcard = { version = "=1.1.3", features = ["alloc"] }
hashbrown = "=0.14.5"
rustc-hash = "=1.1.0"
quote = "=1.0.47"
proc-macro2 = "=1.0.107"
log = "=0.4.35"
home = "=0.5.12"
include_dir = "=0.7.4"
notify = "=6.1.1"
png = "=0.17.16"
imgui = "=0.11.0"
imgui-glow-renderer = "=0.11.0"
glow = "=0.12.3"
tinyfiledialogs = "=3.9.1"
