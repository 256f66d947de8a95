[package]
name = "native_core"
version = "0.1.0"
edition = "2021"
publish = false

[dependencies]
zstd = "=0.14.0"
rand = "=0.10.3"
serde_json = "=1.0.151"
jni = "=0.21.1"
nix = "=0.31.3"
procfs = "=0.18.0"
once_cell = "=1.21.4"
log = "=0.4.34"
android_logger = "=0.15.1"
dobby-rs = "=0.1.0"
