[package]
name = "bucharest_solver"
version = "0.1.0"
edition = "2021"
publish = false

[dependencies]
libbucharesthashing = "=0.1.12"
stylus-sdk = "=0.8.4"
# Not called here: pins the version that stylus-sdk 0.8.4 (through
# libbucharesthashing) builds against; with ruint 1.21 its generic
# `to_be_bytes::<32>` fails a compile-time size check.
ruint = { version = "=1.12.3", default-features = false }
