[package]
name = "pi-natives"
version = "0.1.0"
edition = "2021"
publish = false

[dependencies]
bstr = "1"
unicode-width = "0.2"
globset = "0.4"
ignore = "0.4"
napi = { version = "3", features = ["napi4", "tokio_rt"] }
napi-derive = "3"
tokio = { version = "1", features = ["sync", "time", "signal", "macros", "rt"] }
