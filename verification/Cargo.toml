[package]
name = "topcoat"
version = "0.1.0"
edition = "2021"
publish = false

[dependencies]
http = "1"
syn = { version = "2", features = ["full"] }
proc-macro2 = "1"
rquickjs = "*"
futures-util = "0.3"
bytes = "1"
http-body = "1"
http-body-util = "0.1"
