[package]
name = "hyper_multipart_rfc7578"
version = "0.1.0"
edition = "2021"
publish = false

[dependencies]
bytes = "1"
futures = "0.3"
http = "1"
http-body = "1"
http-body-util = "0.1"
mime = "0.3"
rand = "0.8"
