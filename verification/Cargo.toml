[package]
name = "storage_adapter"
version = "0.1.0"
edition = "2021"
publish = false

[dependencies]
bytes = "*"
mime = "*"
oss-sdk-rs = "*"
aws-smithy-types = "*"
