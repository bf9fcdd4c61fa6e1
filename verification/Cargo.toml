[package]
name = "components"
version = "0.1.0"
edition = "2021"
publish = false

[dependencies]
async-trait = "=0.1.92"
openssl = "=0.10.81"
protobuf = "=2.28.0"
thiserror = "=1.0.69"
