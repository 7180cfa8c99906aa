[package]
name = "lnxdrive_client"
version = "0.1.0"
edition = "2021"
publish = false

[dependencies]
zbus = "*"
futures-util = "*"
