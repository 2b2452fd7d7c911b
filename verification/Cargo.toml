[package]
name = "flatdata"
version = "0.1.0"
edition = "2021"
publish = false

[dependencies]
diff = "*"
memmap = "*"

[dev-dependencies]
rand = "*"
