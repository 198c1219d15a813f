[package]
name = "os_str_pattern"
version = "0.1.0"
edition = "2021"
publish = false

[dependencies]
wtf8 = "0.1.0"
