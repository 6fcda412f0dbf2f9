[package]
name = "freelist_alloc"
version = "0.1.0"
edition = "2021"
publish = false

[dependencies]
spin = "*"
