[package]
name = "akafoe_menu"
version = "0.1.0"
edition = "2021"
publish = false

[dependencies]
quick-xml = "*"
reqwest = { version = "*", default-features = false, features = ["blocking"] }
time = { version = "*", default-features = false, features = ["formatting", "local-offset", "std"] }
