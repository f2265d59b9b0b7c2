[package]
name = "rust_i18n"
version = "0.1.0"
edition = "2021"
publish = false

[dependencies]
convert_case = "*"
glob = "*"
indexmap = "*"
json5 = "*"
once_cell = "*"
serde = { version = "*", features = ["derive"] }
serde_yaml = "*"
tera = "*"
