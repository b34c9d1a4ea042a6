[package]
name = "usda_c_grain_sum"
version = "0.1.0"
edition = "2021"
publish = false

[dependencies]
csv = "*"
quick-xml = "*"
rust_xlsxwriter = "*"
serde = { version = "*", features = ["derive"] }
serde_json = "*"
