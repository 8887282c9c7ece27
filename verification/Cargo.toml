[package]
name = "coursehku"
version = "0.1.0"
edition = "2021"
publish = false

[dependencies]
polars = { version = "=0.55.2", default-features = false, features = ["lazy", "csv", "strings", "regex", "dtype-i8", "temporal", "fmt"] }
serde = { version = "=1.0.229", features = ["derive"] }
