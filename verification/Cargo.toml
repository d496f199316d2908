[package]
name = "battery_chart"
version = "0.1.0"
edition = "2021"
publish = false

[dependencies]
chrono = "*"
csv = "*"
plotters = { version = "*", default-features = false, features = ["svg_backend", "line_series", "datetime"] }
serde = { version = "*", features = ["derive"] }
thiserror = "*"
