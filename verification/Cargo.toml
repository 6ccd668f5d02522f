[package]
name = "gpui_base"
version = "0.6.4"
edition = "2021"
publish = false

[dependencies]
ropey = { version = "=2.0.0-beta.1", features = ["metric_lines_lf", "metric_utf16"] }
serde = { version = "1", features = ["derive"] }
