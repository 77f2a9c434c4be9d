[package]
name = "graphing_calculator"
version = "0.1.0"
edition = "2021"
publish = false

[dependencies]
pcre2 = "*"
plotters = { version = "*", default-features = false, features = ["svg_backend", "line_series"] }
rand = "*"
xml-rs = "*"
