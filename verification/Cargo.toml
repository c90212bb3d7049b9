[package]
name = "unispec"
version = "0.1.0"
edition = "2021"
publish = false

[dependencies]
chrono = "=0.4.45"
nalgebra = "=0.34.2"
plotly = "=0.14.1"
rust_xlsxwriter = "=0.102.0"
varpro = "=0.14.0"
