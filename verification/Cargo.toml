[package]
name = "qlion"
version = "0.1.0"
edition = "2021"
publish = false

[dependencies]
calamine = "*"
chrono = "0.4"
simple_excel_writer = "*"
