[package]
name = "ir_convert"
version = "0.1.0"
edition = "2021"
publish = false

[dependencies]
ansi_term = "0.12"
ascii85 = "*"
base64 = "0.13"
base91 = "*"
chrono = "0.4"
colour = "*"
half = "*"
hsl = "*"
unicode_names2 = "*"
urlencoding = "2"
uuid = "*"
z85 = "*"
