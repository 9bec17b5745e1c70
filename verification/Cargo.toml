[package]
name = "xforme"
version = "0.2.0"
edition = "2021"
publish = false

[dependencies]
umya-spreadsheet = "3"
serde_json = "1"
serde_norway = "*"
rust_xlsxwriter = "*"
printpdf = "0.8"
