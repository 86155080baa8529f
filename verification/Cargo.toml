[package]
name = "adb_explorer"
version = "0.1.0"
edition = "2021"
publish = false

[dependencies]
anyhow = "*"
console_engine = "*"
flexi_logger = "*"
log = "*"
textwrap = "*"
