[package]
name = "log_threshold"
version = "0.1.0"
edition = "2021"
publish = false

[dependencies]
ansi_term = "0.12"
flexi_logger = "0.22"
lazy_static = "1.4"
log = "0.4"
time = { version = "0.3", features = ["formatting"] }
