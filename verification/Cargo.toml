[package]
name = "fhe_circuit"
version = "0.1.0"
edition = "2021"
publish = false

[dependencies]
phantom-zone = { version = "=0.1.0", features = ["non_interactive_mp"] }
threadpool = "=1.8.1"
rand = "=0.8.8"
itertools = "=0.12.1"
log = "=0.4.34"
env_logger = "=0.11.11"
