[package]
name = "iced_test_aya"
version = "0.1.0"
edition = "2021"
publish = false

[dependencies]
anyhow = "=1.0.104"
aya = "=0.13.1"
aya-ebpf = "=0.1.1"
aya-log = "=0.2.1"
aya-log-ebpf = "=0.1.0"
bstr = "=1.13.1"
env_logger = "=0.10.2"
iced = { version = "=0.12.1", default-features = false }
libc = "=0.2.191"
log = "=0.4.34"
tokio = { version = "=1.54.1", features = ["macros", "rt", "rt-multi-thread", "net", "signal"] }
