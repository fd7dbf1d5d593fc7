[package]
name = "nt4_logging"
version = "0.1.0"
edition = "2021"
publish = false

[dependencies]
byteorder = "=1.5.0"
rmpv = "=1.3.1"
log = "=0.4.34"
parking_lot = "=0.12.5"
tokio = { version = "=1.53.2", features = ["rt-multi-thread", "macros"] }
nt_client = { version = "=0.5.1", features = ["struct"] }
frclib-core = "=0.2.4"
frclib-datalog = "=0.1.3"
inventory = "=0.3.15"
