[package]
name = "rownorm"
version = "0.1.0"
edition = "2021"
publish = false

[dependencies]
log = "=0.4.34"
log4rs = "=1.4.0"
simple_logger = "=5.2.0"
structopt = "=0.3.26"

[dev-dependencies]
rmp-serde = "=1.3.1"
