[package]
name = "sock_trigger_cmd"
version = "0.1.0"
edition = "2021"
publish = false

[dependencies]
shlex = "1"
argh = "0.1"
log = "0.4"
nix = { version = "*", features = ["fs", "user"] }
serde_json = "1"
tokio = { version = "1", features = ["full"] }
flexi_logger = { version = "*", features = ["syslog_writer"] }
