[package]
name = "udev_hid_bpf"
version = "0.1.0"
edition = "2021"
publish = false

[dependencies]
anyhow = "1"
clap = { version = "4", features = ["derive"] }
libbpf-rs = "*"
libbpf-sys = "*"
libc = "0.2"
log = "0.4"
regex = "1"
serde = { version = "1", features = ["derive"] }
serde_json = "1"
stderrlog = "*"
udev = "*"
