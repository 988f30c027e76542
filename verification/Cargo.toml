[package]
name = "wluma"
version = "4.11.0"
edition = "2021"
publish = false

[dependencies]
anyhow = "1"
dbus = { version = "0.9", features = ["vendored"] }
ddc-hi = "0.4"
futures-util = "0.3"
itertools = "0.14"
lazy_static = "1.5"
libc = "0.2"
log = "0.4"
serde = { version = "1", features = ["derive"] }
serde_yaml = "0.9"
smol = "2"
wayland-client = "0.31"
wayland-protocols = { version = "0.32", features = ["client", "staging", "unstable"] }
wayland-protocols-plasma = { version = "0.3", features = ["client"] }
wayland-protocols-wlr = { version = "0.3", features = ["client"] }
xdg = "3"
