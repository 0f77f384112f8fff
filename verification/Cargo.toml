[package]
name = "rustload"
version = "0.1.0"
edition = "2021"
publish = false

[dependencies]
anyhow = "1"
calloop = "0.9"
clap = "2"
confy = "0.4"
daemonize = "0.4"
diesel = { version = "1.4", features = ["sqlite"] }
libc = "0.2"
libsqlite3-sys = { version = "0.22", features = ["bundled"] }
log = "0.4"
log4rs = "1"
nix = "0.23"
ordered-float = "2"
procfs = "0.12"
rayon = "1"
rmp-serde = "1"
semver = "1"
serde = { version = "1", features = ["derive"] }
structopt = "0.3"
terminal_size = "0.1"
url = "2"
