[package]
name = "extutils"
version = "0.1.0"
edition = "2021"
publish = false

[dependencies]
base64 = "0.21"
num-bigint = "0.4"
hmac = "0.12"
sha1 = "0.10"
rand = "0.8"
chrono = "0.4"
tempfile = "3"
sysinfo = "*"
libc = "0.2"
reqwest = { version = "0.12", default-features = false, features = ["blocking", "rustls-tls"] }
backtrace = "0.3"
lazy_static = "1"
winapi = { version = "0.3", features = ["sysinfoapi"] }
extargsparse_worker = "*"
extargsparse_codegen = "*"
extlog = "*"
