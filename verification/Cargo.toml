[package]
name = "kymux"
version = "0.1.0"
edition = "2021"
publish = false

[dependencies]
byteorder = "=1.5.0"
raptorq = "=1.8.1"
url = "=2.5.8"
tokio = { version = "=1.54.1", features = ["rt", "rt-multi-thread", "net", "io-util", "sync", "time", "macros"] }
bytes = "=1.12.1"
async-trait = "=0.1.92"
libc = "=0.2.191"
serde = { version = "=1.0.229", features = ["derive"] }
rmp-serde = "=1.3.1"
thiserror = "=2.0.21"
log = "=0.4.35"
hex = "=0.4.3"
quinn = "=0.11.12"
rustls = { version = "=0.23.46", default-features = false, features = ["ring", "std"] }
rustls-pemfile = "=2.2.0"
socket2 = "=0.5.10"
ring = "=0.17.14"
rustls-platform-verifier = "=0.7.1"
