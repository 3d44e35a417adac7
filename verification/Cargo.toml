[package]
name = "spora-core"
version = "0.1.0"
edition = "2021"
publish = false

[dependencies]
base64 = "=0.22.1"
futures-util = { version = "=0.3.34", features = ["sink"] }
libc = "=0.2.191"
log = "=0.4.35"
netstack-smoltcp = "=0.2.4"
quinn = { version = "=0.11.12", default-features = false, features = ["log", "runtime-tokio", "rustls-ring"] }
rand = "=0.8.8"
rcgen = "=0.13.2"
ring = "=0.17.14"
rusqlite = { version = "=0.32.1", features = ["bundled"] }
rustls = { version = "=0.23.46", default-features = false, features = ["ring", "std", "tls12", "logging"] }
rustls-webpki = { version = "=0.103.16", features = ["ring", "std"] }
serde = { version = "=1.0.229", features = ["derive"] }
serde_json = "=1.0.154"
snow = "=0.10.0"
socket2 = "=0.5.10"
stunclient = "=0.4.2"
subtle = "=2.6.1"
tokio = { version = "=1.54.1", features = ["full"] }
tokio-rustls = { version = "=0.26.6", default-features = false, features = ["ring", "tls12", "logging"] }
tokio-util = "=0.7.20"
url = "=2.5.8"
windows-sys = { version = "=0.61.2", features = ["Win32_Foundation", "Win32_NetworkManagement_IpHelper", "Win32_NetworkManagement_Ndis", "Win32_Networking_WinSock"] }
