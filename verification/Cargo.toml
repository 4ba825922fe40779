[package]
name = "busyncr"
version = "0.1.0"
edition = "2021"
publish = false

[dependencies]
anyhow = "1"
argon2 = "=0.5.3"
blake3 = "=1.8.7"
chacha20poly1305 = "=0.10.1"
clap = { version = "4", features = ["derive", "env"] }
fastcdc = "=4.0.1"
filetime = "0.2"
lz4_flex = "=0.11.6"
prost = "0.13"
rand = "=0.10.3"
rcgen = "0.13"
serde = { version = "1", features = ["derive"] }
serde_json = "1"
thiserror = "2"
tokio = { version = "1", features = ["rt-multi-thread", "macros", "time", "signal", "sync"] }
tokio-stream = "0.1"
toml = "0.8"
tonic = { version = "0.12", features = ["tls"] }
ulid = "=1.2.1"
windows-service = "0.8"
windows-sys = { version = "0.59", features = ["Win32_Foundation", "Win32_System_EventLog"] }
zstd = "=0.13.4"
