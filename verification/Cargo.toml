[package]
name = "seekslam"
version = "0.1.0"
edition = "2021"
publish = false

[dependencies]
base64 = "=0.22.1"
anyhow = "=1.0.104"
chrono = { version = "=0.4.45", default-features = false, features = ["now"] }
serde = { version = "=1.0.229", features = ["derive"] }
serde_json = "=1.0.154"
nalgebra = { version = "=0.33.3", default-features = false, features = ["std"] }
ndarray = { version = "=0.16.1", default-features = false, features = ["std"] }
rand = "=0.9.5"
oktree = { version = "=0.5.1", default-features = false }
image = { version = "=0.25.10", default-features = false, features = ["png"] }
tokio = { version = "=1.54.1", features = ["rt-multi-thread", "macros", "net"] }
hyper = { version = "=0.14.32", features = ["server", "client", "http1", "tcp", "runtime"] }
rustls = "=0.21.12"
rustls-pemfile = "=1.0.4"
rcgen = "=0.11.3"
ort = { version = "=2.0.0-rc.15", default-features = false, features = ["std", "ndarray", "load-dynamic"] }
