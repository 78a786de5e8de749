[package]
name = "tubefeeder"
version = "0.1.0"
edition = "2021"
publish = false

[dependencies]
csv = "=1.4.0"
regex = "=1.13.1"
log = "=0.4.35"
tf_core = "=0.1.4"
tf_join = { version = "=0.1.7", default-features = false, features = ["youtube", "peertube"] }
tf_playlist = "=0.1.4"
tf_filter = "=0.1.3"
tf_observer = "=0.1.3"
env_logger = "=0.11.11"
tf_platform_youtube = "=0.1.7"
tf_platform_peertube = "=0.1.5"
tokio = { version = "=1.54.1", features = ["rt-multi-thread", "net", "time"] }
image = "=0.24.9"
reqwest = { version = "=0.11.27", default-features = false, features = ["rustls-tls"] }
