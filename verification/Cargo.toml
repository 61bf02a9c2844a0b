[package]
name = "saccade"
version = "0.1.0"
edition = "2021"
publish = false

[dependencies]
clap = { version = "4", features = ["derive"] }
config = { version = "0.15", default-features = false, features = ["toml"] }
hdf5 = "0.8"
indicatif = "0.17"
libbpf-rs = "0.25"
ndarray = "0.15"
perf-event2 = "0.7"
perfetto_protos = "*"
protobuf = "3"
rand = "0.9"
rand_distr = "0.5"
rayon = "1"
serde = { version = "1", features = ["derive"] }
serde_json = "1"
tracing = "0.1"
tracing-subscriber = "0.3"
ureq = { version = "3", default-features = false, features = ["rustls"] }
