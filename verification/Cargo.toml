[package]
name = "raphael"
version = "0.1.0"
edition = "2021"
publish = false

[dependencies]
rustc-hash = "=1.1.0"
radix-heap = "=0.4.2"
pareto_front = "=1.2.1"
flume = "=0.11.1"
phf = "=0.11.3"
phf_generator = "0.11"
phf_shared = "=0.11.3"
egui = { version = "=0.27.2", default-features = false }
egui_extras = { version = "=0.27.2", default-features = false }

[dev-dependencies]
rand = "=0.8.8"
