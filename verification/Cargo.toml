[package]
name = "worldsync"
version = "0.1.0"
edition = "2021"
publish = false

[dependencies]
async-proto = { version = "=0.26.19", features = ["bitvec", "tokio-tungstenite021"] }
bitvec = "=1.1.1"
futures = "=0.3.34"
notify = "=8.2.0"
notify-debouncer-full = "=0.7.0"
rocket = "=0.5.1"
rocket_ws = "=0.1.1"
tokio = { version = "=1.53.2", features = ["macros", "rt", "rt-multi-thread", "sync", "time"] }
uuid = "=1.27.0"
