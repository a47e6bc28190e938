[package]
name = "arc_diff"
version = "0.1.0"
edition = "2021"
publish = false

[dependencies]
camino = "=1.2.6"
hash40 = "=1.3.1"
serde = { version = "=1.0.229", features = ["derive"] }
serde_json = "=1.0.151"
smash-arc = { version = "=0.6.0", features = ["nozstd"] }
thiserror = "=2.0.21"
