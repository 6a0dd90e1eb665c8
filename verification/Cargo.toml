[package]
name = "rustcast"
version = "0.1.0"
edition = "2021"
publish = false

[dependencies]
bincode = "1.3"
clap = { version = "4", default-features = false, features = ["std", "help", "usage", "error-context", "derive"] }
clap_complete = "4"
futures = { version = "0.3", default-features = false, features = ["std"] }
libc = "0.2"
poem = { version = "3", default-features = false, features = ["server", "sse"] }
rodio = { version = "0.22", default-features = false, features = ["playback"] }
serde = { version = "1", features = ["derive"] }
serde_json = "1"
serde_norway = "*"
tokio = { version = "1", features = ["rt-multi-thread", "time"] }
