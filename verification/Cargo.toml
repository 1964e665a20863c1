[package]
name = "w_synth"
version = "0.1.0"
edition = "2021"
publish = false

[dependencies]
anyhow = "=1.0.104"
bincode = "=2.0.1"
console_error_panic_hook = "=0.1.7"
hound = "=3.5.1"
rsworld = "=0.1.0"
rsworld-sys = "=0.1.0"
rubato = "=0.16.2"
serde = { version = "=1.0.229", features = ["derive"] }
serde_json = "=1.0.151"
symphonia = "=0.5.5"
