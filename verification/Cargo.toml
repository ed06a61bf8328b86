[package]
name = "strata"
version = "0.1.0"
edition = "2021"
publish = false

[dependencies]
serde = { version = "=1.0.229", features = ["derive"] }
serde_json = "=1.0.154"
toml = "=1.1.8+spec-1.1.0"
clap = { version = "=4.6.7", features = ["derive"] }
directories = "=6.0.0"
zip = { version = "=8.6.0", default-features = false, features = ["deflate"] }
ureq = "=2.12.1"
image = { version = "=0.25.10", default-features = false, features = ["png", "jpeg"] }
chrono = "=0.4.45"
log = "=0.4.35"
env_logger = "=0.11.11"
rustfft = "=6.4.1"
wgpu = { version = "=30.0.1", features = ["naga-ir"] }
naga = { version = "=30.0.1", features = ["glsl-in"] }
winit = "=0.30.13"
bytemuck = { version = "=1.25.2", features = ["derive"] }
tokio = { version = "=1.54.1", features = ["rt"] }
open = "=5.4.5"
auto-launch = "=0.6.0"
display-info = "=0.5.10"
ort = { version = "=2.0.0-rc.15", default-features = false, features = ["std", "load-dynamic"] }
