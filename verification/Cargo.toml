[package]
name = "mir"
version = "0.1.0"
edition = "2021"
publish = false

[dependencies]
acpu = "=0.2.0"
aruminium = "=0.2.0"
ash = "=0.38.0"
log = "=0.4.35"
memmap2 = "=0.9.12"
pollster = "=0.4.0"
serde = { version = "=1.0.229", features = ["derive"] }
thiserror = "=2.0.21"
toml = "=0.8.23"
unimem = "=0.2.0"
wgpu = "=27.0.1"

[dependencies.bevy]
version = "0.18"
default-features = false
features = ["bevy_asset", "bevy_color", "bevy_core_pipeline", "bevy_image", "bevy_log", "bevy_render", "bevy_state", "bevy_text", "bevy_ui", "bevy_window", "keyboard", "mouse", "std"]
