[package]
name = "splitstream"
version = "0.1.0"
edition = "2021"
publish = false

[dependencies]
toml_edit = "=0.25.17"
directories = "=6.0.0"
toml = "=1.1.8"
serde = { version = "=1.0.229", features = ["derive"] }
thiserror = "=2.0.21"
rubato = "=0.16.2"
rustfft = "=6.4.1"
notify = "=8.2.1"
ctrlc = "=3.5.2"
interprocess = "=2.4.7"
single-instance = "=0.3.3"
auto-launch = "=0.6.0"
tracing = "=0.1.44"
tracing-appender = "=0.2.5"
tracing-subscriber = "=0.3.23"
global-hotkey = "=0.9.0"
eframe = { version = "=0.37.0", default-features = false, features = ["default_fonts", "glow", "x11"] }
rfd = { version = "=0.17.2", default-features = false, features = ["xdg-portal"] }
