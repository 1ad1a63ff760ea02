[package]
name = "voicemeter"
version = "0.1.0"
edition = "2021"
publish = false

[dependencies]
color-eyre = { version = "0.6", default-features = false }
eframe = { version = "0.24", default-features = false, features = ["default_fonts", "glow", "x11"] }
egui = "0.24"
egui_plot = "0.24"
eyre = "0.6"
oneshot = "0.1"
rustfft = "6"
thingbuf = "0.1"
thiserror = "1"
tracing = "0.1"
tracing-subscriber = { version = "0.3", features = ["env-filter"] }
