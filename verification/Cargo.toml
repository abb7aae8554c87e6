[package]
name = "sapience"
version = "0.1.0"
edition = "2021"
publish = false

[dependencies]
parking_lot = "0.12"
tracing = "0.1"
windows-registry = "0.6"

[dependencies.windows]
version = "0.62"
features = ["Win32_Foundation", "Win32_Media_Speech", "Win32_Media_Audio", "Win32_System_Com", "Win32_System_Threading"]
