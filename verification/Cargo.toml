[package]
name = "epn_mod"
version = "0.1.0"
edition = "2021"
publish = false

[dependencies]
hudhook = "0.8"
imgui = "0.12"
windows = { version = "0.58", features = ["Win32_Foundation", "Win32_System_Memory", "Win32_System_LibraryLoader"] }
