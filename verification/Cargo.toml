[package]
name = "lol_stats"
version = "0.1.0"
edition = "2021"
publish = false

[dependencies]
regex = "1"
base64 = "0.22"
urlencoding = "2"
serde = { version = "1", features = ["derive"] }
serde_json = "1"
serde_path_to_error = "0.1"
reqwest = { version = "0.12", default-features = false, features = ["json", "rustls-tls"] }
tokio = { version = "1", features = ["time", "macros", "rt-multi-thread"] }
rusqlite = { version = "0.32", features = ["bundled"] }
sysinfo = "0.33"
futures = "0.3"
thiserror = "2"
image = { version = "0.25", default-features = false, features = ["png"] }
arboard = "3"
windows-sys = { version = "0.59", features = ["Win32_Foundation", "Win32_System_Threading", "Win32_System_Diagnostics_Debug", "Win32_UI_Input_KeyboardAndMouse"] }
