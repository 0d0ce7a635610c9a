[package]
name = "talon"
version = "0.1.0"
edition = "2021"
publish = false

[dependencies]
xxhash-rust = { version = "=0.8.19", features = ["xxh3", "xxh64"] }
zstd = "=0.13.4"
base64 = "=0.22.1"
anyhow = "=1.0.104"
serde = { version = "=1.0.229", features = ["derive"] }
serde_json = "=1.0.154"
zip = { version = "=7.4.0", default-features = false, features = ["deflate"] }
# Entries of old archives are gzip streams; this is the decoder that `zip` uses.
flate2 = "=1.1.10"
image = { version = "=0.25.10", default-features = false, features = ["png", "jpeg"] }
ltk_texture = "=0.4.4"
reqwest = { version = "=0.12.28", default-features = false, features = ["json", "blocking", "native-tls"] }
tokio = { version = "=1.54.1", features = ["full"] }
tokio-tungstenite = { version = "=0.28.0", features = ["native-tls"] }
futures-util = "=0.3.34"
native-tls = "=0.2.18"
sysinfo = "=0.37.2"
ctrlc = "=3.5.2"
windows-sys = { version = "=0.60.2", features = ["Win32_Foundation", "Win32_Security", "Win32_System_LibraryLoader", "Win32_System_Registry", "Win32_System_Threading", "Win32_System_Diagnostics_ToolHelp", "Win32_Storage_FileSystem"] }
