[package]
name = "snob_core"
version = "0.1.0"
edition = "2021"
publish = false

[dependencies]
base64 = "=0.22.1"
chrono = "=0.4.45"
directories = "=6.0.0"
hmac = "=0.12.1"
keyring = "=4.2.0"
percent-encoding = "=2.3.2"
rusqlite = { version = "=0.40.2", features = ["bundled"] }
rusqlite_migration = "=2.6.0"
serde = { version = "=1.0.229", features = ["derive"] }
serde_json = "=1.0.154"
sha2 = "=0.10.9"
thiserror = "=2.0.21"
toml = "=1.1.8"
tracing = "=0.1.44"
windows-sys = { version = "=0.61.2", features = ["Win32_Foundation", "Win32_Security", "Win32_Security_Authorization", "Win32_Security_Cryptography", "Win32_Storage_FileSystem", "Win32_System_Threading"] }
zeroize = "=1.9.1"

[dev-dependencies]
tempfile = "=3.27.0"
