[package]
name = "myrient_dl"
version = "1.0.0"
edition = "2021"
publish = false

[dependencies]
zstd = "=0.13.4"
md5 = "=0.7.0"
reqwest = { version = "=0.12.28", default-features = false, features = ["blocking", "rustls-tls"] }
scraper = "=0.19.1"
serde = { version = "=1.0.229", features = ["derive"] }
serde_json = "=1.0.154"
once_cell = "=1.21.4"
rayon = "=1.12.0"
shellexpand = "=3.1.2"
ratatui = "=0.28.1"
crossterm = "=0.28.1"
dark-light = "=1.1.1"
rfd = { version = "=0.14.1", default-features = false, features = ["xdg-portal", "async-std"] }
libc = "=0.2.191"
windows-sys = { version = "=0.52.0", features = ["Win32_Foundation", "Win32_Storage_FileSystem"] }
egui = "0.27"
