[package]
name = "drone_commander"
version = "0.1.0"
edition = "2021"
publish = false

[dependencies]
eframe = { version = "=0.37.0", default-features = false, features = ["default_fonts", "glow", "x11"] }
futures = "=0.3.34"
rfd = { version = "=0.17.2", default-features = false, features = ["xdg-portal"] }
tokio = { version = "=1.54.1", features = ["macros", "net", "rt-multi-thread", "sync", "time"] }
