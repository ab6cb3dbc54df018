[package]
name = "textocx"
version = "0.1.0"
edition = "2021"
publish = false

[dependencies]
async-channel = "2"
clipboard-win = "*"
native-windows-derive = "1"
native-windows-gui = { version = "1", features = ["flexbox"] }
rquickjs = { version = "0.4", features = ["loader", "macro"] }

[dev-dependencies]
nom = "7"
