[package]
name = "secure_chat_lib"
version = "0.1.0"
edition = "2021"
publish = false

[dependencies]
chrono = "*"
log = "*"
mio = { version = "*", features = ["os-poll", "net"] }
simplelog = "*"
text_io = "*"
