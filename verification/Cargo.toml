[package]
name = "ros2_message_gen"
version = "0.1.0"
edition = "2021"
publish = false

[dependencies]
byteorder = "1"
cdr-encoding = "*"
serde = { version = "1", features = ["derive"] }
thiserror = "*"
