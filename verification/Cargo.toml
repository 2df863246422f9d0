[package]
name = "uiua"
version = "0.1.0"
edition = "2021"
publish = false

[dependencies]
ecow = "0.2"
rayon = "1"
tinyvec = { version = "1", features = ["alloc"] }
serde = { version = "1", features = ["derive"] }
enum-iterator = "1.4"
once_cell = "1"
parking_lot = "0.12"
image = { version = "0.24", default-features = false, features = ["png", "jpeg", "gif", "bmp"] }
hound = "3.5"
gif = "0.12"
