[package]
name = "commedit_gtk"
version = "0.1.0"
edition = "2021"
publish = false

[dependencies]
syntect = { version = "5", default-features = false, features = ["default-fancy"] }
gtk4 = "*"
sourceview5 = "*"
libspelling = "*"
