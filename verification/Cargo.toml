[package]
name = "datepicker"
version = "0.1.0"
edition = "2021"
publish = false

[dependencies]
chrono = "*"
egui = "*"
egui_extras = "*"
