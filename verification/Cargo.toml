[package]
name = "lantern_boot"
version = "0.1.0"
edition = "2021"
publish = false

[dependencies]
fdt-rs = "*"
fatfs = "*"
lock_api = "*"
generic_once_cell = "*"
