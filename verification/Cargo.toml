[package]
name = "blanc_os"
version = "0.1.0"
edition = "2021"
publish = false

[dependencies]
crossbeam-queue = "0.3"
pc-keyboard = "0.5"
font8x8 = "0.3"
