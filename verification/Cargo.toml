[package]
name = "crystald"
version = "0.1.0"
edition = "2021"
publish = false

[dependencies]
rand = "=0.8.8"
redox_syscall = "=0.2.16"
redox_event = "0.2"
termion = "=1.5.6"
