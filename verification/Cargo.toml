[package]
name = "memory_set"
version = "0.1.0"
edition = "2021"
publish = false

[dependencies]
xmas-elf = "*"
lazy_static = "*"
riscv = "*"
