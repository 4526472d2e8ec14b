[package]
name = "frontier"
version = "0.1.0"
edition = "2021"
publish = false

[dependencies]
bit_field = "0.10"
riscv = "0.10"
elf = "0.7"
log = "0.4"
spin = "0.9"
lazy_static = "1.4"
buddy_system_allocator = "0.9"
virtio-drivers = "0.7"
