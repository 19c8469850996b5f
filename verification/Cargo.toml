[package]
name = "ext2_core"
version = "0.1.0"
edition = "2021"
publish = false

[dependencies]
uefi = { version = "=0.41.0", features = ["alloc"] }
x86 = "=0.52.0"
virtio-drivers = "=0.13.0"
acpi = "=4.1.1"
log = "=0.4.34"
embedded-graphics = "=0.8.2"
embedded-graphics-framebuf = "=0.5.0"
bytemuck = "=1.25.2"
spin = "=0.12.3"
