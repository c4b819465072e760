[package]
name = "numtoy"
version = "0.1.0"
edition = "2021"
publish = false

[dependencies]
blake3 = "=1.8.7"
bytemuck = "=1.25.2"
core_affinity = "=0.8.3"
cranelift-codegen = "=0.120.2"
cranelift-frontend = "=0.120.2"
cranelift-jit = "=0.120.2"
cranelift-module = "=0.120.2"
cranelift-native = "=0.120.2"
crossbeam-deque = "=0.8.8"
dashmap = "=6.2.1"
futures-intrusive = "=0.5.0"
libc = "=0.2.191"
memmap2 = "=0.9.12"
once_cell = "=1.21.4"
pollster = "=0.4.0"
pyo3 = { version = "=0.24.2", features = ["extension-module", "abi3-py310"] }
region = "=3.0.2"
wgpu = "=24.0.5"
windows = { version = "0.61", features = ["Win32_Foundation", "Win32_System_Console", "Win32_System_Threading"] }
