[package]
name = "reikura"
version = "0.1.0"
edition = "2021"
publish = false

[dependencies]
encoding_rs = "0.8"
bytemuck = { version = "1", features = ["extern_crate_alloc"] }
anyhow = "1"
memmap2 = "0.9"
winit = "0.30"
softbuffer = "0.4"
