[package]
name = "gamma_vk"
version = "0.1.0"
edition = "2021"

[dependencies]
thiserror = "1"
vulkano = "0.35"
