[package]
name = "ootleswap"
version = "0.1.0"
edition = "2021"
publish = false

[dependencies]
tari_template_lib = "0.26"
tari_template_lib_types = "0.26"
