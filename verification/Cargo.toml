[package]
name = "lb_clmm"
version = "0.1.0"
edition = "2021"
publish = false

[dependencies]
anchor-lang = "=1.2.2"
bytemuck = { version = "1.17", features = ["derive", "min_const_generics"] }
ruint = "=1.21.1"
