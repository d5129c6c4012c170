[package]
name = "switchboard_accounts"
version = "0.1.0"
edition = "2021"
publish = false

[dependencies]
anchor-lang = "=0.29.0"
bytemuck = { version = "=1.25.2", features = ["min_const_generics"] }
switchboard-common = "=0.7.0"
