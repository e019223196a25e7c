[package]
name = "mlkem_selkie"
version = "0.1.0"
edition = "2021"
publish = false

[dependencies]
getrandom = "0.2"
libcrux-sha3 = "*"
rand_core = "0.6"
sha3-selkie = "*"
subtle = "2"
zeroize = { version = "1", features = ["derive"] }

[dev-dependencies]
libcrux-ml-kem = "*"
rand_chacha = "0.3"
