[package]
name = "quantabeta"
version = "0.1.0"
edition = "2021"
publish = false

[dependencies]
rug = { version = "=1.30.0", default-features = false, features = ["integer", "rational", "float", "std"] }
gmp-mpfr-sys = { version = "=1.7.1", default-features = false, features = ["use-system-libs"] }
sha2 = "=0.10.9"
serde = { version = "=1.0.229", features = ["derive"] }
