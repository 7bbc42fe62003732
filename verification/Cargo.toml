[package]
name = "cplib"
version = "0.1.0"
edition = "2021"
publish = false

[dependencies]
num = "=0.4.3"
num-integer = "=0.1.47"
num-traits = "=0.2.19"
fixedbitset = "=0.5.7"
rustc-hash = "=2.1.3"
thiserror = "=2.0.21"
proconio = "=0.6.0"
lib-modulo = "=0.8.1"

[dev-dependencies]
rand = "0.9"
