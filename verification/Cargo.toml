[package]
name = "abd_clam"
version = "0.28.0"
edition = "2021"
publish = false

[dependencies]
bitvec = "=1.1.1"
rand = "=0.8.8"
rand_chacha = "=0.3.1"
rayon = "=1.12.0"
distances = "=1.8.0"
libm = "=0.2.16"
num-traits = "=0.2.19"
arrow2 = { version = "=0.17.4", default-features = false, features = ["io_ipc"] }
arrow-format = { version = "=0.8.1", features = ["ipc"] }

[dev-dependencies]
symagen = "=0.1.3"
