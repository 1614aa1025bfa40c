[package]
name = "schematic-diff"
version = "0.1.0"
edition = "2021"
publish = false

[dependencies]
base64 = "=0.23.1"
bpaf = { version = "=0.9.28", features = ["derive"] }
flate2 = "=1.1.10"
libc = "=0.2.191"
nucleation = "=0.12.0"
png = "=0.18.1"
quartz_nbt = "=0.2.9"
rayon = "=1.12.0"
schematic-mesher = "=0.2.0"
