[package]
name = "atat"
version = "0.1.0"
edition = "2021"
publish = false

[dependencies]
heapless = "0.7"
serde = { version = "1", default-features = false }
embedded-hal = "0.2"
nb = "1"
void = { version = "1", default-features = false }
