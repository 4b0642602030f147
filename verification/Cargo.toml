[package]
name = "tabua"
version = "0.1.0"
edition = "2021"
publish = false

[dependencies]
rand = "=0.8.8"
serde = { version = "1", features = ["derive"] }
tokio = { version = "1", features = ["macros", "rt", "sync"] }
async-trait = "0.1"
log = "0.4"
fern = "0.6"
chrono = "0.4"
thiserror = "1"
