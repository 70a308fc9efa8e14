[package]
name = "fontgrepc"
version = "0.1.0"
edition = "2021"
publish = false

[dependencies]
rusqlite = { version = "*", features = ["bundled"] }
regex = "*"
chrono = "*"
clap = { version = "*", features = ["derive"] }
dirs = "*"
env_logger = "*"
jwalk = "*"
log = "*"
memmap2 = "*"
num_cpus = "*"
rayon = "*"
serde = { version = "*", features = ["derive"] }
serde_json = "*"
skrifa = "*"
thiserror = "*"

[dev-dependencies]
tempfile = "*"
