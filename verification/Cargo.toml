[package]
name = "fastq2comp"
version = "0.1.0"
edition = "2021"
publish = false

[dependencies]
flate2 = "1"
log = "0.4"
plotters = "0.3"
plotters-backend = "0.3"
serde = { version = "1", features = ["derive"] }
serde_json = "1"
simple_logger = "*"
structopt = "0.3"
