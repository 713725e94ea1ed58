[package]
name = "bam_error_detector"
version = "0.1.0"
edition = "2021"
publish = false

[dependencies]
clap = "=4.6.7"
rust-htslib = { version = "=0.47.1", default-features = false }
