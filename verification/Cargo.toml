[package]
name = "ematix_parquet_codec"
version = "0.12.0"
edition = "2021"
publish = false

[dependencies]
snap = "1"
zstd = "0.13"
flate2 = "1"
brotli = "8"
lz4_flex = "0.11"
rayon = "1"
libc = "0.2"
