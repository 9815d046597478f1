[package]
name = "arrow_io"
version = "0.1.0"
edition = "2021"
publish = false

[dependencies]
arrow-array = "=60.1.0"
arrow-schema = "=60.1.0"
bytes = "=1.12.1"
bzip2 = "=0.6.1"
crc = "=3.4.0"
csv-core = "=0.1.13"
flate2 = "=1.1.10"
futures = "=0.3.34"
# Only named for its feature: what `xz` writes then comes from one liblzma
lzma-sys = { version = "=0.1.20", features = ["static"] }
object_store = "=0.14.2"
snap = "=1.1.2"
tokio = { version = "=1.54.1", features = ["io-util"] }
xz = "=0.1.0"
zstd = { version = "=0.13.4", default-features = false }
