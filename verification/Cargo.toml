[package]
name = "pmtiles"
version = "0.1.0"
edition = "2021"
publish = false

[dependencies]
anyhow = "*"
aws-config = "*"
aws-sdk-s3 = "*"
axum = "*"
axum-aws-lambda = "*"
brotli-decompressor = "*"
clap = { version = "*", features = ["derive"] }
fxhash = "*"
http = "*"
hyper = "*"
lambda_http = "*"
pbf_font_tools = "*"
rand = "*"
serde = { version = "*", features = ["derive"] }
serde_json = "*"
thiserror = "*"
tokio = { version = "*", features = ["full"] }
tower = "*"
tower-http = { version = "*", features = ["trace", "cors", "compression-gzip", "compression-br"] }
tracing = "*"
tracing-subscriber = { version = "*", features = ["env-filter"] }
url = "*"
zstd = "*"
zune-inflate = "*"
