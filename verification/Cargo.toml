[package]
name = "s3_archiver"
version = "0.1.0"
edition = "2021"
publish = false

[dependencies]
aws-sdk-lambda = { version = "1", default-features = false, features = ["rt-tokio"] }
aws-sdk-s3 = { version = "1", default-features = false, features = ["rt-tokio"] }
awssdk-instrumentation = "*"
base64 = "0.22"
serde = { version = "1", features = ["derive", "rc"] }
serde_json = "1"
thiserror = "2"
tokio = { version = "1", features = ["sync", "rt", "macros", "time"] }
tracing = "0.1"

[dev-dependencies]
crc32fast = "1"
sha2 = "0.10"
zip = { version = "2", default-features = false }
