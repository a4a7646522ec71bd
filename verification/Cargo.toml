[package]
name = "otel_carrier"
version = "0.1.0"
edition = "2021"
publish = false

[dependencies]
opentelemetry = "0.21"
opentelemetry_sdk = "0.21"
opentelemetry-otlp = "0.14"
tracing = "0.1"
tracing-opentelemetry = "0.22"
tracing-subscriber = "0.3"
clap = { version = "4", features = ["derive"] }
tokio = { version = "1", features = ["full"] }
hyper = { version = "0.14", features = ["client", "http1", "http2", "tcp"] }
hyper-tls = "0.5"
native-tls = { version = "0.2", features = ["alpn"] }
tokio-native-tls = "0.3"
tonic = "0.9"
serde = { version = "1", features = ["derive"] }
