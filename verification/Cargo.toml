[package]
name = "node_graph"
version = "0.1.0"
edition = "2021"
publish = false

[dependencies]
dear-app = { version = "0.15", features = ["imnodes"] }
dear-imgui-rs = "0.15"
dear-imnodes = "0.15"
serde = { version = "1", features = ["derive"] }
serde_json = "1"
tracing = "0.1"
tracing-subscriber = { version = "0.3", features = ["env-filter"] }
