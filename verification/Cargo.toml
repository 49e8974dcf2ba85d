[package]
name = "egui_node_graph"
version = "0.1.0"
edition = "2021"
publish = false

[dependencies]
slotmap = "1.0"
egui = { version = "0.31", default-features = false }
serde = { version = "1.0", features = ["derive"] }
