[package]
name = "course_projects"
version = "0.1.0"
edition = "2021"
publish = false

[dependencies]
tarpc = { version = "*", features = ["full"] }
tokio = { version = "1", features = ["full"] }
serde = { version = "1", features = ["derive"] }
